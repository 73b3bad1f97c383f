use morphe::embedded::{Availability, EmbeddedContext, EmbeddedError, EmbeddedFormatter};
use morphe::ruff::{RuffLibBackend, format_python};
use morphe::stylua::{LuaFailure, StyLuaLibBackend, format_lua, map_error};
use stylua_lib::{Config, Error, OutputVerification, format_code};

fn stylua(code: &str, column_width: usize) -> Result<String, LuaFailure> {
    let config = Config { column_width, ..Config::default() };
    match format_code(code, config, None, OutputVerification::Full) {
        Ok(text) => Ok(text),
        Err(error @ Error::ParseError(_)) => Err(LuaFailure::Parse { message: error.to_string() }),
        Err(Error::VerificationAstError(_)) => Err(LuaFailure::Unverified),
        Err(Error::VerificationAstDifference) => Err(LuaFailure::Unverified),
    }
}

#[test]
fn stylua_formats_a_lua_body() {
    let out = format_lua("local x=1\n", EmbeddedContext { line_width: 100 }, &stylua);
    assert_eq!(out, Ok("local x = 1\n".to_owned()));
}

#[test]
fn stylua_rejects_an_invalid_body_as_failed() {
    let out = format_lua("local x = = 1\n", EmbeddedContext { line_width: 100 }, &stylua);
    match out {
        Err(EmbeddedError::Failed { message }) => assert!(!message.is_empty()),
        other => panic!("expected Failed, got {other:?}"),
    }
}

#[test]
fn stylua_reads_the_line_width() {
    let body = "local t = {aaaa = 1, bbbb = 2, cccc = 3}\n";
    let wide = format_lua(body, EmbeddedContext { line_width: 100 }, &stylua).unwrap();
    let narrow = format_lua(body, EmbeddedContext { line_width: 20 }, &stylua).unwrap();
    assert_eq!(wide, "local t = { aaaa = 1, bbbb = 2, cccc = 3 }\n");
    assert_ne!(wide, narrow, "a narrow width breaks the table");
}

#[test]
fn the_lua_backend_claims_lua_and_is_available() {
    let b = StyLuaLibBackend::new(stylua);
    assert_eq!(b.language().as_str(), "lua");
    assert_eq!(b.availability(), Availability::Available);
    assert_eq!(
        b.format("local y=2", &EmbeddedContext { line_width: 80 }),
        Ok("local y = 2\n".to_owned())
    );
}

#[test]
fn stylua_failures_map_to_the_seam_taxonomy() {
    assert_eq!(
        map_error(LuaFailure::Parse { message: "m".to_owned() }),
        EmbeddedError::Failed { message: "m".to_owned() }
    );
    assert_eq!(map_error(LuaFailure::Unverified), EmbeddedError::Unverified);
}

#[test]
fn the_python_backend_claims_python() {
    let b = RuffLibBackend::new();
    assert_eq!(b.language().as_str(), "python");
    assert_eq!(b.availability(), Availability::Available);
}

#[test]
fn python_output_must_reformat_to_itself() {
    let stable = |s: &str| -> Result<String, String> {
        Ok(s.split_whitespace().collect::<Vec<_>>().join(" ") + "\n")
    };
    assert_eq!(format_python("x   =1", &stable), Ok("x =1\n".to_owned()));
    let drifting = |s: &str| -> Result<String, String> { Ok(format!("{s}!")) };
    assert_eq!(format_python("x", &drifting), Err(EmbeddedError::Unverified));
    let refusing = |_: &str| -> Result<String, String> { Err("syntax".to_owned()) };
    assert_eq!(
        format_python("(", &refusing),
        Err(EmbeddedError::Failed { message: "syntax".to_owned() })
    );
}

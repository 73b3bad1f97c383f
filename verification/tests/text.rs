use morphe::support::{Source, classify, source};
use morphe::syntax::{Dialect, SyntaxKind};
use morphe::text::{decimal_of, find, trim_end_of};

#[test]
fn decimals_have_no_leading_zeros() {
    let s = |n: usize| decimal_of(n).into_iter().collect::<String>();
    assert_eq!(s(0), "0");
    assert_eq!(s(7), "7");
    assert_eq!(s(10), "10");
    assert_eq!(s(4096), "4096");
}

#[test]
fn find_gives_the_first_occurrence() {
    let t: Vec<char> = "ab]:cd]:".chars().collect();
    assert_eq!(find(&t, &[']', ':']), Some(2));
    assert_eq!(find(&t, &['x']), None);
}

#[test]
fn trim_end_drops_trailing_white_space_only() {
    let t: Vec<char> = " a b \t\n".chars().collect();
    assert_eq!(trim_end_of(&t).into_iter().collect::<String>(), " a b");
}

#[test]
fn a_source_holds_its_text() {
    assert_eq!(source("p.\n").text(), "p.\n");
    assert!(Source::new("").is_ok());
}

#[test]
fn a_case_is_comment_free_only_as_a_member_without_comments() {
    let plain = classify("a.lp".to_owned(), "p.".to_owned(), Dialect::Clingo, false, &vec![SyntaxKind::Ident, SyntaxKind::Dot]);
    assert!(plain.is_member && plain.comment_free);
    let commented = classify("b.lp".to_owned(), "% c\np.".to_owned(), Dialect::Clingo, false, &vec![SyntaxKind::LineComment, SyntaxKind::Ident, SyntaxKind::Dot]);
    assert!(commented.is_member && !commented.comment_free);
    let broken = classify("c.lp".to_owned(), "p(".to_owned(), Dialect::Clingo, true, &vec![SyntaxKind::Ident]);
    assert!(!broken.is_member && !broken.comment_free);
}

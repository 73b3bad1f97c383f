//! The command-line driver's decisions: where each input's configuration
//! comes from, how command-line flags merge over a `morphe.toml` into the
//! options the formatter reads, which inputs a run formats, and the summary a
//! run reports. The driver's reading, writing and walking are the caller's.

use vstd::prelude::*;

use crate::embedded::EmbeddedFormatters;
use crate::options::{DEFAULT_LINE_WIDTH, FormatOptions};
use crate::outcome::Outcome;
use crate::embedded::same_text;
use crate::syntax::Dialect;
use crate::text::{decimal, decimal_of, push_chars, push_str};

verus! {

/// A dialect as the configuration names it: `clingo` or `asp-core-2`.
#[derive(Clone, Copy, PartialEq, Eq, Debug, Structural)]
pub enum DialectName {
    Clingo,
    AspCore2,
}

/// The dialect a configuration name stands for.
pub open spec fn dialect_named(name: DialectName) -> Dialect {
    match name {
        DialectName::Clingo => Dialect::Clingo,
        DialectName::AspCore2 => Dialect::AspCore2,
    }
}

impl From<DialectName> for Dialect {
    fn from(name: DialectName) -> (d: Dialect) {
        match name {
            DialectName::Clingo => Dialect::Clingo,
            DialectName::AspCore2 => Dialect::AspCore2,
        }
    }
}

impl vstd::std_specs::convert::FromSpecImpl<DialectName> for Dialect {
    open spec fn obeys_from_spec() -> bool {
        true
    }

    open spec fn from_spec(name: DialectName) -> Dialect {
        dialect_named(name)
    }
}

/// The unsafe section of a configuration: transforms whose soundness rests
/// on the caller's assertion, not a proof.
#[derive(Clone, Copy, PartialEq, Eq, Debug, Default)]
pub struct UnsafeToggles {
    /// Treat a top-level `#include` as a hoistable unit rather than a
    /// barrier.
    pub reorder_includes: Option<bool>,
}

/// A `morphe.toml`'s contents: every option optional, so an omitted key
/// leaves the command-line flag or the built-in default in force.
#[derive(Clone, Copy, PartialEq, Eq, Debug, Default)]
pub struct Config {
    pub line_width: Option<usize>,
    pub dialect: Option<DialectName>,
    pub preserve_spellings: Option<bool>,
    pub format_embedded: Option<bool>,
    pub reorder: Option<bool>,
    pub unsafe_toggles: UnsafeToggles,
}

/// The configuration with no overrides.
pub open spec fn no_overrides() -> Config {
    Config {
        line_width: None,
        dialect: None,
        preserve_spellings: None,
        format_embedded: None,
        reorder: None,
        unsafe_toggles: UnsafeToggles { reorder_includes: None },
    }
}

/// The configuration with no overrides: what discovery yields when no file
/// is found.
pub fn empty_config() -> (c: Config)
    ensures
        c == no_overrides(),
{
    Config {
        line_width: None,
        dialect: None,
        preserve_spellings: None,
        format_embedded: None,
        reorder: None,
        unsafe_toggles: UnsafeToggles { reorder_includes: None },
    }
}

/// Why a configuration could not be used: the file could not be read, or
/// its TOML was malformed or carried an unknown key. Each names the file.
#[derive(Clone, Debug)]
pub enum ConfigError {
    Read { path: String, message: String },
    Parse { path: String, message: String },
}

pub const SEPARATOR: &'static str = ": ";

/// What a configuration error says: the file, then what went wrong.
pub open spec fn config_error_text(error: ConfigError) -> Seq<char> {
    match error {
        ConfigError::Read { path, message } => path@ + SEPARATOR@ + message@,
        ConfigError::Parse { path, message } => path@ + SEPARATOR@ + message@,
    }
}

impl ConfigError {
    /// The error's text: the file, then what went wrong.
    pub fn message(&self) -> (s: String)
        ensures
            s@ == config_error_text(*self),
    {
        let mut s = String::new();
        match self {
            ConfigError::Read { path, message } | ConfigError::Parse { path, message } => {
                push_str(&mut s, path.as_str());
                push_str(&mut s, SEPARATOR);
                push_str(&mut s, message.as_str());
            },
        }
        s
    }
}

/// Where each input's configuration comes from: none (`--isolated`), one
/// file for every input (`--config`), or the nearest `morphe.toml` walking
/// up from each input.
#[derive(Clone, Copy, Debug)]
pub enum ConfigSource {
    Isolated,
    Fixed(Config),
    Discover,
}

/// The configuration governing an input, per `source`: `assumed` is the
/// directory discovery walks up from — an input's own directory, or the
/// assumed directory of stdin; without one nothing is discovered.
/// `discover` is the walk up the file system.
pub fn config_for<F: Fn(&str) -> Result<Config, ConfigError>>(
    source: ConfigSource,
    assumed: Option<&str>,
    discover: F,
) -> (r: Result<Config, ConfigError>)
    requires
        forall|s: &str| call_requires(discover, (s,)),
    ensures
        match source {
            ConfigSource::Isolated => r == Ok::<Config, ConfigError>(no_overrides()),
            ConfigSource::Fixed(c) => r == Ok::<Config, ConfigError>(c),
            ConfigSource::Discover => match assumed {
                Some(directory) => call_ensures(discover, (directory,), r),
                None => r == Ok::<Config, ConfigError>(no_overrides()),
            },
        },
{
    match source {
        ConfigSource::Isolated => Ok(empty_config()),
        ConfigSource::Fixed(c) => Ok(c),
        ConfigSource::Discover => match assumed {
            Some(directory) => discover(directory),
            None => Ok(empty_config()),
        },
    }
}

/// The embedded-formatting pair of flags; the later on the command line
/// wins, so at most one is set.
#[derive(Clone, Copy, PartialEq, Eq, Debug)]
pub struct EmbeddedArgs {
    pub format_embedded: bool,
    pub no_format_embedded: bool,
}

impl EmbeddedArgs {
    /// The explicit choice: `--format-embedded` is `Some(true)`,
    /// `--no-format-embedded` is `Some(false)`, neither is `None`.
    pub fn choice(&self) -> (r: Option<bool>)
        ensures
            r == if self.format_embedded {
                Some(true)
            } else if self.no_format_embedded {
                Some(false)
            } else {
                None::<bool>
            },
    {
        if self.format_embedded {
            Some(true)
        } else if self.no_format_embedded {
            Some(false)
        } else {
            None
        }
    }
}

/// The reorder flags: `--reorder`, and `--reorder-includes`, the one unsafe
/// toggle, which implies it.
#[derive(Clone, Copy, PartialEq, Eq, Debug)]
pub struct ReorderArgs {
    pub reorder: bool,
    pub reorder_includes: bool,
}

impl ReorderArgs {
    /// Whether the flags ask for a reorder.
    pub fn wanted(&self) -> (r: bool)
        ensures
            r == (self.reorder || self.reorder_includes),
    {
        self.reorder || self.reorder_includes
    }
}

/// The command-line flags the options are merged from.
#[derive(Clone, Copy, PartialEq, Eq, Debug)]
pub struct Flags {
    pub line_width: Option<usize>,
    pub dialect: Option<Dialect>,
    pub preserve_spellings: bool,
    pub embedded: EmbeddedArgs,
    pub reorder: ReorderArgs,
}

/// `a`, or else `b`.
pub open spec fn or_else<T>(a: Option<T>, b: Option<T>) -> Option<T> {
    match a {
        Some(x) => Some(x),
        None => b,
    }
}

/// The value in `a`, or else `d`.
pub open spec fn value_or<T>(a: Option<T>, d: T) -> T {
    match a {
        Some(x) => x,
        None => d,
    }
}

/// Whether the run formats `#script` bodies: the flag's explicit choice,
/// else the configuration's, else not.
pub open spec fn formats_embedded(flags: Flags, config: Config) -> bool {
    value_or(
        or_else(
            if flags.embedded.format_embedded {
                Some(true)
            } else if flags.embedded.no_format_embedded {
                Some(false)
            } else {
                None::<bool>
            },
            config.format_embedded,
        ),
        false,
    )
}

/// Merge the flags over a file's configuration into the options the
/// formatter reads: a value flag set on the command line wins over the
/// configuration, which wins over the built-in default; a boolean flag ORs
/// with the configuration's. The driver's `backends` are kept only when the
/// run formats `#script` bodies; otherwise the registry is empty.
pub fn resolve_options(flags: &Flags, config: &Config, backends: EmbeddedFormatters) -> (o: FormatOptions)
    ensures
        o.line_width == value_or(or_else(flags.line_width, config.line_width), DEFAULT_LINE_WIDTH),
        o.dialect == value_or(
            or_else(
                flags.dialect,
                match config.dialect {
                    Some(n) => Some(dialect_named(n)),
                    None => None::<Dialect>,
                },
            ),
            Dialect::Clingo,
        ),
        o.preserve_spellings == (flags.preserve_spellings || value_or(
            config.preserve_spellings,
            false,
        )),
        o.format_embedded == formats_embedded(*flags, *config),
        o.format_embedded ==> o.embedded == backends,
        !o.format_embedded ==> o.embedded.languages() == Seq::<Seq<char>>::empty(),
        o.reorder_includes == (flags.reorder.reorder_includes || value_or(
            config.unsafe_toggles.reorder_includes,
            false,
        )),
{
    let format_embedded = match flags.embedded.choice() {
        Some(b) => b,
        None => match config.format_embedded {
            Some(b) => b,
            None => false,
        },
    };
    let line_width = match flags.line_width {
        Some(w) => w,
        None => match config.line_width {
            Some(w) => w,
            None => DEFAULT_LINE_WIDTH,
        },
    };
    let dialect = match flags.dialect {
        Some(d) => d,
        None => match config.dialect {
            Some(n) => Dialect::from(n),
            None => Dialect::Clingo,
        },
    };
    let preserve_spellings = flags.preserve_spellings || match config.preserve_spellings {
        Some(b) => b,
        None => false,
    };
    let reorder_includes = flags.reorder.reorder_includes || match config.unsafe_toggles.reorder_includes {
        Some(b) => b,
        None => false,
    };
    let embedded = if format_embedded {
        backends
    } else {
        EmbeddedFormatters::new()
    };
    FormatOptions {
        line_width,
        dialect,
        preserve_spellings,
        embedded,
        format_embedded,
        reorder_includes,
    }
}

/// Whether the run reorders: the flags ask for it, or the configuration's
/// `reorder`, or its unsafe `reorder_includes`, which implies reordering
/// wherever it is set.
pub fn wants_reorder(flags: &Flags, config: &Config) -> (r: bool)
    ensures
        r == (flags.reorder.reorder || flags.reorder.reorder_includes || value_or(
            config.reorder,
            false,
        ) || value_or(config.unsafe_toggles.reorder_includes, false)),
{
    flags.reorder.wanted() || match config.reorder {
        Some(b) => b,
        None => false,
    } || match config.unsafe_toggles.reorder_includes {
        Some(b) => b,
        None => false,
    }
}

/// One input's result for the run summary: its outcome, and whether it
/// changed — `None` when an error stopped it before that was known.
#[derive(Clone, Copy, PartialEq, Eq, Debug)]
pub struct FileReport {
    pub outcome: Outcome,
    pub changed: Option<bool>,
}

impl FileReport {
    /// An I/O or usage error stopped this input before formatting decided
    /// anything: a user error, left out of the tally.
    pub fn errored() -> (r: FileReport)
        ensures
            r.outcome == Outcome::UserError,
            r.changed is None,
    {
        FileReport { outcome: Outcome::UserError, changed: None }
    }
}

/// The running tally a run reports at its end: the inputs reformatted (or,
/// under `--check`/`--diff`, that would be) and those already formatted.
pub struct Summary {
    pub would_change: bool,
    pub verbose: bool,
    pub reformatted: Vec<String>,
    pub unchanged: Vec<String>,
}

/// The texts of a list of strings.
pub open spec fn texts(v: Seq<String>) -> Seq<Seq<char>> {
    v.map_values(|s: String| s@)
}

impl Summary {
    /// An empty tally; `would_change` when the run only reports, `verbose`
    /// to list the unchanged inputs too.
    pub fn new(would_change: bool, verbose: bool) -> (r: Summary)
        ensures
            r.would_change == would_change,
            r.verbose == verbose,
            r.reformatted@.len() == 0,
            r.unchanged@.len() == 0,
    {
        Summary { would_change, verbose, reformatted: Vec::new(), unchanged: Vec::new() }
    }

    /// Record one input's change status; an errored input is not tallied.
    pub fn record(&mut self, path: &str, changed: Option<bool>)
        ensures
            final(self).would_change == old(self).would_change,
            final(self).verbose == old(self).verbose,
            texts(final(self).reformatted@) == if changed == Some(true) {
                texts(old(self).reformatted@).push(path@)
            } else {
                texts(old(self).reformatted@)
            },
            texts(final(self).unchanged@) == if changed == Some(false) {
                texts(old(self).unchanged@).push(path@)
            } else {
                texts(old(self).unchanged@)
            },
    {
        let ghost r0 = texts(self.reformatted@);
        let ghost u0 = texts(self.unchanged@);
        match changed {
            Some(true) => {
                self.reformatted.push(path.to_owned());
                proof {
                    assert(texts(self.reformatted@) =~= r0.push(path@));
                }
            },
            Some(false) => {
                self.unchanged.push(path.to_owned());
                proof {
                    assert(texts(self.unchanged@) =~= u0.push(path@));
                }
            },
            None => {},
        }
    }
}

pub const WOULD_REFORMAT: &'static str = "would reformat";
pub const REFORMATTED: &'static str = "reformatted";
pub const UNCHANGED: &'static str = "unchanged";
pub const SPACE: &'static str = " ";
pub const WOULD_BE_REFORMATTED: &'static str = " would be reformatted";
pub const REFORMATTED_COMMA: &'static str = " reformatted, ";
pub const UNCHANGED_TAIL: &'static str = " unchanged";

/// Each path behind `prefix` and a space.
pub open spec fn prefixed(prefix: Seq<char>, paths: Seq<Seq<char>>) -> Seq<Seq<char>> {
    paths.map_values(|p: Seq<char>| prefix + SPACE@ + p)
}

/// The summary's lines: the changed inputs, the unchanged ones too when
/// verbose, then the tally; nothing when the run tallied no input.
pub open spec fn summary_lines(s: Summary) -> Seq<Seq<char>> {
    let reformatted = texts(s.reformatted@);
    let unchanged = texts(s.unchanged@);
    if reformatted.len() == 0 && unchanged.len() == 0 {
        Seq::empty()
    } else {
        let verb = if s.would_change {
            WOULD_REFORMAT@
        } else {
            REFORMATTED@
        };
        let tally = if s.would_change {
            decimal(reformatted.len()) + WOULD_BE_REFORMATTED@
        } else {
            decimal(reformatted.len()) + REFORMATTED_COMMA@ + decimal(unchanged.len())
                + UNCHANGED_TAIL@
        };
        prefixed(verb, reformatted) + (if s.verbose {
            prefixed(UNCHANGED@, unchanged)
        } else {
            Seq::empty()
        }) + seq![tally]
    }
}

/// Under `--check` (or `--diff`) the report lists each input that would
/// change on a line of its own, then the unchanged ones when verbose, and
/// its tally line counts exactly the listed inputs that would change.
pub proof fn lemma_check_tally_counts(s: Summary)
    requires
        s.would_change,
        s.reformatted@.len() + s.unchanged@.len() > 0,
    ensures
        summary_lines(s).len() == s.reformatted@.len() + (if s.verbose {
            s.unchanged@.len()
        } else {
            0
        }) + 1,
        forall|i: int|
            0 <= i < s.reformatted@.len() ==> #[trigger] summary_lines(s)[i] == WOULD_REFORMAT@
                + SPACE@ + s.reformatted@[i]@,
        summary_lines(s).last() == decimal(s.reformatted@.len()) + WOULD_BE_REFORMATTED@,
{
    let r = texts(s.reformatted@);
    let u = texts(s.unchanged@);
    let head = prefixed(WOULD_REFORMAT@, r);
    let mid: Seq<Seq<char>> = if s.verbose {
        prefixed(UNCHANGED@, u)
    } else {
        Seq::empty()
    };
    assert(summary_lines(s) == head + mid + seq![decimal(r.len()) + WOULD_BE_REFORMATTED@]);
    assert forall|i: int| 0 <= i < s.reformatted@.len() implies #[trigger] summary_lines(s)[i]
        == WOULD_REFORMAT@ + SPACE@ + s.reformatted@[i]@ by {
        assert(head[i] == WOULD_REFORMAT@ + SPACE@ + r[i]);
    }
}

/// Without `--check` the tally line counts the inputs reformatted — exactly
/// the listed ones — and then the inputs left unchanged.
pub proof fn lemma_write_tally_counts(s: Summary)
    requires
        !s.would_change,
        s.reformatted@.len() + s.unchanged@.len() > 0,
    ensures
        forall|i: int|
            0 <= i < s.reformatted@.len() ==> #[trigger] summary_lines(s)[i] == REFORMATTED@
                + SPACE@ + s.reformatted@[i]@,
        summary_lines(s).last() == decimal(s.reformatted@.len()) + REFORMATTED_COMMA@ + decimal(
            s.unchanged@.len(),
        ) + UNCHANGED_TAIL@,
{
    let r = texts(s.reformatted@);
    let u = texts(s.unchanged@);
    let head = prefixed(REFORMATTED@, r);
    let mid: Seq<Seq<char>> = if s.verbose {
        prefixed(UNCHANGED@, u)
    } else {
        Seq::empty()
    };
    assert(summary_lines(s) == head + mid + seq![
        decimal(r.len()) + REFORMATTED_COMMA@ + decimal(u.len()) + UNCHANGED_TAIL@,
    ]);
    assert forall|i: int| 0 <= i < s.reformatted@.len() implies #[trigger] summary_lines(s)[i]
        == REFORMATTED@ + SPACE@ + s.reformatted@[i]@ by {
        assert(head[i] == REFORMATTED@ + SPACE@ + r[i]);
    }
}

/// Append `prefix`, a space and each path to `lines`.
fn push_prefixed(lines: &mut Vec<String>, prefix: &str, paths: &Vec<String>)
    ensures
        texts(final(lines)@) == texts(old(lines)@) + prefixed(prefix@, texts(paths@)),
{
    let ghost start = texts(lines@);
    let mut k: usize = 0;
    while k < paths.len()
        invariant
            k <= paths@.len(),
            texts(lines@) == start + prefixed(prefix@, texts(paths@.take(k as int))),
        decreases paths.len() - k,
    {
        let mut line = String::new();
        push_str(&mut line, prefix);
        push_str(&mut line, SPACE);
        push_str(&mut line, paths[k].as_str());
        let ghost before = texts(lines@);
        lines.push(line);
        proof {
            assert(texts(paths@.take(k + 1)) =~= texts(paths@.take(k as int)).push(paths@[k as int]@));
            assert(texts(lines@) =~= before.push(line@));
            assert(prefixed(prefix@, texts(paths@.take(k + 1))) =~= prefixed(
                prefix@,
                texts(paths@.take(k as int)),
            ).push(prefix@ + SPACE@ + paths@[k as int]@));
        }
        k = k + 1;
    }
    proof {
        assert(paths@.take(paths@.len() as int) =~= paths@);
    }
}

impl Summary {
    /// The lines the run prints at its end: the changed-input list and the
    /// tally.
    pub fn report_lines(&self) -> (lines: Vec<String>)
        ensures
            texts(lines@) == summary_lines(*self),
    {
        let mut lines: Vec<String> = Vec::new();
        if self.reformatted.len() == 0 && self.unchanged.len() == 0 {
            proof {
                assert(texts(lines@) =~= Seq::<Seq<char>>::empty());
            }
            return lines;
        }
        let verb = if self.would_change {
            WOULD_REFORMAT
        } else {
            REFORMATTED
        };
        push_prefixed(&mut lines, verb, &self.reformatted);
        let ghost after_changed = texts(lines@);
        if self.verbose {
            push_prefixed(&mut lines, UNCHANGED, &self.unchanged);
        }
        let mut tally = String::new();
        let changed = decimal_of(self.reformatted.len());
        push_chars(&mut tally, changed.as_slice());
        if self.would_change {
            push_str(&mut tally, WOULD_BE_REFORMATTED);
        } else {
            push_str(&mut tally, REFORMATTED_COMMA);
            let unchanged = decimal_of(self.unchanged.len());
            push_chars(&mut tally, unchanged.as_slice());
            push_str(&mut tally, UNCHANGED_TAIL);
        }
        let ghost before = texts(lines@);
        lines.push(tally);
        proof {
            assert(texts(lines@) =~= before.push(tally@));
            if !self.verbose {
                assert(before =~= after_changed + Seq::<Seq<char>>::empty());
            }
            assert(texts(lines@) =~= summary_lines(*self));
        }
        lines
    }
}

/// The path argument that stands for stdin.
pub const STDIN_PATH: &'static str = "-";

/// Whether a path argument denotes stdin.
pub fn is_stdin(path: &str) -> (r: bool)
    ensures
        r == (path@ == STDIN_PATH@),
{
    same_text(path, STDIN_PATH)
}

/// What a run formats, given its path arguments.
#[derive(Debug)]
pub enum Inputs {
    /// stdin, to stdout.
    Stdin,
    /// These files and directories, in place.
    Paths(Vec<String>),
    /// `-` mixed with file paths: a usage error.
    Mixed,
    /// No path, and stdin is a terminal: a usage error.
    Nothing,
}

/// The path arguments other than `-`.
pub open spec fn file_paths(paths: Seq<Seq<char>>) -> Seq<Seq<char>> {
    paths.filter(|p: Seq<char>| p != STDIN_PATH@)
}

/// Decide what a run formats: stdin when `-` is given, or when no path is
/// given and stdin is not a terminal; the paths otherwise; `-` beside other
/// paths, or nothing at all, is a usage error.
pub fn plan_inputs(paths: &Vec<String>, stdin_is_terminal: bool) -> (r: Inputs)
    ensures
        ({
            let reads_stdin = texts(paths@).contains(STDIN_PATH@);
            let files = file_paths(texts(paths@));
            if reads_stdin && files.len() > 0 {
                r is Mixed
            } else if reads_stdin || (paths@.len() == 0 && !stdin_is_terminal) {
                r is Stdin
            } else if files.len() == 0 {
                r is Nothing
            } else {
                r matches Inputs::Paths(v) && texts(v@) == files
            }
        }),
{
    let ghost all = texts(paths@);
    let ghost pred = |p: Seq<char>| p != STDIN_PATH@;
    let mut reads_stdin = false;
    let mut files: Vec<String> = Vec::new();
    let mut k: usize = 0;
    while k < paths.len()
        invariant
            k <= paths@.len(),
            all == texts(paths@),
            pred == (|p: Seq<char>| p != STDIN_PATH@),
            reads_stdin == all.take(k as int).contains(STDIN_PATH@),
            texts(files@) == all.take(k as int).filter(pred),
        decreases paths.len() - k,
    {
        let p = paths[k].as_str();
        proof {
            assert(all.take(k + 1) =~= all.take(k as int).push(all[k as int]));
            all.take(k as int).lemma_filter_push(all[k as int], pred);
        }
        let ghost before = texts(files@);
        if is_stdin(p) {
            reads_stdin = true;
        } else {
            files.push(p.to_owned());
            proof {
                assert(texts(files@) =~= before.push(all[k as int]));
            }
        }
        proof {
            assert(all.take(k + 1).contains(STDIN_PATH@) == (all.take(k as int).contains(
                STDIN_PATH@,
            ) || all[k as int] == STDIN_PATH@)) by {
                if all[k as int] == STDIN_PATH@ {
                    assert(all.take(k + 1)[k as int] == all[k as int]);
                }
                let short = all.take(k as int);
                let long = all.take(k + 1);
                if short.contains(STDIN_PATH@) {
                    let j = choose|j: int| 0 <= j < short.len() && #[trigger] short[j] == STDIN_PATH@;
                    assert(long[j] == STDIN_PATH@);
                }
                if long.contains(STDIN_PATH@) {
                    let j = choose|j: int| 0 <= j < long.len() && #[trigger] long[j] == STDIN_PATH@;
                    if j < k {
                        assert(short[j] == STDIN_PATH@);
                    }
                }
            }
        }
        k = k + 1;
    }
    proof {
        assert(all.take(paths@.len() as int) =~= all);
    }
    if reads_stdin && files.len() > 0 {
        Inputs::Mixed
    } else if reads_stdin || (paths.len() == 0 && !stdin_is_terminal) {
        Inputs::Stdin
    } else if files.len() == 0 {
        Inputs::Nothing
    } else {
        Inputs::Paths(files)
    }
}

} // verus!

//! The syntax vocabulary the formatter reads: the kinds of tokens and nodes of
//! a parsed ASP program, the role a token plays, the dialect, and where a
//! diagnostic points. The parser that produces these is outside this library;
//! the values here are what the formatter's logic decides on.

use vstd::prelude::*;

verus! {

/// Which dialect to parse and lay out under.
#[derive(Clone, Copy, PartialEq, Eq, Debug, Structural)]
pub enum Dialect {
    /// The clingo/clingcon dialect.
    Clingo,
    /// The ASP-Core-2 standard.
    AspCore2,
}

/// The kind of a token or node of the concrete syntax tree.
#[derive(Clone, Copy, PartialEq, Eq, Debug, Structural)]
pub enum SyntaxKind {
    // Tokens.
    Whitespace,
    LineComment,
    BlockComment,
    DocComment,
    ScriptBody,
    Dot,
    Neck,
    WeakNeck,
    Colon,
    Comma,
    Semicolon,
    Eq,
    Neq,
    LParen,
    RParen,
    LBracket,
    RBracket,
    LBrace,
    RBrace,
    Pipe,
    Ident,
    KwMinimize,
    KwMaximize,
    // Nodes.
    Program,
    Rule,
    WeakConstraint,
    Body,
    Disjunction,
    Comparison,
    Guard,
    TheoryGuard,
    FunctionAggregate,
    SetAggregate,
    OptimizeStatement,
    TheoryDefinition,
    TermDefinition,
    TheoryElements,
    Condition,
    BodyAggregateElement,
    HeadAggregateElement,
    OptimizeElement,
    Edge,
    TheoryElement,
    OpDefinition,
    AtomDefinition,
    ShowStatement,
    ProgramStatement,
    ConstStatement,
    ExternalStatement,
    EdgeStatement,
    ProjectStatement,
    DefinedStatement,
    IncludeStatement,
    HeuristicStatement,
    ScriptStatement,
    Arguments,
    Annotation,
    BinaryTerm,
    UnaryTerm,
    Pool,
    Tuple,
    FunctionTerm,
    ExternalTerm,
    AbsTerm,
    ConstantTerm,
    VariableTerm,
    SpliceTerm,
    TheorySet,
    TheoryList,
    TheoryTuple,
    TheoryFunction,
    TheoryOpterm,
    TheoryAtom,
    /// Any other token or node kind: its own significant text, laid out by the
    /// faithful tight walk.
    Other,
}

/// Whether a token of `kind` is a comment (trivia or documentation).
pub open spec fn is_comment_kind(kind: SyntaxKind) -> bool {
    kind == SyntaxKind::LineComment || kind == SyntaxKind::BlockComment || kind
        == SyntaxKind::DocComment
}

/// Whether a token of `kind` is a comment.
pub fn is_comment(kind: SyntaxKind) -> (r: bool)
    ensures
        r == is_comment_kind(kind),
{
    kind == SyntaxKind::LineComment || kind == SyntaxKind::BlockComment || kind
        == SyntaxKind::DocComment
}

/// The role a token plays.
#[derive(Clone, Copy, PartialEq, Eq, Debug, Structural)]
pub enum TokenRole {
    /// Layout only.
    Whitespace,
    /// A significant token: part of the program.
    Significant,
    /// A `%!` documentation line, structural to its statement.
    Documentation,
    /// A trivia comment, attached to an anchor.
    Trivia,
}

/// A byte range of a source text.
#[derive(Clone, Copy, PartialEq, Eq, Debug, Structural)]
pub struct Span {
    pub start: usize,
    pub end: usize,
}

/// One token as a certificate witness sees it: its kind, its content, and
/// where it stands.
#[derive(Clone, Debug)]
pub struct Side {
    pub kind: SyntaxKind,
    pub content: String,
    pub location: Span,
}

/// The first divergence between two token sequences: the index where they
/// part, and the token on each side (`None` where a side ran out).
#[derive(Clone, Debug)]
pub struct Mismatch {
    pub index: usize,
    pub left: Option<Side>,
    pub right: Option<Side>,
}

/// A parse error the parser reported: its message and where it points.
#[derive(Clone, Debug)]
pub struct SyntaxError {
    pub message: String,
    pub location: Span,
}

/// How severe a diagnostic is.
#[derive(Clone, Copy, PartialEq, Eq, Debug, Structural)]
pub enum Severity {
    Error,
    Warning,
    Note,
}

/// A diagnostic the formatter records: an identifier (`namespace::name`), a
/// severity, a message, and the span it points at.
#[derive(Clone, Debug)]
pub struct Diagnostic {
    pub namespace: String,
    pub name: String,
    pub severity: Severity,
    pub message: String,
    pub location: Span,
}

impl Diagnostic {
    /// The diagnostic's severity.
    pub fn severity(&self) -> (r: Severity)
        ensures
            r == self.severity,
    {
        self.severity
    }
}

} // verus!

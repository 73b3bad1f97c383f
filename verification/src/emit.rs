//! The fusion floor: the minimum separator any correct formatter must leave
//! between two significant tokens. The house style decides the whitespace it
//! wants; the floor decides the minimum; the separator is the greater.

use vstd::prelude::*;

use crate::doc::Doc;

verus! {

/// The whitespace the house style wants between two significant tokens.
#[derive(Clone, Copy, PartialEq, Eq, Debug, Structural)]
pub enum Wish {
    /// No space wanted — set the tokens tight (the floor may still force
    /// one).
    Abut,
    /// A space wanted between the tokens.
    Space,
}

/// The least separator two texts need so that they lex as they did apart:
/// nothing, white space, or a line break.
#[derive(Clone, Copy, PartialEq, Eq, Debug, Structural)]
pub enum Floor {
    Nothing,
    Whitespace,
    LineBreak,
}

/// Bare adjacency: no separator, so two tokens sit tight.
pub fn nothing() -> (d: Doc)
    ensures
        d matches Doc::Concat(v) && v@.len() == 0,
{
    Doc::Concat(Vec::new())
}

/// A forced single space.
pub fn space() -> (d: Doc)
    ensures
        d matches Doc::Text(s) && s@ == seq![' '],
{
    let s = " ".to_owned();
    proof {
        reveal_strlit(" ");
    }
    Doc::Text(s)
}

/// Map a floor and a wish to the separator: bare adjacency where the floor
/// permits abutment and the style wants it, a single space otherwise.
pub fn floor_to_doc(floor: Floor, wish: Wish) -> (d: Doc)
    ensures
        floor == Floor::Nothing && wish == Wish::Abut ==> (d matches Doc::Concat(v) && v@.len()
            == 0),
        !(floor == Floor::Nothing && wish == Wish::Abut) ==> (d matches Doc::Text(s) && s@
            == seq![' ']),
{
    match (floor, wish) {
        (Floor::Nothing, Wish::Abut) => nothing(),
        _ => space(),
    }
}

} // verus!

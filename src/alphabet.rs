use vstd::prelude::*;

verus! {

/// A symbol set that words of an L-system are made of: symbols can be
/// compared, and some of them open or close a branch, which is transparent
/// when a rule looks for its context.
pub trait Alphabet: Copy + PartialEq + Sized {
    /// Whether the symbol opens or closes a branch.
    spec fn is_branch(&self) -> bool;

    /// Whether the symbol opens or closes a branch.
    fn is_bracket(&self) -> (r: bool)
        ensures
            r == self.is_branch(),
    ;

    /// Whether two symbols are the same.
    fn same(&self, other: &Self) -> (r: bool)
        ensures
            r == (*self == *other),
    ;
}

/// The symbols of the notation: turtle commands, branch and polygon markers,
/// and external symbols tagged by a single letter.
#[derive(Debug, Clone, Copy, PartialEq, Eq, Structural)]
pub enum Token {
    /// Move forward and draw.
    F,
    /// Turn left (`+`).
    Left,
    /// Turn right (`-`).
    Right,
    /// Pitch up (`&`).
    Up,
    /// Pitch down (`^`).
    Down,
    /// Start a branch (`[`).
    Push,
    /// End a branch (`]`).
    Pop,
    /// Turn around (`$`).
    Rotate,
    /// Start a polygon (`{`).
    StartPolygon,
    /// End a polygon (`}`).
    EndPolygon,
    /// Record a polygon vertex (`.`).
    PolygonVertex,
    /// Roll counter-clockwise (`\`).
    CounterRoll,
    /// Roll clockwise (`/`).
    Roll,
    /// A symbol of the caller's own, named by a letter.
    External(char),
}

impl Alphabet for Token {
    open spec fn is_branch(&self) -> bool {
        *self == Token::Push || *self == Token::Pop
    }

    fn is_bracket(&self) -> (r: bool) {
        match self {
            Token::Push | Token::Pop => true,
            _ => false,
        }
    }

    fn same(&self, other: &Self) -> (r: bool) {
        *self == *other
    }
}

} // verus!

//! One cell of the grid, and the one-token text codec for it.

use vstd::prelude::*;

verus! {

/// The byte that stands for an empty cell: `_`.
pub const PLACEHOLDER: u8 = 95;

/// The byte for the smallest value symbol: `1`.
pub const FIRST_SYMBOL: u8 = 49;

/// One cell: empty, or filled with a value in `0..9`. A filled cell
/// remembers whether the value was part of the starting grid (`given`)
/// or placed by the search.
#[derive(Clone, Copy, Debug)]
pub enum Digit {
    Empty,
    Filled { given: bool, value: u8 },
}

/// A filled digit carries a value below nine.
pub open spec fn digit_valid(d: Digit) -> bool {
    d matches Digit::Filled { value, .. } ==> value < 9
}

/// The value a digit carries, with the `given` flag forgotten.
pub open spec fn digit_val(d: Digit) -> Option<int> {
    match d {
        Digit::Empty => None,
        Digit::Filled { value, .. } => Some(value as int),
    }
}

impl PartialEq for Digit {
    /// Digits compare by value alone; the `given` flag is excluded.
    fn eq(&self, other: &Self) -> (r: bool) {
        match (self, other) {
            (Digit::Empty, Digit::Empty) => true,
            (Digit::Filled { value: a, .. }, Digit::Filled { value: b, .. }) => a == b,
            _ => false,
        }
    }
}

impl vstd::std_specs::cmp::PartialEqSpecImpl for Digit {
    open spec fn obeys_eq_spec() -> bool {
        true
    }

    open spec fn eq_spec(&self, other: &Self) -> bool {
        digit_val(*self) == digit_val(*other)
    }
}

/// The failure of decoding one token.
#[derive(Clone, Copy, Debug)]
pub enum ParseDigitError {
    /// The token is neither the placeholder nor a value symbol.
    Unknown,
}

/// What decoding one token yields: the placeholder gives an empty cell,
/// a value symbol gives a given digit, anything else is no digit.
pub open spec fn spec_token(tok: Seq<u8>) -> Option<Digit> {
    if tok.len() == 1 {
        let b = tok[0];
        if b == PLACEHOLDER {
            Some(Digit::Empty)
        } else if FIRST_SYMBOL <= b && b <= FIRST_SYMBOL + 8 {
            Some(Digit::Filled { given: true, value: (b - FIRST_SYMBOL) as u8 })
        } else {
            None
        }
    } else {
        None
    }
}

/// The byte that renders a digit: the placeholder, or its value symbol.
pub open spec fn spec_symbol(d: Digit) -> u8 {
    match d {
        Digit::Empty => PLACEHOLDER,
        Digit::Filled { value, .. } => (FIRST_SYMBOL + value) as u8,
    }
}

/// Decodes one token.
pub fn parse_token(tok: &Vec<u8>) -> (r: Result<Digit, ParseDigitError>)
    ensures
        spec_token(tok@) matches Some(d) ==> r == Ok::<Digit, ParseDigitError>(d),
        spec_token(tok@) is None ==> r == Err::<Digit, ParseDigitError>(ParseDigitError::Unknown),
{
    if tok.len() != 1 {
        return Err(ParseDigitError::Unknown);
    }
    let b = tok[0];
    if b == PLACEHOLDER {
        Ok(Digit::Empty)
    } else if FIRST_SYMBOL <= b && b <= FIRST_SYMBOL + 8 {
        Ok(Digit::Filled { given: true, value: b - FIRST_SYMBOL })
    } else {
        Err(ParseDigitError::Unknown)
    }
}

/// Renders one digit as its token byte.
pub fn render_token(d: Digit) -> (r: u8)
    requires
        digit_valid(d),
    ensures
        r == spec_symbol(d),
{
    match d {
        Digit::Empty => PLACEHOLDER,
        Digit::Filled { value, .. } => FIRST_SYMBOL + value,
    }
}

/// A decoded token, fed back to the renderer, gives its byte back; so the
/// token codec round-trips at the level of single cells.
pub proof fn lemma_token_round_trip(b: u8)
    requires
        spec_token(seq![b]) is Some,
    ensures
        spec_symbol(spec_token(seq![b])->Some_0) == b,
        digit_valid(spec_token(seq![b])->Some_0),
{
}

} // verus!

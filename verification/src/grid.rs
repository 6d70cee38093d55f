//! The 9x9 matrix of digits, its mathematical model, and the text codec.

use vstd::prelude::*;
use crate::cursor::house_of;
use crate::digit::Digit;
use crate::digit::ParseDigitError;
use crate::digit::digit_val;
use crate::digit::digit_valid;
use crate::digit::parse_token;
use crate::digit::render_token;
use crate::digit::spec_symbol;
use crate::digit::spec_token;

verus! {

/// The byte that separates tokens: `,`.
pub const SEPARATOR: u8 = 44;

/// The byte that joins rows: a newline.
pub const ROW_BREAK: u8 = 10;

/// The 81 cells of the puzzle, in row-major order.
#[derive(Clone, Copy, Debug)]
pub struct Grid {
    pub cells: [Digit; 81],
}

/// The value in a cell, with the `given` flag forgotten.
pub open spec fn val_at(g: Grid, i: int) -> Option<int> {
    digit_val(g.cells[i])
}

/// Whether a cell is filled.
pub open spec fn cell_filled(g: Grid, i: int) -> bool {
    g.cells[i] is Filled
}

/// The value of a cell that came with the starting grid, if any.
pub open spec fn given_val(g: Grid, i: int) -> Option<int> {
    match g.cells[i] {
        Digit::Filled { given: true, value } => Some(value as int),
        _ => None,
    }
}

/// Two grids carry the same given cells with the same values.
pub open spec fn same_givens(a: Grid, b: Grid) -> bool {
    forall|i: int| 0 <= i < 81 ==> given_val(a, i) == given_val(b, i)
}

/// Every filled cell holds a value below nine.
pub open spec fn grid_wf(g: Grid) -> bool {
    forall|i: int| 0 <= i < 81 ==> digit_valid(#[trigger] g.cells[i])
}

/// Every cell is filled.
pub open spec fn grid_full(g: Grid) -> bool {
    forall|i: int| 0 <= i < 81 ==> cell_filled(g, i)
}

/// No two filled cells of one house carry the same value.
pub open spec fn grid_ok(g: Grid) -> bool {
    forall|k: int, i: int, j: int|
        #![trigger house_of(k, i), house_of(k, j), val_at(g, i), val_at(g, j)]
        0 <= k < 3 && 0 <= i < 81 && 0 <= j < 81 && i != j && house_of(k, i) == house_of(k, j)
            && cell_filled(g, i) && cell_filled(g, j) ==> val_at(g, i) != val_at(g, j)
}

/// Every filled cell is a given one, as in a freshly decoded grid.
pub open spec fn all_filled_given(g: Grid) -> bool {
    forall|i: int| 0 <= i < 81 && cell_filled(g, i) ==> given_val(g, i) == val_at(g, i)
}

/// One grid fills every cell that another fills, with the same value.
pub open spec fn extends(g: Grid, start: Grid) -> bool {
    forall|i: int| 0 <= i < 81 && cell_filled(start, i) ==> val_at(g, i) == val_at(start, i)
        && cell_filled(g, i)
}

/// A complete, conflict-free completion of a starting grid.
pub open spec fn is_solution(g: Grid, start: Grid) -> bool {
    grid_full(g) && grid_ok(g) && extends(g, start)
}

/// The failure of decoding a grid.
#[derive(Clone, Copy, Debug)]
pub enum ParseGridError {
    /// A token was no digit.
    ParseDigit(ParseDigitError),
    /// The text held a number of tokens other than 81.
    InvalidDigitCount,
}

/// What decoding yields once the input is exhausted: a trailing token is
/// taken first, then the count of cells must be exactly 81.
pub open spec fn spec_decode_finish(tok: Seq<u8>, acc: Seq<Digit>) -> Result<
    Seq<Digit>,
    ParseGridError,
> {
    if tok.len() == 0 {
        if acc.len() == 81 {
            Ok(acc)
        } else {
            Err(ParseGridError::InvalidDigitCount)
        }
    } else if acc.len() >= 81 {
        Err(ParseGridError::InvalidDigitCount)
    } else {
        match spec_token(tok) {
            None => Err(ParseGridError::ParseDigit(ParseDigitError::Unknown)),
            Some(d) => {
                if acc.len() + 1 == 81 {
                    Ok(acc.push(d))
                } else {
                    Err(ParseGridError::InvalidDigitCount)
                }
            },
        }
    }
}

/// One pass over the remaining bytes: row breaks are stepped over, the
/// separator closes the pending token, and any other byte extends it.
pub open spec fn spec_decode_from(s: Seq<u8>, tok: Seq<u8>, acc: Seq<Digit>) -> Result<
    Seq<Digit>,
    ParseGridError,
>
    decreases s.len(),
{
    if s.len() == 0 {
        spec_decode_finish(tok, acc)
    } else if s[0] == ROW_BREAK {
        spec_decode_from(s.drop_first(), tok, acc)
    } else if s[0] == SEPARATOR {
        if acc.len() >= 81 {
            Err(ParseGridError::InvalidDigitCount)
        } else {
            match spec_token(tok) {
                None => Err(ParseGridError::ParseDigit(ParseDigitError::Unknown)),
                Some(d) => spec_decode_from(s.drop_first(), Seq::empty(), acc.push(d)),
            }
        }
    } else {
        spec_decode_from(s.drop_first(), tok.push(s[0]), acc)
    }
}

/// What decoding a full text yields.
pub open spec fn spec_decode(s: Seq<u8>) -> Result<Seq<Digit>, ParseGridError> {
    spec_decode_from(s, Seq::empty(), Seq::empty())
}

/// The bytes that render the cells from one position on: each cell's
/// symbol followed by the separator, with a row break before each row
/// after the first.
pub open spec fn spec_render_from(cells: Seq<Digit>, i: int) -> Seq<u8>
    decreases 81 - i,
{
    if 0 <= i < 81 {
        let lead: Seq<u8> = if i % 9 == 0 && i > 0 {
            seq![ROW_BREAK]
        } else {
            Seq::empty()
        };
        lead + seq![spec_symbol(cells[i]), SEPARATOR] + spec_render_from(cells, i + 1)
    } else {
        Seq::empty()
    }
}

/// The bytes that render a whole grid.
pub open spec fn spec_render(cells: Seq<Digit>) -> Seq<u8> {
    spec_render_from(cells, 0)
}

impl Grid {
    /// Decodes a grid from its encoded text, given as bytes: exactly 81
    /// tokens, each the placeholder or a value symbol, separated by the
    /// separator byte, with row breaks ignored.
    pub fn decode(text: &[u8]) -> (r: Result<Grid, ParseGridError>)
        ensures
            r matches Ok(g) ==> spec_decode(text@) == Ok::<Seq<Digit>, ParseGridError>(g.cells@)
                && grid_wf(g) && all_filled_given(g),
            r matches Err(e) ==> spec_decode(text@) == Err::<Seq<Digit>, ParseGridError>(e),
    {
        let mut cells: [Digit; 81] = [Digit::Empty; 81];
        let mut count: usize = 0;
        let mut tok: Vec<u8> = Vec::new();
        let mut i: usize = 0;
        proof {
            assert(text@.skip(0) =~= text@);
            assert(cells@.subrange(0, 0) =~= Seq::<Digit>::empty());
        }
        while i < text.len()
            invariant
                i <= text@.len(),
                count <= 81,
                spec_decode(text@) == spec_decode_from(
                    text@.skip(i as int),
                    tok@,
                    cells@.subrange(0, count as int),
                ),
                forall|j: int| 0 <= j < count ==> digit_valid(#[trigger] cells[j]),
                forall|j: int|
                    0 <= j < count ==> (#[trigger] cells[j] matches Digit::Filled {
                        given,
                        ..
                    } ==> given),
            decreases text@.len() - i,
        {
            let b = text[i];
            let ghost rest = text@.skip(i as int);
            let ghost tok0 = tok@;
            let ghost acc0 = cells@.subrange(0, count as int);
            proof {
                assert(rest[0] == text@[i as int]);
                assert(rest.drop_first() =~= text@.skip(i as int + 1));
            }
            if b == ROW_BREAK {
                proof {
                    assert(spec_decode_from(rest, tok0, acc0) == spec_decode_from(
                        rest.drop_first(),
                        tok0,
                        acc0,
                    ));
                }
            } else if b == SEPARATOR {
                if count >= 81 {
                    proof {
                        assert(spec_decode_from(rest, tok0, acc0) == Err::<
                            Seq<Digit>,
                            ParseGridError,
                        >(ParseGridError::InvalidDigitCount));
                    }
                    return Err(ParseGridError::InvalidDigitCount);
                }
                match parse_token(&tok) {
                    Err(_) => {
                        proof {
                            assert(spec_token(tok0) is None);
                            assert(spec_decode_from(rest, tok0, acc0) == Err::<
                                Seq<Digit>,
                                ParseGridError,
                            >(ParseGridError::ParseDigit(ParseDigitError::Unknown)));
                        }
                        return Err(ParseGridError::ParseDigit(ParseDigitError::Unknown));
                    },
                    Ok(d) => {
                        proof {
                            assert(spec_token(tok0) == Some(d));
                            assert(spec_decode_from(rest, tok0, acc0) == spec_decode_from(
                                rest.drop_first(),
                                Seq::empty(),
                                acc0.push(d),
                            ));
                        }
                        cells[count] = d;
                        count = count + 1;
                        tok.clear();
                        proof {
                            assert(cells@.subrange(0, count as int) =~= acc0.push(d));
                        }
                    },
                }
            } else {
                tok.push(b);
                proof {
                    assert(tok@ =~= tok0.push(b));
                    assert(spec_decode_from(rest, tok0, acc0) == spec_decode_from(
                        rest.drop_first(),
                        tok0.push(b),
                        acc0,
                    ));
                }
            }
            i = i + 1;
        }
        let ghost tok0 = tok@;
        let ghost acc0 = cells@.subrange(0, count as int);
        proof {
            assert(text@.skip(i as int) =~= Seq::<u8>::empty());
            assert(spec_decode(text@) == spec_decode_finish(tok0, acc0));
        }
        if tok.len() > 0 {
            if count >= 81 {
                return Err(ParseGridError::InvalidDigitCount);
            }
            match parse_token(&tok) {
                Err(_) => {
                    proof {
                        assert(spec_token(tok0) is None);
                    }
                    return Err(ParseGridError::ParseDigit(ParseDigitError::Unknown));
                },
                Ok(d) => {
                    proof {
                        assert(spec_token(tok0) == Some(d));
                    }
                    cells[count] = d;
                    count = count + 1;
                    proof {
                        assert(cells@.subrange(0, count as int) =~= acc0.push(d));
                    }
                    if count == 81 {
                        proof {
                            assert(cells@.subrange(0, 81) =~= cells@);
                        }
                        return Ok(Grid { cells });
                    }
                    return Err(ParseGridError::InvalidDigitCount);
                },
            }
        }
        if count == 81 {
            proof {
                assert(cells@.subrange(0, 81) =~= cells@);
            }
            Ok(Grid { cells })
        } else {
            Err(ParseGridError::InvalidDigitCount)
        }
    }

    /// Renders the grid: one line per row, each cell followed by the
    /// separator, rows joined by row breaks.
    pub fn render(&self) -> (r: Vec<u8>)
        requires
            grid_wf(*self),
        ensures
            r@ == spec_render(self.cells@),
    {
        let mut out: Vec<u8> = Vec::new();
        let mut i: usize = 0;
        while i < 81
            invariant
                i <= 81,
                grid_wf(*self),
                spec_render(self.cells@) =~= out@ + spec_render_from(self.cells@, i as int),
            decreases 81 - i,
        {
            if i % 9 == 0 && i > 0 {
                out.push(ROW_BREAK);
            }
            let b = render_token(self.cells[i]);
            out.push(b);
            out.push(SEPARATOR);
            i = i + 1;
            proof {
                assert(spec_render(self.cells@) =~= out@ + spec_render_from(
                    self.cells@,
                    i as int,
                ));
            }
        }
        proof {
            assert(spec_render(self.cells@) =~= out@);
        }
        out
    }
}

/// A digit as decoding re-creates it: the same value, marked as given.
pub open spec fn regiven(d: Digit) -> Digit {
    match d {
        Digit::Empty => Digit::Empty,
        Digit::Filled { value, .. } => Digit::Filled { given: true, value },
    }
}

proof fn lemma_round_trip_from(cells: Seq<Digit>, acc: Seq<Digit>, i: int)
    requires
        cells.len() == 81,
        0 <= i <= 81,
        acc.len() == i,
        forall|j: int| 0 <= j < 81 ==> digit_valid(#[trigger] cells[j]),
    ensures
        spec_decode_from(spec_render_from(cells, i), Seq::empty(), acc) == Ok::<
            Seq<Digit>,
            ParseGridError,
        >(acc + cells.subrange(i, 81).map_values(|d: Digit| regiven(d))),
    decreases 81 - i,
{
    if i >= 81 {
        assert(spec_render_from(cells, i) =~= Seq::<u8>::empty());
        assert(acc + cells.subrange(81, 81).map_values(|d: Digit| regiven(d)) =~= acc);
    } else {
        let sym = spec_symbol(cells[i]);
        let restb = spec_render_from(cells, i + 1);
        let s1 = seq![sym, SEPARATOR] + restb;
        let s0 = spec_render_from(cells, i);
        assert(digit_valid(cells[i]));
        assert(sym != ROW_BREAK && sym != SEPARATOR);
        assert(spec_token(seq![sym]) == Some(regiven(cells[i])));
        if i % 9 == 0 && i > 0 {
            assert(s0 =~= seq![ROW_BREAK] + s1);
            assert(s0[0] == ROW_BREAK);
            assert(s0.drop_first() =~= s1);
            assert(spec_decode_from(s0, Seq::empty(), acc) == spec_decode_from(
                s1,
                Seq::empty(),
                acc,
            ));
        } else {
            assert(s0 =~= s1);
        }
        assert(s1[0] == sym);
        assert(s1.drop_first() =~= seq![SEPARATOR] + restb);
        assert(Seq::<u8>::empty().push(sym) =~= seq![sym]);
        assert(spec_decode_from(s1, Seq::empty(), acc) == spec_decode_from(
            seq![SEPARATOR] + restb,
            seq![sym],
            acc,
        ));
        let s2 = seq![SEPARATOR] + restb;
        assert(s2[0] == SEPARATOR);
        assert(s2.drop_first() =~= restb);
        let acc1 = acc.push(regiven(cells[i]));
        assert(spec_decode_from(s2, seq![sym], acc) == spec_decode_from(
            restb,
            Seq::empty(),
            acc1,
        ));
        lemma_round_trip_from(cells, acc1, i + 1);
        assert(acc1 + cells.subrange(i + 1, 81).map_values(|d: Digit| regiven(d)) =~= acc
            + cells.subrange(i, 81).map_values(|d: Digit| regiven(d)));
    }
}

/// Round trip: decoding the rendering of a well-formed grid succeeds and
/// yields the same cells under value-only equality.
pub proof fn lemma_render_decode_round_trip(g: Grid)
    requires
        grid_wf(g),
    ensures
        spec_decode(spec_render(g.cells@)) matches Ok(cs) && cs.len() == 81 && forall|i: int|
            0 <= i < 81 ==> digit_val(#[trigger] cs[i]) == val_at(g, i),
{
    lemma_round_trip_from(g.cells@, Seq::empty(), 0);
    let f = |d: Digit| regiven(d);
    assert(Seq::<Digit>::empty() + g.cells@.subrange(0, 81).map_values(f) =~= g.cells@.map_values(
        f,
    ));
    let cs = g.cells@.map_values(f);
    assert forall|i: int| 0 <= i < 81 implies digit_val(#[trigger] cs[i]) == val_at(g, i) by {
        assert(cs[i] == regiven(g.cells@[i]));
    }
}

/// A complete, conflict-free grid that keeps the given cells of a
/// starting grid whose filled cells are all given — what the solver
/// emits — is a solution of that starting grid.
pub proof fn lemma_emission_is_solution(g: Grid, start: Grid)
    requires
        all_filled_given(start),
        grid_full(g),
        grid_ok(g),
        same_givens(g, start),
    ensures
        is_solution(g, start),
{
    assert forall|i: int| 0 <= i < 81 && cell_filled(start, i) implies val_at(g, i) == val_at(
        start,
        i,
    ) && cell_filled(g, i) by {
        assert(given_val(start, i) == val_at(start, i));
        assert(given_val(g, i) == given_val(start, i));
    }
}

impl PartialEq for Grid {
    /// Grids compare cell by cell, by value alone.
    fn eq(&self, other: &Self) -> (r: bool) {
        let mut i: usize = 0;
        while i < 81
            invariant
                i <= 81,
                forall|j: int| 0 <= j < i ==> val_at(*self, j) == val_at(*other, j),
            decreases 81 - i,
        {
            if self.cells[i] != other.cells[i] {
                proof {
                    assert(val_at(*self, i as int) != val_at(*other, i as int));
                }
                return false;
            }
            i = i + 1;
        }
        true
    }
}

impl vstd::std_specs::cmp::PartialEqSpecImpl for Grid {
    open spec fn obeys_eq_spec() -> bool {
        true
    }

    open spec fn eq_spec(&self, other: &Self) -> bool {
        forall|i: int| 0 <= i < 81 ==> val_at(*self, i) == val_at(*other, i)
    }
}

impl core::str::FromStr for Grid {
    type Err = ParseGridError;

    fn from_str(s: &str) -> Result<Self, Self::Err> {
        Grid::decode(s.as_bytes())
    }
}

} // verus!

//! The grid model: a validated 9x9 grid and its textual form.
//!
//! A grid is written as 81 characters, row after row: `1`..`9` for a given
//! digit and the blank marker for an empty cell.

use vstd::prelude::*;
use vstd::string::*;
use crate::rules::{complete, consistent, well_formed};
use crate::topology::{are_peers, lemma_peer_is_enumerated, peer, peer_at};

verus! {

/// The character that stands for an empty cell.
pub const BLANK: char = '.';

/// Why a text is not a puzzle.
#[derive(Clone, Copy, Debug, PartialEq, Eq, Structural)]
pub enum GridError {
    /// The text is not 81 recognized characters.
    InvalidFormat,
    /// A digit stands twice in a row, a column or a box.
    InvalidPuzzle,
}

/// The cell value that a character stands for, if it is recognized.
pub open spec fn symbol_value(c: char) -> Option<u8> {
    if c == '.' {
        Some(0u8)
    } else if '1' <= c <= '9' {
        Some((c as int - '0' as int) as u8)
    } else {
        None
    }
}

/// The character that stands for a cell value.
pub open spec fn symbol_of(v: u8) -> char {
    if 1 <= v <= 9 {
        (v + 48) as char
    } else {
        '.'
    }
}

/// The text has 81 characters and each of them is recognized.
pub open spec fn recognized(text: Seq<char>) -> bool {
    &&& text.len() == 81
    &&& forall|i: int| 0 <= i < 81 ==> symbol_value(#[trigger] text[i]) is Some
}

/// The cell values that a recognized text stands for.
pub open spec fn decode(text: Seq<char>) -> Seq<u8> {
    Seq::new(81, |i: int| symbol_value(text[i]).unwrap())
}

/// The text that stands for a sequence of cell values.
pub open spec fn encode(cells: Seq<u8>) -> Seq<char> {
    Seq::new(cells.len(), |i: int| symbol_of(cells[i]))
}

/// What parsing a text gives: the format is checked first, then the rules.
pub open spec fn parse_spec(text: Seq<char>) -> Result<Seq<u8>, GridError> {
    if !recognized(text) {
        Err(GridError::InvalidFormat)
    } else if !consistent(decode(text)) {
        Err(GridError::InvalidPuzzle)
    } else {
        Ok(decode(text))
    }
}

/// A well-formed grid whose given digits do not clash.
#[derive(Debug, PartialEq, Eq)]
pub struct Grid {
    cells: Vec<u8>,
}

impl View for Grid {
    type V = Seq<u8>;

    closed spec fn view(&self) -> Seq<u8> {
        self.cells@
    }
}

impl Clone for Grid {
    fn clone(&self) -> (g: Self)
        ensures
            g@ == self@,
    {
        proof {
            use_type_invariant(self);
        }
        let cells = self.cells.clone();
        assert(cells@ =~= self.cells@);
        Grid { cells }
    }
}

fn value_of(c: char) -> (r: Option<u8>)
    ensures
        r == symbol_value(c),
{
    if c == BLANK {
        Some(0)
    } else if c >= '1' && c <= '9' {
        Some((c as u32 - '0' as u32) as u8)
    } else {
        None
    }
}

fn symbol_text(v: u8) -> (t: &'static str)
    ensures
        t@ == seq![symbol_of(v)],
{
    proof {
        reveal_strlit("1");
        reveal_strlit("2");
        reveal_strlit("3");
        reveal_strlit("4");
        reveal_strlit("5");
        reveal_strlit("6");
        reveal_strlit("7");
        reveal_strlit("8");
        reveal_strlit("9");
        reveal_strlit(".");
    }
    let t = if v == 1 {
        "1"
    } else if v == 2 {
        "2"
    } else if v == 3 {
        "3"
    } else if v == 4 {
        "4"
    } else if v == 5 {
        "5"
    } else if v == 6 {
        "6"
    } else if v == 7 {
        "7"
    } else if v == 8 {
        "8"
    } else if v == 9 {
        "9"
    } else {
        "."
    };
    assert(t@ =~= seq![symbol_of(v)]);
    t
}

/// Whether no digit of `cells` stands twice among peers.
pub fn is_consistent(cells: &Vec<u8>) -> (ok: bool)
    requires
        cells@.len() == 81,
    ensures
        ok == consistent(cells@),
{
    let mut i: usize = 0;
    while i < 81
        invariant
            i <= 81,
            cells@.len() == 81,
            forall|a: int, b: int|
                #[trigger] are_peers(a, b) && a < i && cells@[a] != 0 ==> cells@[a] != cells@[b],
        decreases 81 - i,
    {
        let v = cells[i];
        if v != 0 {
            let mut k: usize = 0;
            while k < 20
                invariant
                    i < 81,
                    k <= 20,
                    cells@.len() == 81,
                    v == cells@[i as int],
                    v != 0,
                    forall|n: int| 0 <= n < k ==> cells@[peer_at(i as int, n)] != v,
                decreases 20 - k,
            {
                let p = peer(i, k);
                if cells[p] == v {
                    assert(are_peers(i as int, p as int) && cells@[i as int] == cells@[p as int]);
                    return false;
                }
                k = k + 1;
            }
            proof {
                assert forall|b: int| #[trigger] are_peers(i as int, b) implies cells@[b] != v by {
                    lemma_peer_is_enumerated(i as int, b);
                }
            }
        }
        i = i + 1;
    }
    true
}

impl Grid {
    #[verifier::type_invariant]
    spec fn valid(self) -> bool {
        well_formed(self.cells@) && consistent(self.cells@)
    }

    /// Reads a grid from its text.
    ///
    /// Fails with `InvalidFormat` unless the text is 81 recognized
    /// characters, and with `InvalidPuzzle` if two given digits clash.
    pub fn parse(input: &str) -> (r: Result<Grid, GridError>)
        ensures
            match r {
                Ok(g) => parse_spec(input@) == Ok::<Seq<u8>, GridError>(g@),
                Err(e) => parse_spec(input@) == Err::<Seq<u8>, GridError>(e),
            },
            r is Ok ==> well_formed(r->Ok_0@) && consistent(r->Ok_0@),
    {
        if input.unicode_len() != 81 {
            return Err(GridError::InvalidFormat);
        }
        let mut cells: Vec<u8> = Vec::new();
        let mut i: usize = 0;
        while i < 81
            invariant
                i <= 81,
                input@.len() == 81,
                cells@.len() == i,
                forall|k: int| 0 <= k < i ==> symbol_value(input@[k]) == Some(#[trigger] cells@[k]),
            decreases 81 - i,
        {
            match value_of(input.get_char(i)) {
                Some(v) => {
                    cells.push(v);
                },
                None => {
                    return Err(GridError::InvalidFormat);
                },
            }
            i = i + 1;
        }
        proof {
            assert forall|k: int| 0 <= k < 81 implies symbol_value(#[trigger] input@[k]) is Some by {
                assert(symbol_value(input@[k]) == Some(cells@[k]));
            }
            assert(cells@ =~= decode(input@));
        }
        if !is_consistent(&cells) {
            return Err(GridError::InvalidPuzzle);
        }
        Ok(Grid { cells })
    }

    /// Writes the grid as its text of 81 characters.
    pub fn serialize(&self) -> (text: String)
        ensures
            text@ == encode(self@),
    {
        proof {
            use_type_invariant(self);
        }
        let mut text = String::new();
        let mut i: usize = 0;
        while i < 81
            invariant
                i <= 81,
                self.cells@.len() == 81,
                text@ == Seq::new(i as nat, |k: int| symbol_of(self.cells@[k])),
            decreases 81 - i,
        {
            text.append(symbol_text(self.cells[i]));
            i = i + 1;
        }
        text
    }

    /// The cell values, with what every grid guarantees of them.
    pub fn cells(&self) -> (cells: &Vec<u8>)
        ensures
            cells@ == self@,
            well_formed(self@),
            consistent(self@),
    {
        proof {
            use_type_invariant(self);
        }
        &self.cells
    }

    /// The value of cell `index`: 0 if it is empty, else its digit.
    pub fn get(&self, index: usize) -> (v: u8)
        requires
            index < 81,
        ensures
            v == self@[index as int],
            v <= 9,
    {
        proof {
            use_type_invariant(self);
        }
        self.cells[index]
    }

    /// Whether every cell holds a digit.
    pub fn is_complete(&self) -> (b: bool)
        ensures
            b == complete(self@),
    {
        proof {
            use_type_invariant(self);
        }
        let mut i: usize = 0;
        while i < 81
            invariant
                i <= 81,
                self.cells@.len() == 81,
                forall|k: int| 0 <= k < i ==> #[trigger] self.cells@[k] != 0,
            decreases 81 - i,
        {
            if self.cells[i] == 0 {
                return false;
            }
            i = i + 1;
        }
        true
    }

    /// Makes a grid of cell values that are known to be valid.
    pub(crate) fn from_cells(cells: Vec<u8>) -> (g: Grid)
        requires
            well_formed(cells@),
            consistent(cells@),
        ensures
            g@ == cells@,
    {
        Grid { cells }
    }
}

/// What parses is a well-formed grid whose digits do not clash.
pub proof fn lemma_parsed_is_valid(text: Seq<char>)
    requires
        parse_spec(text) is Ok,
    ensures
        well_formed(parse_spec(text)->Ok_0),
        consistent(parse_spec(text)->Ok_0),
{
    let cells = decode(text);
    assert forall|i: int| 0 <= i < 81 implies #[trigger] cells[i] <= 9 by {
        assert(symbol_value(text[i]) is Some);
    }
}

/// Reading back what was written gives the same text: whatever parses, its
/// grid is written as exactly that text.
pub proof fn law_text_round_trip(text: Seq<char>)
    requires
        parse_spec(text) is Ok,
    ensures
        encode(parse_spec(text)->Ok_0) == text,
{
    let cells = decode(text);
    assert forall|i: int| 0 <= i < 81 implies symbol_of(cells[i]) == text[i] by {
        assert(symbol_value(text[i]) is Some);
    }
    assert(encode(cells) =~= text);
}

/// Writing and reading back gives the same grid: the text of a valid grid
/// parses, to that grid.
pub proof fn law_grid_round_trip(cells: Seq<u8>)
    requires
        well_formed(cells),
        consistent(cells),
    ensures
        parse_spec(encode(cells)) == Ok::<Seq<u8>, GridError>(cells),
{
    let text = encode(cells);
    assert forall|i: int| 0 <= i < 81 implies symbol_value(#[trigger] text[i]) == Some(
        cells[i],
    ) by {
        assert(cells[i] <= 9);
    }
    assert(decode(text) =~= cells);
}

/// A text of another length than 81, or with a character that is neither a
/// digit 1..=9 nor the blank marker, is rejected for its format.
pub proof fn law_malformed_text_rejected(text: Seq<char>)
    requires
        text.len() != 81 || exists|i: int| 0 <= i < 81 && symbol_value(#[trigger] text[i]) is None,
    ensures
        parse_spec(text) == Err::<Seq<u8>, GridError>(GridError::InvalidFormat),
{
}

} // verus!

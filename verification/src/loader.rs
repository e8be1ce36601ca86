//! The text form of a grid: one row per line, the rewards of a row as
//! decimal numbers separated by blanks.
//!
//! A line ends with a line feed; the last line may do without. Blanks are
//! the space, the tab and the carriage return; any number of them may
//! separate two rewards or stand at either end of a line. A grid has as many
//! rows as each row has rewards.

use crate::grid::{is_square, Graph, Rewards};
use vstd::prelude::*;

verus! {

/// Why a text is not the text form of a grid.
#[derive(Debug, Clone, Copy, PartialEq, Eq)]
pub enum GridError {
    /// A byte that is neither a digit nor a blank nor a line feed.
    InvalidByte,
    /// A number greater than `u32::MAX`.
    NumberTooLarge,
    /// The rows do not form a square.
    NotSquare,
}

/// How far the reading of a text has come.
pub struct ScanState {
    /// The rows that have ended.
    pub rows: Seq<Seq<u32>>,
    /// The rewards of the row that is being read.
    pub row: Seq<u32>,
    /// The number that is being read, if the last byte was a digit.
    pub number: Option<u32>,
    /// The first fault, if there was one.
    pub fault: Option<GridError>,
}

/// The state before the first byte.
pub open spec fn scan_start() -> ScanState {
    ScanState { rows: Seq::empty(), row: Seq::empty(), number: None, fault: None }
}

/// `b` is one of the digits `0` to `9`.
pub open spec fn is_digit(b: u8) -> bool {
    48 <= b <= 57
}

/// `b` is a space, a tab or a carriage return.
pub open spec fn is_blank(b: u8) -> bool {
    b == 32 || b == 9 || b == 13
}

/// `b` ends a line.
pub open spec fn is_line_feed(b: u8) -> bool {
    b == 10
}

/// The row that is being read, with the number that is being read at its
/// end.
pub open spec fn row_so_far(s: ScanState) -> Seq<u32> {
    match s.number {
        Some(v) => s.row.push(v),
        None => s.row,
    }
}

/// The state after one more byte.
pub open spec fn scan_byte(s: ScanState, b: u8) -> ScanState {
    if s.fault is Some {
        s
    } else if is_digit(b) {
        let v = match s.number {
            Some(v) => v * 10 + (b - 48),
            None => b - 48,
        };
        if v > u32::MAX {
            ScanState { fault: Some(GridError::NumberTooLarge), ..s }
        } else {
            ScanState { number: Some(v as u32), ..s }
        }
    } else if is_blank(b) {
        ScanState { row: row_so_far(s), number: None, ..s }
    } else if is_line_feed(b) {
        ScanState { rows: s.rows.push(row_so_far(s)), row: Seq::empty(), number: None, ..s }
    } else {
        ScanState { fault: Some(GridError::InvalidByte), ..s }
    }
}

/// The state after the bytes `text`, read from the state `s`.
pub open spec fn scan(s: ScanState, text: Seq<u8>) -> ScanState
    decreases text.len(),
{
    if text.len() == 0 {
        s
    } else {
        scan_byte(scan(s, text.drop_last()), text.last())
    }
}

/// The rows read when the text ends in the state `s`: a last line without a
/// line feed counts if it holds a reward.
pub open spec fn rows_at_end(s: ScanState) -> Seq<Seq<u32>> {
    if row_so_far(s).len() > 0 {
        s.rows.push(row_so_far(s))
    } else {
        s.rows
    }
}

/// The grid that `text` is the text form of, or the reason why it is none.
pub open spec fn parse_grid(text: Seq<u8>) -> Result<Rewards, GridError> {
    let s = scan(scan_start(), text);
    match s.fault {
        Some(e) => Err(e),
        None => if is_square(rows_at_end(s), rows_at_end(s).len()) {
            Ok(rows_at_end(s))
        } else {
            Err(GridError::NotSquare)
        },
    }
}

/// The decimal digits of `v`.
pub open spec fn digits(v: nat) -> Seq<u8>
    decreases v,
{
    if v < 10 {
        seq![(48 + v) as u8]
    } else {
        digits(v / 10).push((48 + v % 10) as u8)
    }
}

/// The text of one row: its rewards in decimal, separated by one space.
pub open spec fn render_row(row: Seq<u32>) -> Seq<u8>
    decreases row.len(),
{
    if row.len() == 0 {
        Seq::empty()
    } else if row.len() == 1 {
        digits(row[0] as nat)
    } else {
        render_row(row.drop_last()).push(32u8) + digits(row.last() as nat)
    }
}

/// The text form of a grid: each row, followed by a line feed.
pub open spec fn render(g: Rewards) -> Seq<u8>
    decreases g.len(),
{
    if g.len() == 0 {
        Seq::empty()
    } else {
        render(g.drop_last()) + render_row(g.last()).push(10u8)
    }
}

/// Reading two texts one after the other is reading them joined.
pub proof fn lemma_scan_concat(s: ScanState, a: Seq<u8>, b: Seq<u8>)
    ensures
        scan(s, a + b) == scan(scan(s, a), b),
    decreases b.len(),
{
    if b.len() == 0 {
        assert(a + b =~= a);
    } else {
        lemma_scan_concat(s, a, b.drop_last());
        assert((a + b).drop_last() =~= a + b.drop_last());
        assert((a + b).last() == b.last());
    }
}

/// Reading the digits of a number, where no number is being read, leaves
/// that number being read.
proof fn lemma_scan_digits(s: ScanState, v: nat)
    requires
        s.fault is None,
        s.number is None,
        v <= u32::MAX,
    ensures
        scan(s, digits(v)) == (ScanState { number: Some(v as u32), ..s }),
    decreases v,
{
    if v < 10 {
        assert(digits(v).drop_last() =~= Seq::<u8>::empty());
        assert(scan(s, digits(v).drop_last()) == s);
    } else {
        lemma_scan_digits(s, v / 10);
        assert(digits(v).drop_last() =~= digits(v / 10));
    }
}

/// Reading the text of a row, where no row is being read, leaves that row
/// being read, the last of its rewards as the number being read.
proof fn lemma_scan_row(s: ScanState, row: Seq<u32>)
    requires
        s.fault is None,
        s.number is None,
        s.row.len() == 0,
        row.len() > 0,
    ensures
        scan(s, render_row(row)) == (ScanState {
            row: row.drop_last(),
            number: Some(row.last()),
            ..s
        }),
    decreases row.len(),
{
    if row.len() == 1 {
        lemma_scan_digits(s, row[0] as nat);
        assert(row.drop_last() =~= s.row);
    } else {
        let front = row.drop_last();
        lemma_scan_row(s, front);
        let after_front = scan(s, render_row(front));
        let separated = render_row(front).push(32u8);
        assert(separated.drop_last() =~= render_row(front));
        let after_blank = scan(s, separated);
        assert(after_blank == ScanState { row: front, number: None, ..s }) by {
            assert(front.drop_last().push(front.last()) =~= front);
        }
        lemma_scan_concat(s, separated, digits(row.last() as nat));
        lemma_scan_digits(after_blank, row.last() as nat);
    }
}

/// Reading the text form of a grid, where nothing is being read, adds the
/// rows of the grid to the rows that have ended.
proof fn lemma_scan_render(s: ScanState, g: Rewards)
    requires
        s.fault is None,
        s.number is None,
        s.row.len() == 0,
    ensures
        scan(s, render(g)) == (ScanState { rows: s.rows + g, ..s }),
    decreases g.len(),
{
    if g.len() == 0 {
        assert(s.rows + g =~= s.rows);
    } else {
        let front = g.drop_last();
        lemma_scan_render(s, front);
        let mid = scan(s, render(front));
        let line = render_row(g.last()).push(10u8);
        lemma_scan_concat(s, render(front), line);
        assert(line.drop_last() =~= render_row(g.last()));
        if g.last().len() == 0 {
            assert(scan(mid, render_row(g.last())) == mid);
            assert(row_so_far(mid) =~= g.last());
        } else {
            lemma_scan_row(mid, g.last());
            assert(g.last().drop_last().push(g.last().last()) =~= g.last());
        }
        assert((s.rows + front).push(g.last()) =~= s.rows + g);
        assert(mid.row =~= Seq::<u32>::empty());
    }
}

/// Round trip: the text form of a square grid is read back as that grid,
/// every reward as it was.
pub proof fn lemma_round_trip(g: Rewards)
    requires
        is_square(g, g.len()),
    ensures
        parse_grid(render(g)) == Ok::<Rewards, GridError>(g),
{
    lemma_scan_render(scan_start(), g);
    assert(Seq::<Seq<u32>>::empty() + g =~= g);
    let s = scan(scan_start(), render(g));
    assert(rows_at_end(s) == g);
}

/// The number that a digit adds to.
fn with_digit(number: Option<u32>, b: u8) -> (r: Option<u32>)
    requires
        is_digit(b),
    ensures
        match r {
            Some(v) => v == match number {
                Some(old) => old * 10 + (b - 48),
                None => (b - 48) as int,
            },
            None => match number {
                Some(old) => old * 10 + (b - 48) > u32::MAX,
                None => false,
            },
        },
{
    let d = (b - 48) as u32;
    match number {
        None => Some(d),
        Some(old) => match old.checked_mul(10) {
            None => None,
            Some(tens) => tens.checked_add(d),
        },
    }
}

impl Graph {
    /// Loads a graph from its text form.
    pub fn from_bytes(bytes: Vec<u8>) -> (r: Result<Graph, GridError>)
        ensures
            match parse_grid(bytes@) {
                Ok(rows) => r is Ok && r->Ok_0@ == rows && r->Ok_0.wf() && r->Ok_0.spec_size()
                    == rows.len(),
                Err(e) => r == Err::<Graph, GridError>(e),
            },
    {
        let mut rows: Vec<Vec<u32>> = Vec::new();
        let mut row: Vec<u32> = Vec::new();
        let mut number: Option<u32> = None;
        let mut k: usize = 0;
        proof {
            assert(bytes@.take(0) =~= Seq::<u8>::empty());
            assert(Seq::new(rows.len() as nat, |i: int| rows[i]@) =~= Seq::<Seq<u32>>::empty());
            assert(row@ =~= Seq::<u32>::empty());
        }
        while k < bytes.len()
            invariant
                k <= bytes.len(),
                scan(scan_start(), bytes@.take(k as int)) == (ScanState {
                    rows: Seq::new(rows.len() as nat, |i: int| rows[i]@),
                    row: row@,
                    number,
                    fault: None,
                }),
            decreases bytes.len() - k,
        {
            let b = bytes[k];
            let ghost before = scan(scan_start(), bytes@.take(k as int));
            proof {
                assert(bytes@.take(k + 1).drop_last() =~= bytes@.take(k as int));
                assert(scan(scan_start(), bytes@.take(k + 1)) == scan_byte(before, b));
            }
            if b >= 48 && b <= 57 {
                match with_digit(number, b) {
                    Some(v) => {
                        number = Some(v);
                    },
                    None => {
                        proof {
                            lemma_fault_stays(
                                scan(scan_start(), bytes@.take(k + 1)),
                                bytes@.skip(k + 1),
                            );
                            lemma_scan_concat(
                                scan_start(),
                                bytes@.take(k + 1),
                                bytes@.skip(k + 1),
                            );
                            assert(bytes@.take(k + 1) + bytes@.skip(k + 1) =~= bytes@);
                        }
                        return Err(GridError::NumberTooLarge);
                    },
                }
            } else if b == 32 || b == 9 || b == 13 {
                if let Some(v) = number {
                    row.push(v);
                    number = None;
                }
            } else if b == 10 {
                if let Some(v) = number {
                    row.push(v);
                    number = None;
                }
                let ghost old_rows = Seq::new(rows.len() as nat, |i: int| rows[i]@);
                let ghost done = row@;
                rows.push(row);
                row = Vec::new();
                assert(Seq::new(rows.len() as nat, |i: int| rows[i]@) =~= old_rows.push(done));
            } else {
                proof {
                    lemma_fault_stays(
                        scan(scan_start(), bytes@.take(k + 1)),
                        bytes@.skip(k + 1),
                    );
                    lemma_scan_concat(scan_start(), bytes@.take(k + 1), bytes@.skip(k + 1));
                    assert(bytes@.take(k + 1) + bytes@.skip(k + 1) =~= bytes@);
                }
                return Err(GridError::InvalidByte);
            }
            k += 1;
        }
        assert(bytes@.take(bytes.len() as int) =~= bytes@);
        if let Some(v) = number {
            row.push(v);
        }
        if row.len() > 0 {
            let ghost old_rows = Seq::new(rows.len() as nat, |i: int| rows[i]@);
            let ghost done = row@;
            rows.push(row);
            assert(Seq::new(rows.len() as nat, |i: int| rows[i]@) =~= old_rows.push(done));
        }
        let ghost read = Seq::new(rows.len() as nat, |i: int| rows[i]@);
        assert(read == rows_at_end(scan(scan_start(), bytes@)));
        let mut i: usize = 0;
        while i < rows.len()
            invariant
                i <= rows.len(),
                read == Seq::new(rows.len() as nat, |i: int| rows[i]@),
                read == rows_at_end(scan(scan_start(), bytes@)),
                scan(scan_start(), bytes@).fault is None,
                forall|x: int| 0 <= x < i ==> (#[trigger] rows[x]).len() == rows.len(),
            decreases rows.len() - i,
        {
            if rows[i].len() != rows.len() {
                assert(read[i as int] == rows[i as int]@);
                assert(!is_square(read, read.len()));
                return Err(GridError::NotSquare);
            }
            i += 1;
        }
        assert(is_square(read, read.len())) by {
            assert forall|x: int| 0 <= x < read.len() implies (#[trigger] read[x]).len()
                == read.len() by {
                assert(rows[x].len() == rows.len());
            }
        }
        Ok(Graph::from_rows(rows))
    }
}

/// After a fault, reading on changes nothing.
proof fn lemma_fault_stays(s: ScanState, text: Seq<u8>)
    requires
        s.fault is Some,
    ensures
        scan(s, text) == s,
    decreases text.len(),
{
    if text.len() > 0 {
        lemma_fault_stays(s, text.drop_last());
    }
}

} // verus!

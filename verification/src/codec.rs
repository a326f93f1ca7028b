//! The textual board format: one line per row, `0` for a dead cell and `1`
//! for an alive cell, rows separated by newline bytes. A trailing newline
//! after the last row is accepted and produced.

use crate::grid::{grid_wf, rect, Board, Cell, GridError};
use vstd::prelude::*;

verus! {

/// The byte for a dead cell.
pub const BYTE_DEAD: u8 = 48;

/// The byte for an alive cell.
pub const BYTE_ALIVE: u8 = 49;

/// The byte that separates rows.
pub const BYTE_NEWLINE: u8 = 10;

/// Splitting `b` at newline bytes, having already read the partial line `cur`
/// after the complete lines `done`. A final line without a trailing newline
/// still counts; a trailing newline does not open an empty last line.
pub open spec fn split_acc(b: Seq<u8>, cur: Seq<u8>, done: Seq<Seq<u8>>) -> Seq<Seq<u8>>
    decreases b.len(),
{
    if b.len() == 0 {
        if cur.len() == 0 {
            done
        } else {
            done.push(cur)
        }
    } else if b[0] == BYTE_NEWLINE {
        split_acc(b.drop_first(), Seq::empty(), done.push(cur))
    } else {
        split_acc(b.drop_first(), cur.push(b[0]), done)
    }
}

/// The lines of `b`: the segments between newline bytes.
pub open spec fn lines_of(b: Seq<u8>) -> Seq<Seq<u8>> {
    split_acc(b, Seq::empty(), Seq::empty())
}

/// Whether every byte of the line is `0` or `1`.
pub open spec fn valid_line(l: Seq<u8>) -> bool {
    forall|i: int| 0 <= i < l.len() ==> l[i] == BYTE_DEAD || (#[trigger] l[i]) == BYTE_ALIVE
}

/// Whether every line consists of `0` and `1` bytes only.
pub open spec fn all_valid(ls: Seq<Seq<u8>>) -> bool {
    forall|i: int| 0 <= i < ls.len() ==> valid_line(#[trigger] ls[i])
}

/// The row a line denotes: `true` exactly where the byte is `1`.
pub open spec fn row_of_line(l: Seq<u8>) -> Seq<bool> {
    Seq::new(l.len(), |i: int| l[i] == BYTE_ALIVE)
}

/// The grid a sequence of lines denotes.
pub open spec fn grid_of_lines(ls: Seq<Seq<u8>>) -> Seq<Seq<bool>> {
    Seq::new(ls.len(), |i: int| row_of_line(ls[i]))
}

/// The line that denotes a row.
pub open spec fn encode_row(row: Seq<bool>) -> Seq<u8> {
    Seq::new(row.len(), |i: int| if row[i] { BYTE_ALIVE } else { BYTE_DEAD })
}

/// The serialized form of a grid: each row's line followed by a newline.
pub open spec fn encode_grid(g: Seq<Seq<bool>>) -> Seq<u8>
    decreases g.len(),
{
    if g.len() == 0 {
        Seq::empty()
    } else {
        encode_row(g[0]) + seq![BYTE_NEWLINE] + encode_grid(g.drop_first())
    }
}

/// `encode_grid` distributes over concatenation of row sequences.
proof fn lemma_encode_grid_append(a: Seq<Seq<bool>>, b: Seq<Seq<bool>>)
    ensures
        encode_grid(a + b) == encode_grid(a) + encode_grid(b),
    decreases a.len(),
{
    if a.len() == 0 {
        assert(a + b =~= b);
        assert(encode_grid(a) + encode_grid(b) =~= encode_grid(b));
    } else {
        assert((a + b).drop_first() =~= a.drop_first() + b);
        lemma_encode_grid_append(a.drop_first(), b);
        assert((a + b)[0] == a[0]);
        assert(encode_row(a[0]) + seq![BYTE_NEWLINE] + (encode_grid(a.drop_first())
            + encode_grid(b)) =~= (encode_row(a[0]) + seq![BYTE_NEWLINE] + encode_grid(
            a.drop_first(),
        )) + encode_grid(b));
    }
}

/// Splitting a newline-free line, its newline, and then the rest: the line
/// joins the finished lines and splitting goes on in the rest.
proof fn lemma_split_line(l: Seq<u8>, t: Seq<u8>, cur: Seq<u8>, done: Seq<Seq<u8>>)
    requires
        forall|i: int| 0 <= i < l.len() ==> (#[trigger] l[i]) != BYTE_NEWLINE,
    ensures
        split_acc(l + seq![BYTE_NEWLINE] + t, cur, done) == split_acc(
            t,
            Seq::empty(),
            done.push(cur + l),
        ),
    decreases l.len(),
{
    let b = l + seq![BYTE_NEWLINE] + t;
    if l.len() == 0 {
        assert(b[0] == BYTE_NEWLINE);
        assert(b.drop_first() =~= t);
        assert(cur + l =~= cur);
    } else {
        assert(b[0] == l[0]);
        assert(b.drop_first() =~= l.drop_first() + seq![BYTE_NEWLINE] + t);
        lemma_split_line(l.drop_first(), t, cur.push(l[0]), done);
        assert(cur.push(l[0]) + l.drop_first() =~= cur + l);
    }
}

/// Splitting an encoded grid recovers one line per row.
proof fn lemma_split_encoded(g: Seq<Seq<bool>>, done: Seq<Seq<u8>>)
    ensures
        split_acc(encode_grid(g), Seq::empty(), done) == done + Seq::new(
            g.len(),
            |i: int| encode_row(g[i]),
        ),
    decreases g.len(),
{
    let row_lines = Seq::new(g.len(), |i: int| encode_row(g[i]));
    if g.len() == 0 {
        assert(done + row_lines =~= done);
    } else {
        let first = encode_row(g[0]);
        let rest = encode_grid(g.drop_first());
        lemma_split_line(first, rest, Seq::empty(), done);
        assert(Seq::<u8>::empty() + first =~= first);
        lemma_split_encoded(g.drop_first(), done.push(first));
        assert(done.push(first) + Seq::new(g.drop_first().len(), |i: int| encode_row(
            g.drop_first()[i],
        )) =~= done + row_lines);
    }
}

/// Law: serializing a well-formed grid to the line format and re-parsing the
/// bytes reproduces it exactly. The lines of the encoding are one per row,
/// rectangular, of the grid's width, and all of `0`/`1` bytes, and they
/// denote the original grid, so `decode` of `encode` returns a board with the
/// same dimensions and the same state of every cell.
pub proof fn lemma_encode_decode_round_trip(g: Seq<Seq<bool>>, rows: int, cols: int)
    requires
        grid_wf(g, rows, cols),
    ensures
        ({
            let ls = lines_of(encode_grid(g));
            &&& ls.len() == rows
            &&& rect(ls)
            &&& ls[0].len() == cols
            &&& all_valid(ls)
            &&& grid_of_lines(ls) == g
        }),
{
    lemma_split_encoded(g, Seq::empty());
    let ls = lines_of(encode_grid(g));
    assert(ls =~= Seq::new(g.len(), |i: int| encode_row(g[i])));
    assert forall|i: int| 0 <= i < ls.len() implies valid_line(#[trigger] ls[i]) by {
        assert(ls[i] == encode_row(g[i]));
    }
    assert(grid_of_lines(ls) =~~= g);
}

impl Board {
    /// The board in the line format: for each row in order, one byte per
    /// cell (`1` alive, `0` dead) and then a newline.
    pub fn encode(&self) -> (out: Vec<u8>)
        requires
            self.wf(),
        ensures
            out@ == encode_grid(self@),
    {
        let rows = self.rows;
        let cols = self.cols;
        let mut out: Vec<u8> = Vec::new();
        for x in 0..rows
            invariant
                self.wf(),
                rows == self.rows,
                cols == self.cols,
                out@ == encode_grid(self@.take(x as int)),
        {
            for y in 0..cols
                invariant
                    self.wf(),
                    rows == self.rows,
                    cols == self.cols,
                    x < rows,
                    out@ == encode_grid(self@.take(x as int)) + encode_row(self@[x as int]).take(
                        y as int,
                    ),
            {
                let row_ref = &self.cells[x];
                let byte = if matches!(row_ref[y], Cell::Alive) {
                    BYTE_ALIVE
                } else {
                    BYTE_DEAD
                };
                out.push(byte);
                proof {
                    assert(encode_row(self@[x as int]).take(y + 1) =~= encode_row(
                        self@[x as int],
                    ).take(y as int).push(byte));
                }
            }
            out.push(BYTE_NEWLINE);
            proof {
                lemma_encode_grid_append(self@.take(x as int), seq![self@[x as int]]);
                assert(self@.take(x as int) + seq![self@[x as int]] =~= self@.take(x + 1));
                assert(encode_row(self@[x as int]).take(cols as int) =~= encode_row(
                    self@[x as int],
                ));
                assert(seq![self@[x as int]].drop_first() =~= Seq::<Seq<bool>>::empty());
                assert(encode_grid(Seq::<Seq<bool>>::empty()) == Seq::<u8>::empty());
                assert(encode_grid(seq![self@[x as int]]) =~= encode_row(self@[x as int]) + seq![
                    BYTE_NEWLINE,
                ]);
                assert(out@ =~= encode_grid(self@.take(x as int)) + encode_grid(
                    seq![self@[x as int]],
                ));
                assert(out@ =~= encode_grid(self@.take(x + 1)));
            }
        }
        proof {
            assert(self@.take(rows as int) =~= self@);
        }
        out
    }

    /// A board parsed from the line format. The lines of `bytes` become the
    /// rows. Fails with `InvalidDimensions` if there are no lines or the
    /// lines are empty, with `RaggedInput` if the lines differ in length,
    /// and with `InvalidCharacter` if any byte of a line is not `0` or `1`.
    pub fn decode(bytes: &Vec<u8>) -> (result: Result<Board, GridError>)
        ensures
            ({
                let ls = lines_of(bytes@);
                match result {
                    Ok(b) => {
                        &&& ls.len() >= 1
                        &&& rect(ls)
                        &&& ls[0].len() >= 1
                        &&& all_valid(ls)
                        &&& b.wf()
                        &&& b.rows == ls.len()
                        &&& b.cols == ls[0].len()
                        &&& b@ == grid_of_lines(ls)
                    },
                    Err(e) => {
                        &&& (e == GridError::InvalidDimensions <==> ls.len() == 0 || (rect(ls)
                            && ls[0].len() == 0))
                        &&& (e == GridError::RaggedInput <==> ls.len() >= 1 && !rect(ls))
                        &&& (e == GridError::InvalidCharacter <==> ls.len() >= 1 && rect(ls)
                            && ls[0].len() >= 1 && !all_valid(ls))
                        &&& (e == GridError::InvalidDimensions || e == GridError::RaggedInput
                            || e == GridError::InvalidCharacter)
                    },
                }
            }),
    {
        let lines = split_lines(bytes);
        let ghost ls = lines_of(bytes@);
        proof {
            assert forall|i: int| 0 <= i < ls.len() implies (#[trigger] lines@[i])@ == ls[i] by {
                assert(lines@[i]@ =~= lines@[i].deep_view());
            }
        }
        let n = lines.len();
        if n == 0 {
            return Err(GridError::InvalidDimensions);
        }
        let m = lines[0].len();
        for i in 0..n
            invariant
                ls == lines_of(bytes@),
                n == lines@.len(),
                ls.len() == n,
                n >= 1,
                forall|k: int| 0 <= k < ls.len() ==> (#[trigger] lines@[k])@ == ls[k],
                m == ls[0].len(),
                forall|k: int| 0 <= k < i ==> (#[trigger] ls[k]).len() == m,
        {
            if lines[i].len() != m {
                proof {
                    assert(ls[i as int].len() != ls[0].len());
                    assert(!rect(ls));
                }
                return Err(GridError::RaggedInput);
            }
        }
        if m == 0 {
            return Err(GridError::InvalidDimensions);
        }
        let mut cells: Vec<Vec<Cell>> = Vec::new();
        for i in 0..n
            invariant
                ls == lines_of(bytes@),
                n == lines@.len(),
                ls.len() == n,
                n >= 1,
                forall|k: int| 0 <= k < ls.len() ==> (#[trigger] lines@[k])@ == ls[k],
                m == ls[0].len(),
                m >= 1,
                rect(ls),
                forall|k: int| 0 <= k < ls.len() ==> (#[trigger] ls[k]).len() == m,
                cells@.len() == i,
                forall|k: int| 0 <= k < i ==> valid_line(#[trigger] ls[k]),
                forall|k: int| #![trigger cells@[k]] 0 <= k < i ==> {
                    &&& cells@[k]@.len() == m
                    &&& forall|j: int| 0 <= j < m ==> cells@[k]@[j].is_alive() == (ls[k][j]
                        == BYTE_ALIVE)
                },
        {
            let line = &lines[i];
            let mut row: Vec<Cell> = Vec::new();
            for j in 0..m
                invariant
                    ls == lines_of(bytes@),
                    ls.len() == n,
                    n >= 1,
                    i < n,
                    m >= 1,
                    m == ls[0].len(),
                    rect(ls),
                    line@ == ls[i as int],
                    ls[i as int].len() == m,
                    row@.len() == j,
                    forall|t: int| 0 <= t < j ==> ls[i as int][t] == BYTE_DEAD || (#[trigger]
                    ls[i as int][t]) == BYTE_ALIVE,
                    forall|t: int| 0 <= t < j ==> (#[trigger] row@[t]).is_alive() == (ls[i as int][t]
                        == BYTE_ALIVE),
            {
                let byte = line[j];
                if byte == BYTE_ALIVE {
                    row.push(Cell::Alive);
                } else if byte == BYTE_DEAD {
                    row.push(Cell::Dead);
                } else {
                    proof {
                        assert(ls[i as int][j as int] != BYTE_DEAD && ls[i as int][j as int]
                            != BYTE_ALIVE);
                        assert(!valid_line(ls[i as int]));
                        assert(!all_valid(ls));
                    }
                    return Err(GridError::InvalidCharacter);
                }
            }
            proof {
                assert(valid_line(ls[i as int]));
            }
            cells.push(row);
        }
        let b = Board { cells, rows: n, cols: m };
        proof {
            assert(all_valid(ls));
            assert(b@ =~~= grid_of_lines(ls));
        }
        Ok(b)
    }
}

/// The lines of `bytes`, split at newline bytes.
fn split_lines(bytes: &Vec<u8>) -> (lines: Vec<Vec<u8>>)
    ensures
        lines.deep_view() == lines_of(bytes@),
{
    let n = bytes.len();
    let mut cur: Vec<u8> = Vec::new();
    let mut done: Vec<Vec<u8>> = Vec::new();
    proof {
        assert(bytes@.skip(0) =~= bytes@);
        assert(done.deep_view() =~= Seq::<Seq<u8>>::empty());
    }
    for i in 0..n
        invariant
            n == bytes@.len(),
            split_acc(bytes@.skip(i as int), cur@, done.deep_view()) == lines_of(bytes@),
    {
        let ghost rest = bytes@.skip(i as int);
        let ghost prior = done.deep_view();
        let ghost prior_cur = cur@;
        proof {
            assert(rest[0] == bytes@[i as int]);
            assert(rest.drop_first() =~= bytes@.skip(i + 1));
        }
        let byte = bytes[i];
        if byte == BYTE_NEWLINE {
            let finished = cur;
            cur = Vec::new();
            done.push(finished);
            proof {
                assert(done.deep_view() =~~= prior.push(prior_cur));
                assert(cur@ =~= Seq::<u8>::empty());
            }
        } else {
            cur.push(byte);
        }
    }
    proof {
        assert(bytes@.skip(n as int) =~= Seq::<u8>::empty());
    }
    if cur.len() > 0 {
        let ghost prior = done.deep_view();
        let ghost last = cur@;
        done.push(cur);
        proof {
            assert(done.deep_view() =~~= prior.push(last));
        }
    }
    done
}

} // verus!

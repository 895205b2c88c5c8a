//! Textual rendering of a board: one line per row, the queen's cell marked
//! with `Q`, every cell closed by a vertical bar.

use vstd::prelude::*;

use crate::board::QueensBoard;
use vstd::string::StringExecFns;

verus! {

/// The first `k` cells of a row whose queen sits in column `col`: each cell
/// holds `Q` or a blank and is closed by a vertical bar.
pub open spec fn row_cells(col: int, k: int) -> Seq<char>
    decreases k,
{
    if k <= 0 {
        Seq::empty()
    } else {
        row_cells(col, k - 1) + seq![
            if k - 1 == col {
                'Q'
            } else {
                ' '
            },
            '|',
        ]
    }
}

/// One rendered row: an opening bar, `n` cells, and a terminating newline.
pub open spec fn row_render(col: int, n: int) -> Seq<char> {
    seq!['|'] + row_cells(col, n) + seq!['\n']
}

/// The first `k` rendered rows of the board, concatenated.
pub open spec fn board_render_upto(s: Seq<u8>, k: int) -> Seq<char>
    decreases k,
{
    if k <= 0 {
        Seq::empty()
    } else {
        board_render_upto(s, k - 1) + row_render(s[k - 1] as int, s.len() as int)
    }
}

/// The full rendered board.
pub open spec fn board_render(s: Seq<u8>) -> Seq<char> {
    board_render_upto(s, s.len() as int)
}

/// How many times `c` occurs in `cs`.
pub open spec fn count_char(cs: Seq<char>, c: char) -> int
    decreases cs.len(),
{
    if cs.len() == 0 {
        0
    } else {
        count_char(cs.drop_last(), c) + if cs.last() == c {
            1int
        } else {
            0int
        }
    }
}

proof fn lemma_count_char_concat(x: Seq<char>, y: Seq<char>, c: char)
    ensures
        count_char(x + y, c) == count_char(x, c) + count_char(y, c),
    decreases y.len(),
{
    if y.len() == 0 {
        assert(x + y =~= x);
    } else {
        lemma_count_char_concat(x, y.drop_last(), c);
        assert((x + y).drop_last() =~= x + y.drop_last());
        assert((x + y).last() == y.last());
    }
}

proof fn lemma_row_cells_counts(col: int, k: int)
    ensures
        count_char(row_cells(col, k), '|') == if k <= 0 {
            0int
        } else {
            k
        },
        count_char(row_cells(col, k), 'Q') == if 0 <= col < k {
            1int
        } else {
            0int
        },
        count_char(row_cells(col, k), '\n') == 0,
    decreases k,
{
    if k > 0 {
        lemma_row_cells_counts(col, k - 1);
        let cell = if k - 1 == col {
            'Q'
        } else {
            ' '
        };
        let two = seq![cell, '|'];
        lemma_count_char_pair(cell, '|', '|');
        lemma_count_char_pair(cell, '|', 'Q');
        lemma_count_char_pair(cell, '|', '\n');
        lemma_count_char_concat(row_cells(col, k - 1), two, '|');
        lemma_count_char_concat(row_cells(col, k - 1), two, 'Q');
        lemma_count_char_concat(row_cells(col, k - 1), two, '\n');
    }
}

proof fn lemma_count_char_single(c: char, t: char)
    ensures
        count_char(seq![c], t) == if c == t {
            1int
        } else {
            0int
        },
{
    assert(seq![c].drop_last() =~= Seq::<char>::empty());
    assert(count_char(Seq::<char>::empty(), t) == 0);
    assert(seq![c].last() == c);
}

proof fn lemma_count_char_pair(a: char, b: char, t: char)
    ensures
        count_char(seq![a, b], t) == (if a == t {
            1int
        } else {
            0int
        }) + (if b == t {
            1int
        } else {
            0int
        }),
{
    lemma_count_char_single(a, t);
    assert(seq![a, b].drop_last() =~= seq![a]);
    assert(seq![a, b].last() == b);
}

proof fn lemma_row_render_counts(col: int, n: int)
    ensures
        count_char(row_render(col, n), '|') == 1 + (if n <= 0 {
            0int
        } else {
            n
        }),
        count_char(row_render(col, n), 'Q') == if 0 <= col < n {
            1int
        } else {
            0int
        },
        count_char(row_render(col, n), '\n') == 1,
{
    lemma_row_cells_counts(col, n);
    lemma_count_char_single('|', '|');
    lemma_count_char_single('|', 'Q');
    lemma_count_char_single('|', '\n');
    lemma_count_char_single('\n', '|');
    lemma_count_char_single('\n', 'Q');
    lemma_count_char_single('\n', '\n');
    lemma_count_char_concat(seq!['|'], row_cells(col, n), '|');
    lemma_count_char_concat(seq!['|'] + row_cells(col, n), seq!['\n'], '|');
    lemma_count_char_concat(seq!['|'], row_cells(col, n), 'Q');
    lemma_count_char_concat(seq!['|'] + row_cells(col, n), seq!['\n'], 'Q');
    lemma_count_char_concat(seq!['|'], row_cells(col, n), '\n');
    lemma_count_char_concat(seq!['|'] + row_cells(col, n), seq!['\n'], '\n');
}

proof fn lemma_board_render_newlines(s: Seq<u8>, k: int)
    requires
        k <= s.len(),
    ensures
        count_char(board_render_upto(s, k), '\n') == if k <= 0 {
            0int
        } else {
            k
        },
    decreases k,
{
    if k > 0 {
        lemma_board_render_newlines(s, k - 1);
        lemma_row_render_counts(s[k - 1] as int, s.len() as int);
        lemma_count_char_concat(
            board_render_upto(s, k - 1),
            row_render(s[k - 1] as int, s.len() as int),
            '\n',
        );
    }
}

/// Rendering a board of length `n` produces exactly `n` newline-terminated
/// lines; each rendered row holds `n + 1` vertical bars — one opening bar and
/// one closing each of the `n` cells — and, the board being well-formed,
/// exactly one `Q` and no newline before its terminating one.
pub proof fn lemma_render_shape(s: Seq<u8>)
    requires
        forall|i: int| 0 <= i < s.len() ==> s[i] < s.len(),
    ensures
        count_char(board_render(s), '\n') == s.len(),
        forall|i: int|
            0 <= i < s.len() ==> count_char(
                #[trigger] row_render(s[i] as int, s.len() as int),
                'Q',
            ) == 1,
        forall|i: int|
            0 <= i < s.len() ==> count_char(
                #[trigger] row_render(s[i] as int, s.len() as int),
                '|',
            ) == s.len() + 1,
        forall|i: int|
            0 <= i < s.len() ==> count_char(
                #[trigger] row_render(s[i] as int, s.len() as int),
                '\n',
            ) == 1,
{
    lemma_board_render_newlines(s, s.len() as int);
    assert forall|i: int| 0 <= i < s.len() implies count_char(
        #[trigger] row_render(s[i] as int, s.len() as int),
        'Q',
    ) == 1 && count_char(row_render(s[i] as int, s.len() as int), '|') == s.len() + 1
        && count_char(row_render(s[i] as int, s.len() as int), '\n') == 1 by {
        lemma_row_render_counts(s[i] as int, s.len() as int);
    }
}

impl QueensBoard {
    /// Renders the board as text: one line per row, `n` cells per line, the
    /// cell whose index matches the row's column value holding `Q`, every cell
    /// closed by a vertical bar, every line terminated by a newline.
    pub fn render(&self) -> (r: String)
        ensures
            r@ == board_render(self@),
    {
        let ghost s = self@;
        let g = self.genes();
        let n = g.len();
        let mut out = String::new();
        let mut row: usize = 0;
        while row < n
            invariant
                g@ == s,
                n == s.len(),
                row <= n,
                out@ == board_render_upto(s, row as int),
            decreases n - row,
        {
            proof {
                reveal_strlit("|");
                reveal_strlit("Q|");
                reveal_strlit(" |");
                reveal_strlit("\n");
            }
            let ghost at_entry = out@;
            let col = g[row];
            out.append("|");
            let mut i: usize = 0;
            proof {
                assert(out@ =~= at_entry + seq!['|'] + row_cells(col as int, 0));
            }
            while i < n
                invariant
                    g@ == s,
                    n == s.len(),
                    row < n,
                    col == s[row as int],
                    i <= n,
                    at_entry == board_render_upto(s, row as int),
                    out@ == at_entry + seq!['|'] + row_cells(col as int, i as int),
                decreases n - i,
            {
                proof {
                    reveal_strlit("Q|");
                    reveal_strlit(" |");
                }
                if i == col as usize {
                    out.append("Q|");
                    proof {
                        assert(out@ =~= at_entry + seq!['|'] + row_cells(col as int, i as int + 1));
                    }
                } else {
                    out.append(" |");
                    proof {
                        assert(out@ =~= at_entry + seq!['|'] + row_cells(col as int, i as int + 1));
                    }
                }
                i += 1;
            }
            out.append("\n");
            proof {
                assert(out@ =~= board_render_upto(s, row as int + 1));
            }
            row += 1;
        }
        out
    }
}

} // verus!

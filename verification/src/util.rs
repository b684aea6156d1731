//! Helpers: matrices as text, and tracing of nested calls.

use vstd::prelude::*;
use vstd::string::StringExecFns;
use crate::algorithms::cell;
use crate::matrix::BasicMatrix;

verus! {

/// The indentation of a trace line at the given depth of nesting: two spaces
/// for each level.
pub fn indent(depth: usize) -> (r: String)
    ensures
        r@ == Seq::new(2 * depth as nat, |i: int| ' '),
{
    let mut s = String::new();
    let mut level: usize = 0;
    while level < depth
        invariant
            level <= depth,
            s@ == Seq::new(2 * level as nat, |i: int| ' '),
        decreases depth - level,
    {
        proof {
            reveal_strlit("  ");
        }
        s.append("  ");
        level = level + 1;
        assert(s@ =~= Seq::new(2 * level as nat, |i: int| ' '));
    }
    s
}

/// Runs `f` as the traced step named `m` and hands back what it returned.
/// Tracing is switched off: the name is not recorded.
pub fn tracefn<T, F: FnOnce() -> T>(m: &str, f: F) -> (r: T)
    requires
        call_requires(f, ()),
    ensures
        call_ensures(f, (), r),
{
    let _ = m;
    f()
}

/// The text of the first `n` cells of a row: an opening bracket and a space,
/// then each cell followed by a space.
pub open spec fn row_text(cells: Seq<Seq<char>>, n: nat) -> Seq<char>
    decreases n,
{
    if n == 0 {
        seq!['[', ' ']
    } else {
        row_text(cells, (n - 1) as nat) + cells[n - 1] + seq![' ']
    }
}

/// The text of the first `n` rows: each row, a closing bracket and a line
/// break.
pub open spec fn matrix_text(cells: Seq<Seq<Seq<char>>>, n: nat) -> Seq<char>
    decreases n,
{
    if n == 0 {
        Seq::empty()
    } else {
        matrix_text(cells, (n - 1) as nat) + row_text(cells[n - 1], cells[n - 1].len()) + seq![']', '\n']
    }
}

/// `text` is what `show` returned for the cell `x`.
pub open spec fn cell_shown<T, F: Fn(T) -> String>(show: F, x: T, text: Seq<char>) -> bool {
    exists|s: String| call_ensures(show, (x,), s) && s@ == text
}

/// `texts` holds, for each cell of `m`, a text that `show` returned for it.
pub open spec fn shown<T, M: BasicMatrix<T>, F: Fn(T) -> String>(m: &M, show: F, texts: Seq<Seq<Seq<char>>>) -> bool {
    &&& texts.len() == m.spec_rows()
    &&& forall|i: int| 0 <= i < texts.len() ==> (#[trigger] texts[i]).len() == m.spec_cols()
    &&& forall|i: int, j: int|
        0 <= i < m.spec_rows() && 0 <= j < m.spec_cols() ==> cell_shown(show, m.spec_at(i, j), #[trigger] texts[i][j])
}

/// The matrix as text, one line for each row: `[ a b c ]`, where `a`, `b`
/// and `c` are what `show` makes of the cells.
pub fn to_str<T, M: BasicMatrix<T>, F: Fn(T) -> String>(m: &M, show: F) -> (r: String)
    requires
        m.inv(),
        forall|i: int, j: int|
            0 <= i < m.spec_rows() && 0 <= j < m.spec_cols() ==> call_requires(show, (#[trigger] m.spec_at(i, j),)),
    ensures
        exists|texts: Seq<Seq<Seq<char>>>| shown(m, show, texts) && r@ == matrix_text(texts, m.spec_rows()),
{
    let rows = m.num_rows();
    let cols = m.num_cols();
    let mut s = String::new();
    let ghost mut texts: Seq<Seq<Seq<char>>> = Seq::empty();
    let mut i: usize = 0;
    while i < rows
        invariant
            i <= rows,
            m.inv(),
            rows == m.spec_rows(),
            cols == m.spec_cols(),
            forall|i: int, j: int|
                0 <= i < m.spec_rows() && 0 <= j < m.spec_cols() ==> call_requires(
                    show,
                    (#[trigger] m.spec_at(i, j),),
                ),
            texts.len() == i,
            forall|a: int| 0 <= a < i ==> (#[trigger] texts[a]).len() == cols,
            forall|a: int, b: int|
                0 <= a < i && 0 <= b < cols ==> cell_shown(show, m.spec_at(a, b), #[trigger] texts[a][b]),
            s@ == matrix_text(texts, i as nat),
        decreases rows - i,
    {
        proof {
            reveal_strlit("[ ");
            reveal_strlit(" ");
            reveal_strlit("]\n");
        }
        let ghost before = s@;
        let ghost mut line: Seq<Seq<char>> = Seq::empty();
        s.append("[ ");
        assert(s@ =~= before + row_text(line, 0));
        let mut j: usize = 0;
        while j < cols
            invariant
                i < rows,
                j <= cols,
                m.inv(),
                rows == m.spec_rows(),
                cols == m.spec_cols(),
                forall|i: int, j: int|
                    0 <= i < m.spec_rows() && 0 <= j < m.spec_cols() ==> call_requires(
                        show,
                        (#[trigger] m.spec_at(i, j),),
                    ),
                " "@ == seq![' '],
                line.len() == j,
                forall|b: int| 0 <= b < j ==> cell_shown(show, m.spec_at(i as int, b), #[trigger] line[b]),
                s@ == before + row_text(line, j as nat),
            decreases cols - j,
        {
            let x = cell(m, i, j);
            let t = show(x);
            let ghost so_far = line;
            proof {
                line = line.push(t@);
                assert forall|b: int| 0 <= b < j + 1 implies cell_shown(
                    show,
                    m.spec_at(i as int, b),
                    #[trigger] line[b],
                ) by {
                    if b < j {
                        assert(line[b] == so_far[b]);
                    } else {
                        assert(call_ensures(show, (m.spec_at(i as int, b),), t) && t@ == line[b]);
                    }
                }
                lemma_row_text_prefix(so_far, line, j as nat);
            }
            s.append(t.as_str());
            s.append(" ");
            j = j + 1;
            assert(s@ =~= before + row_text(line, j as nat));
        }
        s.append("]\n");
        let ghost done = texts;
        proof {
            texts = texts.push(line);
            lemma_matrix_text_prefix(done, texts, i as nat);
            assert(s@ =~= matrix_text(texts, (i + 1) as nat));
            assert forall|a: int, b: int| 0 <= a < i + 1 && 0 <= b < cols implies cell_shown(
                show,
                m.spec_at(a, b),
                #[trigger] texts[a][b],
            ) by {
                if a < i {
                    assert(texts[a] == done[a]);
                    assert(cell_shown(show, m.spec_at(a, b), done[a][b]));
                } else {
                    assert(texts[a] == line);
                    assert(cell_shown(show, m.spec_at(i as int, b), line[b]));
                }
            }
        }
        i = i + 1;
    }
    assert(shown(m, show, texts));
    s
}

/// The text of a row depends only on the cells that are counted.
pub proof fn lemma_row_text_prefix(a: Seq<Seq<char>>, b: Seq<Seq<char>>, n: nat)
    requires
        forall|k: int| 0 <= k < n ==> a[k] == b[k],
    ensures
        row_text(a, n) == row_text(b, n),
    decreases n,
{
    if n > 0 {
        lemma_row_text_prefix(a, b, (n - 1) as nat);
    }
}

/// The text of the rows depends only on the rows that are counted.
pub proof fn lemma_matrix_text_prefix(a: Seq<Seq<Seq<char>>>, b: Seq<Seq<Seq<char>>>, n: nat)
    requires
        forall|k: int| 0 <= k < n ==> a[k] == b[k],
    ensures
        matrix_text(a, n) == matrix_text(b, n),
    decreases n,
{
    if n > 0 {
        lemma_matrix_text_prefix(a, b, (n - 1) as nat);
    }
}

} // verus!

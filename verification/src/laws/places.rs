//! Laws of places in a text.
use crate::laws::notation;
use crate::read;
use crate::read::Position;
use vstd::prelude::*;

verus! {

/// How many of the first `n` bytes end a line.
pub open spec fn line_ends(b: Seq<u8>, n: int) -> nat
    decreases n,
{
    if n <= 0 {
        0
    } else if b[n - 1] == 0x0a {
        line_ends(b, n - 1) + 1
    } else {
        line_ends(b, n - 1)
    }
}

/// The first `n` bytes of a text end in the line whose number is one more than
/// the line feeds among them, as far as a `usize` counts, and in the column
/// whose number is that of the bytes behind the last line feed.
pub proof fn law_place(b: Seq<u8>, n: int)
    requires
        0 <= n <= b.len(),
    ensures
        ({
            let (line, column) = read::line_column(b, n);
            &&& line == if 1 + line_ends(b, n) <= usize::MAX {
                1 + line_ends(b, n)
            } else {
                usize::MAX as nat
            }
            &&& column <= n
            &&& forall|i: int| n - column <= i < n ==> #[trigger] b[i] != 0x0a
            &&& column < n ==> b[n - column - 1] == 0x0a
        }),
    decreases n,
{
    if n > 0 {
        law_place(b, n - 1);
    }
}

/// In the first line the column counts the bytes from the beginning of the
/// text, and in a later one those from behind the line feed before it.
pub proof fn law_columns(b: Seq<u8>, before: Seq<u8>, line: Seq<u8>)
    requires
        forall|i: int| 0 <= i < line.len() ==> #[trigger] line[i] != 0x0a,
        notation::holds(b, 0, before + line),
        before.len() == 0 || before[before.len() - 1] == 0x0a,
    ensures
        read::line_column(b, (before.len() + line.len()) as int).1 == line.len(),
{
    let n = (before.len() + line.len()) as int;
    notation::lemma_split(b, 0, before, line);
    law_place(b, n);
    let column = read::line_column(b, n).1;
    if column < line.len() {
        assert(b[before.len() as int + (line.len() - column - 1)] == line[line.len() - column - 1]);
    }
    if column > line.len() {
        assert(b[0 + (before.len() - 1)] == before[before.len() - 1]);
        assert(b[before.len() - 1] == 0x0a);
    }
}

/// A position says where the first `n` bytes of a text end: its line and its
/// column are those numbers.
pub proof fn law_position(p: Position, b: Seq<u8>, n: int)
    ensures
        p.ends(b, n) <==> p.line as nat == read::line_column(b, n).0 && p.column as nat
            == read::line_column(b, n).1,
{
}

} // verus!

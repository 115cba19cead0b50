//! A maze that is drawn as text and read again has the cells it had.

use crate::maze::cells_of;
use crate::maze::classified;
use crate::maze::classify;
use crate::maze::drawn;
use crate::maze::has_unknown;
use crate::maze::symbol;
use crate::maze::Cell;
use crate::maze::Maze;
use crate::util::grid::grid_of;
use crate::util::point::Point;
use crate::util::text::joined;
use crate::util::text::lemma_next_break_bounds;
use crate::util::text::lines_from;
use crate::util::text::next_break;
use crate::util::text::split_lines;
use crate::util::text::strip_cr;
use vstd::prelude::*;

verus! {

/// The rows strung together with line feeds between them, first row
/// first.
pub open spec fn strung(rows: Seq<Seq<char>>) -> Seq<char>
    decreases rows.len(),
{
    if rows.len() == 0 {
        Seq::empty()
    } else if rows.len() == 1 {
        rows[0]
    } else {
        rows[0].push('\n') + strung(rows.skip(1))
    }
}

/// Stringing rows together ends with a line feed and the last row.
pub proof fn lemma_strung_last(rows: Seq<Seq<char>>)
    requires
        rows.len() >= 2,
    ensures
        strung(rows) == strung(rows.drop_last()).push('\n') + rows.last(),
    decreases rows.len(),
{
    let first = rows[0];
    let rest = rows.skip(1);
    if rows.len() == 2 {
        assert(rest.len() == 1 && rest[0] == rows.last());
        assert(rows.drop_last().len() == 1 && rows.drop_last()[0] == first);
        assert(strung(rest) == rows.last());
        assert(strung(rows.drop_last()) == first);
    } else {
        lemma_strung_last(rest);
        assert(rows.drop_last().skip(1) =~= rest.drop_last());
        assert(rows.drop_last()[0] == first);
        assert(rest.last() == rows.last());
        assert(first.push('\n') + (strung(rest.drop_last()).push('\n') + rows.last()) =~= (first.push(
            '\n',
        ) + strung(rest.drop_last())).push('\n') + rows.last());
    }
}

/// Joining rows with line feeds strings them together.
pub proof fn lemma_joined_is_strung(rows: Seq<Seq<char>>)
    ensures
        joined(rows, '\n') == strung(rows),
    decreases rows.len(),
{
    if rows.len() >= 2 {
        lemma_joined_is_strung(rows.drop_last());
        lemma_strung_last(rows);
    }
}

/// Whether a row holds neither a line feed nor a carriage return.
pub open spec fn plain(row: Seq<char>) -> bool {
    forall|i: int| 0 <= i < row.len() ==> #[trigger] row[i] != '\n' && row[i] != '\r'
}

/// The next line feed of a text is where the next line feed of its rest
/// is.
pub proof fn lemma_next_break_shift(s: Seq<char>, from: int, k: int)
    requires
        0 <= from,
        0 <= k,
        from + k <= s.len(),
    ensures
        next_break(s, from + k) == from + next_break(s.skip(from), k),
    decreases s.len() - from - k,
{
    if from + k < s.len() && s[from + k] != '\n' {
        lemma_next_break_shift(s, from, k + 1);
    }
}

/// The lines of a text from a position on are the lines of its rest.
pub proof fn lemma_lines_shift(s: Seq<char>, from: int)
    requires
        0 <= from <= s.len(),
    ensures
        lines_from(s, from) == lines_from(s.skip(from), 0),
    decreases s.len() - from,
{
    let t = s.skip(from);
    if from < s.len() {
        let end = next_break(s, from);
        let e = next_break(t, 0);
        lemma_next_break_shift(s, from, 0);
        lemma_next_break_bounds(s, from);
        lemma_next_break_bounds(t, 0);
        if end < s.len() {
            assert(t.subrange(0, e) =~= s.subrange(from, end));
            lemma_lines_shift(s, end + 1);
            lemma_lines_shift(t, e + 1);
            assert(t.skip(e + 1) =~= s.skip(end + 1));
        } else {
            assert(t.subrange(0, t.len() as int) =~= s.subrange(from, s.len() as int));
        }
    }
}

/// Where a text holds no line feed before the position `k`, and one at
/// `k` unless it ends there, its first line ends at `k`.
pub proof fn lemma_next_break_first(s: Seq<char>, k: int)
    requires
        0 <= k <= s.len(),
        forall|j: int| 0 <= j < k ==> s[j] != '\n',
        k == s.len() || s[k] == '\n',
    ensures
        next_break(s, 0) == k,
{
    lemma_next_break_bounds(s, 0);
}

/// The lines of plain rows that are strung together are the rows, but for
/// an empty last row, which is no line.
pub proof fn lemma_lines_of_strung(rows: Seq<Seq<char>>)
    requires
        forall|i: int| 0 <= i < rows.len() ==> plain(#[trigger] rows[i]),
    ensures
        split_lines(strung(rows)) == if rows.len() > 0 && rows.last().len() == 0 {
            rows.drop_last()
        } else {
            rows
        },
    decreases rows.len(),
{
    let s = strung(rows);
    if rows.len() == 0 {
    } else if rows.len() == 1 {
        let row = rows[0];
        assert(plain(row));
        if row.len() == 0 {
            assert(rows.drop_last() =~= Seq::<Seq<char>>::empty());
        } else {
            lemma_next_break_first(s, s.len() as int);
            assert(s.subrange(0, s.len() as int) =~= row);
            assert(strip_cr(row) == row);
            assert(seq![row] =~= rows);
        }
    } else {
        let first = rows[0];
        let rest = rows.skip(1);
        let tail = strung(rest);
        assert(plain(first));
        assert(s =~= first.push('\n') + tail);
        lemma_next_break_first(s, first.len() as int);
        assert(s.subrange(0, first.len() as int) =~= first);
        assert(strip_cr(first) == first);
        lemma_lines_shift(s, first.len() as int + 1);
        assert(s.skip(first.len() as int + 1) =~= tail);
        assert forall|i: int| 0 <= i < rest.len() implies plain(#[trigger] rest[i]) by {
            assert(rest[i] == rows[i + 1]);
        }
        lemma_lines_of_strung(rest);
        assert(rest.last() == rows.last());
        if rows.last().len() == 0 {
            assert(seq![first] + rest.drop_last() =~= rows.drop_last());
        } else {
            assert(seq![first] + rest =~= rows);
        }
    }
}

/// The cells of a maze that is drawn as text, with a line for every row,
/// and read again, line by line, are the cells of the maze.
pub proof fn lemma_drawn_round_trip(rows: Seq<Vec<Cell>>)
    ensures
        !has_unknown(grid_of(split_lines(joined(drawn(rows), '\n')))),
        classified(grid_of(split_lines(joined(drawn(rows), '\n'))), cells_of(rows)),
{
    let pictures = drawn(rows);
    let read = split_lines(joined(pictures, '\n'));
    let g = grid_of(read);
    lemma_joined_is_strung(pictures);
    assert forall|i: int| 0 <= i < pictures.len() implies plain(#[trigger] pictures[i]) by {
        assert forall|x: int| 0 <= x < pictures[i].len() implies #[trigger] pictures[i][x] != '\n'
            && pictures[i][x] != '\r' by {
            assert(pictures[i][x] == symbol(rows[i][x]));
        }
    }
    lemma_lines_of_strung(pictures);
    assert forall|p: Point| g.contains_key(p) <==> cells_of(rows).contains_key(p) by {
        if cells_of(rows).contains_key(p) {
            assert(pictures[p.y as int].len() == rows[p.y as int].len());
            assert(read[p.y as int] == pictures[p.y as int]);
        }
        if g.contains_key(p) {
            assert(read[p.y as int] == pictures[p.y as int]);
        }
    }
    assert forall|p: Point| #[trigger] g.contains_key(p) implies classify(g[p]) == Some(
        cells_of(rows)[p],
    ) by {
        assert(read[p.y as int] == pictures[p.y as int]);
        assert(pictures[p.y as int][p.x as int] == symbol(rows[p.y as int][p.x as int]));
    }
    assert(cells_of(rows).dom() =~= g.dom());
}

/// Reading the text that `render` draws of a maze gives cells of the same
/// kinds as the maze has, at the same places.
pub proof fn law_render_round_trip(maze: Maze)
    ensures
        !has_unknown(grid_of(split_lines(maze.rendering()))),
        classified(grid_of(split_lines(maze.rendering())), maze@.cells),
{
    maze.lemma_rendering();
    let rows = choose|rows: Seq<Vec<Cell>>|
        #![trigger cells_of(rows)]
        cells_of(rows) == maze@.cells && maze.rendering() == joined(drawn(rows), '\n');
    lemma_drawn_round_trip(rows);
}

} // verus!

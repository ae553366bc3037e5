//! Grids: cells side by side in rows, and items in two columns.

use crate::layout::{
    is_closed, law_width_of_joined, law_width_of_plain, repeat, repeated, strip_ansi, width_of, Place,
};
use crate::text::texts;
use vstd::prelude::*;

verus! {

// ---------------------------------------------------------------------------
// Cells
// ---------------------------------------------------------------------------

/// A row of cells: a separator stands behind each that is not in the last column.
pub open spec fn row_text(cells: Seq<Seq<char>>, cols: nat) -> Seq<char>
    decreases cells.len(),
{
    if cells.len() == 0 {
        Seq::empty()
    } else {
        let front = row_text(cells.drop_last(), cols) + cells.last();
        if cells.len() < cols {
            front + " | "@
        } else {
            front
        }
    }
}

/// The rows of a grid with so many columns.
pub open spec fn grid_rows(cells: Seq<Seq<char>>, cols: nat) -> Seq<Seq<char>>
    decreases cells.len(),
{
    if cells.len() == 0 || cols == 0 {
        Seq::empty()
    } else if cells.len() <= cols {
        seq![row_text(cells, cols)]
    } else {
        seq![row_text(cells.take(cols as int), cols)] + grid_rows(cells.skip(cols as int), cols)
    }
}

/// The rows of a grid with so many columns.
pub fn grid(cells: &Vec<String>, cols: usize) -> (r: Vec<String>)
    requires
        cols > 0,
    ensures
        texts(r@) == grid_rows(texts(cells@), cols as nat),
{
    let ghost all = texts(cells@);
    let n: usize = cells.len();
    let mut r: Vec<String> = Vec::new();
    let mut start: usize = 0;
    proof {
        assert(all.skip(0) =~= all);
        assert(texts(r@) =~= Seq::empty());
        assert(Seq::<Seq<char>>::empty() + grid_rows(all, cols as nat) =~= grid_rows(all, cols as nat));
    }
    while start < n
        invariant
            start <= n == cells.len(),
            cols > 0,
            all == texts(cells@),
            texts(r@) + grid_rows(all.skip(start as int), cols as nat) == grid_rows(all, cols as nat),
        decreases n - start,
    {
        let end: usize = if n - start <= cols {
            n
        } else {
            start + cols
        };
        let ghost rest = all.skip(start as int);
        let ghost before = r@;
        let mut row = String::new();
        let mut i: usize = start;
        proof {
            assert(rest.take(0) =~= Seq::empty());
            assert(row@ =~= Seq::empty());
        }
        while i < end
            invariant
                start <= i <= end <= n == cells.len(),
                end - start <= cols,
                all == texts(cells@),
                rest == all.skip(start as int),
                row@ == row_text(rest.take(i - start), cols as nat),
            decreases end - i,
        {
            proof {
                assert(rest.take(i + 1 - start).drop_last() =~= rest.take(i - start));
                assert(rest.take(i + 1 - start).last() == cells@[i as int]@);
            }
            row.append(cells[i].as_str());
            if i - start + 1 < cols {
                row.append(" | ");
            }
            i = i + 1;
        }
        proof {
            assert(texts(before.push(row)) =~= texts(before).push(row@));
            if end == n {
                assert(rest.take(end - start) =~= rest);
                assert(all.skip(n as int).len() == 0);
                if rest.len() == cols {
                    assert(grid_rows(rest, cols as nat) =~= seq![row@]);
                }
                assert(texts(before).push(row@) + grid_rows(all.skip(n as int), cols as nat) =~= texts(before)
                    + grid_rows(rest, cols as nat));
            } else {
                assert(rest.skip(cols as int) =~= all.skip(end as int));
                assert(texts(before).push(row@) + grid_rows(all.skip(end as int), cols as nat) =~= texts(before)
                    + grid_rows(rest, cols as nat));
            }
        }
        r.push(row);
        start = end;
    }
    proof {
        assert(all.skip(n as int).len() == 0);
        assert(texts(r@) + grid_rows(all.skip(n as int), cols as nat) =~= texts(r@));
    }
    r
}

/// The least width of a cell.
pub const MIN_CELL_WIDTH: u16 = 17;

/// The columns of a grid: as many as fit, but no more than there are cells, and at
/// least one.
pub open spec fn columns(width: nat, cells: nat) -> nat {
    let fit = if width / MIN_CELL_WIDTH as nat >= 1 {
        width / MIN_CELL_WIDTH as nat
    } else {
        1
    };
    if cells == 0 {
        1
    } else if cells < fit {
        cells
    } else {
        fit
    }
}

/// The columns of a grid.
pub fn column_count(width: u16, cells: usize) -> (r: usize)
    ensures
        r == columns(width as nat, cells as nat),
        r > 0,
{
    let fit: usize = if width / MIN_CELL_WIDTH >= 1 {
        (width / MIN_CELL_WIDTH) as usize
    } else {
        1
    };
    if cells == 0 {
        1
    } else if cells < fit {
        cells
    } else {
        fit
    }
}

// ---------------------------------------------------------------------------
// Two columns
// ---------------------------------------------------------------------------

/// The width of the widest of every second item, the first one among them.
pub open spec fn first_width(items: Seq<Seq<char>>) -> nat
    decreases items.len(),
{
    if items.len() == 0 {
        0
    } else {
        let front = first_width(items.drop_last());
        let w = width_of(items.last());
        if items.len() % 2 == 1 && w > front {
            w
        } else {
            front
        }
    }
}

/// The spaces behind an item that fill its column.
pub open spec fn filler(item: Seq<char>, width: nat) -> Seq<char> {
    let w = width_of(item);
    repeated(
        ' ',
        if w < width {
            (width - w) as nat
        } else {
            0
        },
    )
}

/// Items in rows: two side by side where they fit, else one.
pub open spec fn pair_rows(items: Seq<Seq<char>>, first: nat, width: nat) -> Seq<Seq<char>>
    decreases items.len(),
{
    if items.len() == 0 {
        Seq::empty()
    } else if items.len() >= 2 && first + 3 + width_of(items[1]) <= width {
        seq![items[0] + filler(items[0], first) + " | "@ + items[1]] + pair_rows(items.skip(2), first, width)
    } else {
        seq![items[0]] + pair_rows(items.skip(1), first, width)
    }
}

/// Items in rows of two columns, the first as wide as the widest item that is meant
/// for it.
pub open spec fn two_columns(items: Seq<Seq<char>>, width: nat) -> Seq<Seq<char>> {
    pair_rows(items, first_width(items), width)
}

/// Items in rows of two columns.
pub fn aligned_2col_grid(items: &Vec<String>, width: u16) -> (r: Vec<String>)
    ensures
        texts(r@) == two_columns(texts(items@), width as nat),
{
    let ghost all = texts(items@);
    let n: usize = items.len();
    let mut first: usize = 0;
    let mut k: usize = 0;
    proof {
        assert(all.take(0) =~= Seq::empty());
    }
    while k < n
        invariant
            k <= n == items.len(),
            all == texts(items@),
            first == first_width(all.take(k as int)),
        decreases n - k,
    {
        proof {
            assert(all.take(k + 1).drop_last() =~= all.take(k as int));
            assert(all.take(k + 1).last() == items@[k as int]@);
        }
        if k % 2 == 0 {
            let w: usize = strip_ansi(items[k].as_str());
            if w > first {
                first = w;
            }
        }
        k = k + 1;
    }
    proof {
        assert(all.take(n as int) =~= all);
        assert(all.skip(0) =~= all);
    }
    let mut r: Vec<String> = Vec::new();
    let mut i: usize = 0;
    let ghost whole = two_columns(all, width as nat);
    proof {
        assert(texts(r@) + pair_rows(all, first as nat, width as nat) =~= whole);
    }
    while i < n
        invariant
            i <= n == items.len(),
            all == texts(items@),
            texts(r@) + pair_rows(all.skip(i as int), first as nat, width as nat) == whole,
        decreases n - i,
    {
        let ghost rest = all.skip(i as int);
        let ghost before = r@;
        proof {
            assert(rest[0] == items@[i as int]@);
        }
        let mut step: usize = 1;
        let mut row = items[i].clone();
        if n - i >= 2 {
            proof {
                assert(rest[1] == items@[i + 1]@);
            }
            let second: usize = strip_ansi(items[i + 1].as_str());
            if first as u128 + 3 + second as u128 <= width as u128 {
                let own: usize = strip_ansi(row.as_str());
                let gap: usize = if own < first {
                    first - own
                } else {
                    0
                };
                row.append(repeat(' ', gap).as_str());
                row.append(" | ");
                row.append(items[i + 1].as_str());
                step = 2;
            }
        }
        proof {
            assert(texts(before.push(row)) =~= texts(before).push(row@));
            assert(rest.skip(step as int) =~= all.skip(i + step));
            assert(texts(before).push(row@) + pair_rows(all.skip(i + step), first as nat, width as nat) =~= texts(
                before,
            ) + pair_rows(rest, first as nat, width as nat));
        }
        r.push(row);
        i = i + step;
    }
    proof {
        assert(all.skip(n as int).len() == 0);
        assert(texts(r@) + pair_rows(all.skip(n as int), first as nat, width as nat) =~= texts(r@));
    }
    r
}

// ---------------------------------------------------------------------------
// Laws
// ---------------------------------------------------------------------------

/// Every cell has its place: there are as many rows as the cells fill.
pub proof fn law_grid_holds_all_cells(cells: Seq<Seq<char>>, cols: nat)
    requires
        cols > 0,
    ensures
        grid_rows(cells, cols).len() == (cells.len() + cols - 1) / cols as int,
    decreases cells.len(),
{
    if cells.len() == 0 {
        vstd::arithmetic::div_mod::lemma_basic_div(cols - 1, cols as int);
    } else if cells.len() <= cols {
        vstd::arithmetic::div_mod::lemma_fundamental_div_mod_converse(
            cells.len() + cols - 1,
            cols as int,
            1,
            cells.len() - 1,
        );
    } else {
        law_grid_holds_all_cells(cells.skip(cols as int), cols);
        vstd::arithmetic::div_mod::lemma_div_plus_one(cells.len() - 1, cols as int);
        assert(cells.skip(cols as int).len() + cols - 1 == cells.len() - 1);
    }
}

/// Two columns take no more rows than there are items, and no fewer than half of
/// them.
pub proof fn law_two_columns_hold_all_items(items: Seq<Seq<char>>, first: nat, width: nat)
    ensures
        items.len() <= 2 * pair_rows(items, first, width).len(),
        pair_rows(items, first, width).len() <= items.len(),
    decreases items.len(),
{
    if items.len() > 0 {
        if items.len() >= 2 && first + 3 + width_of(items[1]) <= width {
            law_two_columns_hold_all_items(items.skip(2), first, width);
        } else {
            law_two_columns_hold_all_items(items.skip(1), first, width);
        }
    }
}

/// Two items side by side fit the screen, and the second starts at the same column
/// in every such row.
pub proof fn law_pair_fits(a: Seq<char>, b: Seq<char>, first: nat, width: nat)
    requires
        is_closed(a),
        width_of(a) <= first,
        first + 3 + width_of(b) <= width,
    ensures
        width_of(a + filler(a, first) + " | "@) == first + 3,
        width_of(a + filler(a, first) + " | "@ + b) <= width,
{
    reveal_strlit(" | ");
    let gap = filler(a, first);
    law_width_of_plain(gap);
    law_width_of_plain(" | "@);
    law_width_of_joined(a, gap, Place::Plain);
    law_width_of_joined(a + gap, " | "@, Place::Plain);
    law_width_of_joined(a + gap + " | "@, b, Place::Plain);
}

} // verus!

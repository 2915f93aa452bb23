//! Tables keyed by positions: lists of entries, each a board with a value, in
//! which the first entry for a board counts. The table of the positions that a
//! game has gone through, each with the number of its occurrences, is one.

use vstd::prelude::*;
use crate::board::{cell_at, get_cell, lemma_board_ext, on_grid, Board};

verus! {

/// The value that the table `t` holds for the board `b`: that of the first entry
/// for `b`, if there is one.
pub open spec fn entry_of<V>(t: Seq<(Board, V)>, b: Board) -> Option<V>
    decreases t.len(),
{
    if t.len() == 0 {
        None
    } else if t[0].0 == b {
        Some(t[0].1)
    } else {
        entry_of(t.subrange(1, t.len() as int), b)
    }
}

/// The number of occurrences that the table `t` holds for the board `b`, 0 where
/// it has no entry for `b`.
pub open spec fn table_count(t: Seq<(Board, u8)>, b: Board) -> nat {
    match entry_of(t, b) {
        Some(n) => n as nat,
        None => 0,
    }
}

/// A count one higher, as far as a `u8` can hold it.
pub open spec fn bumped_u8(n: nat) -> nat {
    if n < 255 {
        n + 1
    } else {
        255
    }
}

/// A table without an entry for `b` holds nothing for it.
pub proof fn lemma_entry_absent<V>(t: Seq<(Board, V)>, b: Board)
    requires
        forall|j: int| 0 <= j < t.len() ==> (#[trigger] t[j]).0 != b,
    ensures
        entry_of(t, b) is None,
    decreases t.len(),
{
    if t.len() > 0 {
        let rest = t.subrange(1, t.len() as int);
        assert forall|j: int| 0 <= j < rest.len() implies (#[trigger] rest[j]).0 != b by {
            assert(rest[j] == t[j + 1]);
        }
        lemma_entry_absent(rest, b);
    }
}

/// The first entry for `b` gives the value of `b`.
pub proof fn lemma_entry_found<V>(t: Seq<(Board, V)>, i: int, b: Board)
    requires
        0 <= i < t.len(),
        t[i].0 == b,
        forall|j: int| 0 <= j < i ==> (#[trigger] t[j]).0 != b,
    ensures
        entry_of(t, b) == Some(t[i].1),
    decreases i,
{
    if i > 0 {
        let rest = t.subrange(1, t.len() as int);
        assert(t[0].0 != b);
        assert forall|j: int| 0 <= j < i - 1 implies (#[trigger] rest[j]).0 != b by {
            assert(rest[j] == t[j + 1]);
        }
        assert(rest[i - 1] == t[i]);
        lemma_entry_found(rest, i - 1, b);
    }
}

/// Replacing the value in the first entry for `b` changes the value of `b` alone.
pub proof fn lemma_entry_update<V>(t: Seq<(Board, V)>, i: int, b: Board, v: V, c: Board)
    requires
        0 <= i < t.len(),
        t[i].0 == b,
        forall|j: int| 0 <= j < i ==> (#[trigger] t[j]).0 != b,
    ensures
        entry_of(t.update(i, (b, v)), c) == (if c == b {
            Some(v)
        } else {
            entry_of(t, c)
        }),
    decreases i,
{
    let u = t.update(i, (b, v));
    if i > 0 {
        let rest = t.subrange(1, t.len() as int);
        assert(t[0].0 != b);
        assert forall|j: int| 0 <= j < i - 1 implies (#[trigger] rest[j]).0 != b by {
            assert(rest[j] == t[j + 1]);
        }
        assert(rest[i - 1] == t[i]);
        lemma_entry_update(rest, i - 1, b, v, c);
        assert(u.subrange(1, u.len() as int) =~= rest.update(i - 1, (b, v)));
        assert(u[0] == t[0]);
    } else {
        assert(u.subrange(1, u.len() as int) =~= t.subrange(1, t.len() as int));
    }
}

/// Appending an entry for a board that has none changes the value of that board alone.
pub proof fn lemma_entry_push<V>(t: Seq<(Board, V)>, b: Board, v: V, c: Board)
    requires
        forall|j: int| 0 <= j < t.len() ==> (#[trigger] t[j]).0 != b,
    ensures
        entry_of(t.push((b, v)), c) == (if c == b {
            Some(v)
        } else {
            entry_of(t, c)
        }),
    decreases t.len(),
{
    let u = t.push((b, v));
    let tail = u.subrange(1, u.len() as int);
    if t.len() > 0 {
        let rest = t.subrange(1, t.len() as int);
        assert forall|j: int| 0 <= j < rest.len() implies (#[trigger] rest[j]).0 != b by {
            assert(rest[j] == t[j + 1]);
        }
        lemma_entry_push(rest, b, v, c);
        assert(tail =~= rest.push((b, v)));
        assert(u[0] == t[0]);
        assert(t[0].0 != b);
        if t[0].0 != c {
            assert(entry_of(u, c) == entry_of(tail, c));
            assert(entry_of(t, c) == entry_of(rest, c));
        }
    } else {
        assert(tail =~= Seq::<(Board, V)>::empty());
        assert(u[0] == (b, v));
        assert(entry_of(tail, c) is None);
        assert(entry_of(t, c) is None);
    }
}

/// Whether two boards hold the same value in every cell.
pub fn boards_equal(a: &Board, b: &Board) -> (same: bool)
    ensures
        same == (*a == *b),
{
    for x in 0..11usize
        invariant
            forall|i: int, j: int|
                0 <= i < x && 0 <= j < 11 ==> cell_at(*a, i, j) == cell_at(*b, i, j),
    {
        for y in 0..11usize
            invariant
                x < 11,
                forall|i: int, j: int|
                    0 <= i < x && 0 <= j < 11 ==> cell_at(*a, i, j) == cell_at(*b, i, j),
                forall|j: int| 0 <= j < y ==> cell_at(*a, x as int, j) == cell_at(*b, x as int, j),
        {
            if get_cell(a, x, y) != get_cell(b, x, y) {
                return false;
            }
        }
    }
    proof {
        lemma_board_ext(*a, *b);
    }
    true
}

/// The place of the first entry for `b` in the table, if there is one.
pub fn find_entry<V>(table: &Vec<(Board, V)>, b: &Board) -> (place: Option<usize>)
    ensures
        match place {
            Some(i) => i < table.len() && table@[i as int].0 == *b && entry_of(table@, *b) == Some(
                table@[i as int].1,
            ) && forall|j: int| 0 <= j < i ==> (#[trigger] table@[j]).0 != *b,
            None => entry_of(table@, *b) is None && forall|j: int|
                0 <= j < table.len() ==> (#[trigger] table@[j]).0 != *b,
        },
{
    for i in 0..table.len()
        invariant
            forall|j: int| 0 <= j < i ==> (#[trigger] table@[j]).0 != *b,
    {
        if boards_equal(&table[i].0, b) {
            proof {
                lemma_entry_found(table@, i as int, *b);
            }
            return Some(i);
        }
    }
    proof {
        lemma_entry_absent(table@, *b);
    }
    None
}

/// The number of occurrences that the table holds for `b`.
pub fn occurrences(table: &Vec<(Board, u8)>, b: &Board) -> (n: u8)
    ensures
        n == table_count(table@, *b),
{
    match find_entry(table, b) {
        Some(i) => table[i].1,
        None => 0,
    }
}

/// Counts one more occurrence of `b`. A count stays at 255 once it is there.
pub fn record_occurrence(table: &mut Vec<(Board, u8)>, b: Board)
    ensures
        forall|c: Board|
            #[trigger] table_count(final(table)@, c) == (if c == b {
                bumped_u8(table_count(old(table)@, b))
            } else {
                table_count(old(table)@, c)
            }),
{
    let ghost before = table@;
    match find_entry(table, &b) {
        Some(i) => {
            let n = table[i].1;
            let m: u8 = if n < 255 {
                n + 1
            } else {
                n
            };
            table[i] = (b, m);
            proof {
                assert(table@ == before.update(i as int, (b, m)));
                assert forall|c: Board|
                    #[trigger] table_count(table@, c) == (if c == b {
                        bumped_u8(table_count(before, b))
                    } else {
                        table_count(before, c)
                    }) by {
                    lemma_entry_update(before, i as int, b, m, c);
                }
            }
        },
        None => {
            table.push((b, 1));
            proof {
                assert forall|c: Board|
                    #[trigger] table_count(table@, c) == (if c == b {
                        bumped_u8(table_count(before, b))
                    } else {
                        table_count(before, c)
                    }) by {
                    lemma_entry_push(before, b, 1u8, c);
                }
            }
        },
    }
}

} // verus!

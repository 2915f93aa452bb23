//! Moves of marbles that a player has picked by hand: what the selected marbles
//! can do in each direction, and which cells a move has changed.

use vstd::prelude::*;
use crate::board::{cell_at, get_cell, has_frame, lemma_perspective_keeps_valid, on_grid, switched,
    Board, BLACK, EMPTY, WHITE};
use crate::coord::{Coord, MarbleMove};
use crate::game::AbaloneGame;
use crate::moves::{broadside_board, broadside_move, direction, direction_of, inline_board,
    inline_move};

verus! {

/// Row-major order of coordinates: by row, then by column.
pub open spec fn precedes(a: Coord, b: Coord) -> bool {
    a.x < b.x || (a.x == b.x && a.y <= b.y)
}

/// Up to three coordinates in row-major order.
pub open spec fn ordered(s: Seq<Coord>) -> Seq<Coord> {
    if s.len() == 2 {
        if precedes(s[0], s[1]) {
            s
        } else {
            seq![s[1], s[0]]
        }
    } else if s.len() == 3 {
        let lo = if precedes(s[0], s[1]) {
            s[0]
        } else {
            s[1]
        };
        let hi = if precedes(s[0], s[1]) {
            s[1]
        } else {
            s[0]
        };
        if precedes(hi, s[2]) {
            seq![lo, hi, s[2]]
        } else if precedes(lo, s[2]) {
            seq![lo, s[2], hi]
        } else {
            seq![s[2], lo, hi]
        }
    } else {
        s
    }
}

/// Whether `c` is the cell `i` steps from `first` in direction `d`.
pub open spec fn is_at(c: Coord, first: Coord, d: MarbleMove, i: int) -> bool {
    c.x == first.x + i * d.dx && c.y == first.y + i * d.dy
}

/// Whether the ordered coordinates `s`, two or three, are neighbours in a row
/// along the direction with the number `a`.
pub open spec fn in_row(s: Seq<Coord>, a: int) -> bool {
    &&& is_at(s[1], s[0], direction(a), 1)
    &&& (s.len() == 3 ==> is_at(s[2], s[0], direction(a), 2))
}

/// The number, 0, 1 or 2, of the direction along which the ordered coordinates `s`
/// stand in a row, if they do.
pub open spec fn row_axis(s: Seq<Coord>) -> Option<int> {
    if in_row(s, 0) {
        Some(0)
    } else if in_row(s, 1) {
        Some(1)
    } else if in_row(s, 2) {
        Some(2)
    } else {
        None
    }
}

/// The board that the marbles on the ordered coordinates `s` reach by a move in
/// the direction with the number `m`, on a board on which the side to move is
/// white; `None` where that is no legal move. One marble steps to an empty
/// neighbour. Two or three have to stand in a row: along the row they move in
/// line, with the front marble first, and in the other directions sideways.
pub open spec fn selection_move(b: Board, s: Seq<Coord>, m: int) -> Option<Board> {
    let d = direction(m);
    let n = s.len() as int;
    let first = s[0];
    let last = s[n - 1];
    if n == 1 {
        broadside_move(b, first.x as int, first.y as int, d, d, 1)
    } else if n != 2 && n != 3 {
        None
    } else {
        match row_axis(s) {
            None => None,
            Some(a) => if m == a {
                inline_move(b, last.x as int, last.y as int, d, n)
            } else if m == a + 3 {
                inline_move(b, first.x as int, first.y as int, d, n)
            } else {
                broadside_move(b, first.x as int, first.y as int, d, direction(a), n)
            },
        }
    }
}

/// A board on which the side to move is white, with the colours of the table again.
pub open spec fn recoloured(black_to_move: bool, b: Board) -> Board {
    if black_to_move {
        switched(b)
    } else {
        b
    }
}

/// The moves of the selection `s` in the first `n` directions: each direction in
/// which the selection can move, with the board reached, in the colours of the
/// table.
pub open spec fn selection_moves_upto(b: Board, s: Seq<Coord>, black_to_move: bool, n: int)
    -> Seq<(MarbleMove, Board)>
    decreases n,
{
    if n <= 0 {
        Seq::empty()
    } else {
        let before = selection_moves_upto(b, s, black_to_move, n - 1);
        match selection_move(b, ordered(s), n - 1) {
            Some(after) => before.push((direction(n - 1), recoloured(black_to_move, after))),
            None => before,
        }
    }
}

/// Brings up to three coordinates into row-major order.
pub fn sort_selection(coords: &mut Vec<Coord>)
    requires
        old(coords).len() <= 3,
    ensures
        final(coords)@ == ordered(old(coords)@),
{
    if coords.len() == 2 {
        let a = coords[0];
        let b = coords[1];
        if !(a <= b) {
            coords[0] = b;
            coords[1] = a;
            assert(coords@ =~= seq![b, a]);
        }
    } else if coords.len() == 3 {
        let a = coords[0];
        let b = coords[1];
        let c = coords[2];
        let lo = if a <= b {
            a
        } else {
            b
        };
        let hi = if a <= b {
            b
        } else {
            a
        };
        if hi <= c {
            coords[0] = lo;
            coords[1] = hi;
            assert(coords@ =~= seq![lo, hi, c]);
        } else if lo <= c {
            coords[0] = lo;
            coords[1] = c;
            coords[2] = hi;
            assert(coords@ =~= seq![lo, c, hi]);
        } else {
            coords[0] = c;
            coords[1] = lo;
            coords[2] = hi;
            assert(coords@ =~= seq![c, lo, hi]);
        }
    }
}

/// Whether `c` is the cell `i` steps from `first` in direction `d`.
fn stands_at(c: Coord, first: Coord, d: MarbleMove, i: usize) -> (r: bool)
    requires
        on_grid(c.x as int, c.y as int),
        on_grid(first.x as int, first.y as int),
        d.is_step(),
        1 <= i <= 2,
    ensures
        r == is_at(c, first, d, i as int),
{
    let dx: i16 = if i == 1 {
        d.dx as i16
    } else {
        d.dx as i16 + d.dx as i16
    };
    let dy: i16 = if i == 1 {
        d.dy as i16
    } else {
        d.dy as i16 + d.dy as i16
    };
    c.x as i16 == first.x as i16 + dx && c.y as i16 == first.y as i16 + dy
}

/// The direction along which the ordered coordinates stand in a row, if they do.
fn find_axis(s: &Vec<Coord>) -> (axis: Option<usize>)
    requires
        2 <= s.len() <= 3,
        forall|i: int| 0 <= i < s.len() ==> on_grid((#[trigger] s@[i]).x as int, s@[i].y as int),
    ensures
        match axis {
            Some(a) => row_axis(s@) == Some(a as int),
            None => row_axis(s@) is None,
        },
{
    for a in 0..3usize
        invariant
            2 <= s.len() <= 3,
            forall|i: int|
                0 <= i < s.len() ==> on_grid((#[trigger] s@[i]).x as int, s@[i].y as int),
            forall|k: int| 0 <= k < a ==> !in_row(s@, k),
    {
        let d = direction_of(a);
        assert(on_grid(s@[0].x as int, s@[0].y as int));
        assert(on_grid(s@[1].x as int, s@[1].y as int));
        if stands_at(s[1], s[0], d, 1) {
            if s.len() == 2 {
                return Some(a);
            }
            assert(on_grid(s@[2].x as int, s@[2].y as int));
            if stands_at(s[2], s[0], d, 2) {
                return Some(a);
            }
        }
    }
    None
}

/// The board that the marbles on the ordered coordinates reach by a move in the
/// direction with the number `m`.
fn selection_board(b: &Board, s: &Vec<Coord>, axis: Option<usize>, m: usize) -> (r: Option<Board>)
    requires
        has_frame(*b),
        1 <= s.len() <= 3,
        forall|i: int| 0 <= i < s.len() ==> on_grid((#[trigger] s@[i]).x as int, s@[i].y as int),
        m < 6,
        s.len() >= 2 ==> match axis {
            Some(a) => row_axis(s@) == Some(a as int),
            None => row_axis(s@) is None,
        },
    ensures
        r == selection_move(*b, s@, m as int),
{
    let d = direction_of(m);
    let n = s.len();
    assert(on_grid(s@[0].x as int, s@[0].y as int));
    assert(on_grid(s@[n - 1].x as int, s@[n - 1].y as int));
    if n == 1 {
        return broadside_board(b, s[0], d, d, 1);
    }
    match axis {
        None => None,
        Some(a) => {
            if m == a {
                inline_board(b, s[n - 1], d, n)
            } else if m == a + 3 {
                inline_board(b, s[0], d, n)
            } else {
                broadside_board(b, s[0], d, direction_of(a), n)
            }
        },
    }
}

/// Whether each of the coordinates names a cell of the grid.
fn all_on_grid(s: &Vec<Coord>) -> (r: bool)
    ensures
        r == forall|i: int|
            0 <= i < s.len() ==> on_grid((#[trigger] s@[i]).x as int, s@[i].y as int),
{
    for i in 0..s.len()
        invariant
            forall|j: int| 0 <= j < i ==> on_grid((#[trigger] s@[j]).x as int, s@[j].y as int),
    {
        if s[i].x >= 11 || s[i].y >= 11 {
            assert(!on_grid(s@[i as int].x as int, s@[i as int].y as int));
            return false;
        }
    }
    true
}

/// A selection with a coordinate beyond the grid has no move.
proof fn lemma_off_grid_selection(b: Board, s: Seq<Coord>, m: int)
    requires
        1 <= s.len() <= 3,
        exists|i: int| 0 <= i < s.len() && !on_grid((#[trigger] s[i]).x as int, s[i].y as int),
    ensures
        selection_move(b, s, m) is None,
{
    let i = choose|i: int| 0 <= i < s.len() && !on_grid((#[trigger] s[i]).x as int, s[i].y as int);
    assert(cell_at(b, s[i].x as int, s[i].y as int) != WHITE);
}

impl AbaloneGame {
    /// The position with the side to move in white, every marble in its place.
    pub open spec fn switched_pov(&self) -> Board {
        recoloured(self.black_to_move(), self.position())
    }

    /// The moves of the marbles of the side to move that stand on `start_coords`:
    /// for each of the six directions in which they can move, in the order of the
    /// directions, the direction and the position reached, in the colours of the
    /// table. One, two or three marbles can be moved; two or three have to stand in
    /// a row. Where the coordinates name anything else, there is no move.
    pub fn calc_coord_moves(&self, start_coords: Vec<Coord>) -> (moves: Vec<(MarbleMove, Board)>)
        requires
            self.wf(),
        ensures
            moves@ == selection_moves_upto(
                self.switched_pov(),
                start_coords@,
                self.black_to_move(),
                6,
            ),
    {
        let ghost given = start_coords@;
        let mut coords = start_coords;
        let mut results: Vec<(MarbleMove, Board)> = Vec::new();
        let black = self.get_black_tomove();
        let b = self.get_switched_state();
        proof {
            self.lemma_wf();
            lemma_perspective_keeps_valid(self.position());
        }
        let n = coords.len();
        if n == 0 || n > 3 {
            proof {
                lemma_no_selection(b, given, black, 6);
            }
            return results;
        }
        sort_selection(&mut coords);
        if !all_on_grid(&coords) {
            proof {
                lemma_off_grid_moves(b, given, black, 6);
            }
            return results;
        }
        let axis = if n >= 2 {
            find_axis(&coords)
        } else {
            None
        };
        for m in 0..6usize
            invariant
                has_frame(b),
                coords@ == ordered(given),
                1 <= coords.len() <= 3,
                forall|i: int|
                    0 <= i < coords.len() ==> on_grid(
                        (#[trigger] coords@[i]).x as int,
                        coords@[i].y as int,
                    ),
                coords.len() >= 2 ==> match axis {
                    Some(a) => row_axis(coords@) == Some(a as int),
                    None => row_axis(coords@) is None,
                },
                results@ == selection_moves_upto(b, given, black, m as int),
        {
            match selection_board(&b, &coords, axis, m) {
                Some(after) => {
                    let shown = if black {
                        Self::switch_colors(after)
                    } else {
                        after
                    };
                    results.push((direction_of(m), shown));
                },
                None => {},
            }
        }
        results
    }
}

/// A selection of no marble, or of more than three, has no move.
proof fn lemma_no_selection(b: Board, s: Seq<Coord>, black: bool, n: int)
    requires
        s.len() == 0 || s.len() > 3,
    ensures
        selection_moves_upto(b, s, black, n) == Seq::<(MarbleMove, Board)>::empty(),
    decreases n,
{
    if n > 0 {
        lemma_no_selection(b, s, black, n - 1);
    }
}

/// A selection with a coordinate beyond the grid has no move.
proof fn lemma_off_grid_moves(b: Board, s: Seq<Coord>, black: bool, n: int)
    requires
        1 <= s.len() <= 3,
        exists|i: int|
            0 <= i < s.len() && !on_grid((#[trigger] ordered(s)[i]).x as int, ordered(s)[i].y as int),
    ensures
        selection_moves_upto(b, s, black, n) == Seq::<(MarbleMove, Board)>::empty(),
    decreases n,
{
    if n > 0 {
        lemma_off_grid_moves(b, s, black, n - 1);
        lemma_off_grid_selection(b, ordered(s), n - 1);
    }
}

/// The cell with the number `n` in row-major order.
pub open spec fn nth_cell(n: int) -> Coord {
    Coord { x: (n / 11) as usize, y: (n % 11) as usize }
}

/// Whether the boards `own` and `other` differ in the cell with the number `n`.
pub open spec fn differs_at(own: Board, other: Board, n: int) -> bool {
    cell_at(own, n / 11, n % 11) != cell_at(other, n / 11, n % 11)
}

/// The marks after the first `n` cells: to `marked` each cell in which the boards
/// differ is added once, in row-major order.
pub open spec fn marked_upto(own: Board, other: Board, marked: Seq<Coord>, n: int) -> Seq<Coord>
    decreases n,
{
    if n <= 0 {
        marked
    } else {
        let before = marked_upto(own, other, marked, n - 1);
        if differs_at(own, other, n - 1) && !before.contains(nth_cell(n - 1)) {
            before.push(nth_cell(n - 1))
        } else {
            before
        }
    }
}

/// Whether, among the first `n` cells, a marble of colour `enemy` on `own` stands
/// on a cell in which the boards differ.
pub open spec fn enemy_moved_upto(own: Board, other: Board, enemy: i8, n: int) -> bool
    decreases n,
{
    if n <= 0 {
        false
    } else {
        enemy_moved_upto(own, other, enemy, n - 1) || (differs_at(own, other, n - 1) && cell_at(
            own,
            (n - 1) / 11,
            (n - 1) % 11,
        ) == enemy)
    }
}

/// The last of the first `n` cells in which the boards differ and which is empty
/// on `other`; the cell (1, 1) where there is none.
pub open spec fn origin_upto(own: Board, other: Board, n: int) -> Coord
    decreases n,
{
    if n <= 0 {
        Coord { x: 1, y: 1 }
    } else if differs_at(own, other, n - 1) && cell_at(other, (n - 1) / 11, (n - 1) % 11)
        == EMPTY {
        nth_cell(n - 1)
    } else {
        origin_upto(own, other, n - 1)
    }
}

/// Whether the neighbour of `origin` in the direction with the number `m` is marked.
pub open spec fn neighbour_marked(marked: Seq<Coord>, origin: Coord, m: int) -> bool {
    let d = direction(m);
    &&& origin.x + d.dx >= 0
    &&& origin.y + d.dy >= 0
    &&& marked.contains(Coord { x: (origin.x + d.dx) as usize, y: (origin.y + d.dy) as usize })
}

/// The first direction, from the one with the number `m` on, in which the
/// neighbour of `origin` is marked.
pub open spec fn marked_direction(marked: Seq<Coord>, origin: Coord, m: int) -> Option<int>
    decreases 6 - m,
{
    if m >= 6 {
        None
    } else if neighbour_marked(marked, origin, m) {
        Some(m)
    } else {
        marked_direction(marked, origin, m + 1)
    }
}

/// The marks of a move from `own` to `other`, where `marked` held the selected
/// marbles: every cell in which the boards differ, and, where three marbles were
/// selected and a marble of colour `enemy` has moved, the cell four steps from
/// the cell left empty, in the first direction in which its neighbour is marked,
/// if a marble of that colour stands there on `other`: the second of two marbles
/// pushed by three.
pub open spec fn marks_of_move(own: Board, other: Board, enemy: i8, marked: Seq<Coord>) -> Seq<
    Coord,
> {
    let all = marked_upto(own, other, marked, 121);
    let origin = origin_upto(own, other, 121);
    if enemy_moved_upto(own, other, enemy, 121) && marked.len() == 3 {
        match marked_direction(all, origin, 0) {
            Some(m) => {
                let d = direction(m);
                let x = origin.x + 4 * d.dx;
                let y = origin.y + 4 * d.dy;
                let far = Coord { x: x as usize, y: y as usize };
                if on_grid(x, y) && cell_at(other, x, y) == enemy && !all.contains(far) {
                    all.push(far)
                } else {
                    all
                }
            },
            None => all,
        }
    } else {
        all
    }
}

/// Whether `c` is among the coordinates.
pub fn is_marked(marked: &Vec<Coord>, c: Coord) -> (found: bool)
    ensures
        found == marked@.contains(c),
{
    for i in 0..marked.len()
        invariant
            forall|j: int| 0 <= j < i ==> marked@[j] != c,
    {
        if marked[i].x == c.x && marked[i].y == c.y {
            assert(marked@[i as int] == c);
            return true;
        }
    }
    false
}

impl AbaloneGame {
    /// The colour of the side that is not to move.
    pub open spec fn enemy_colour(&self) -> i8 {
        if self.black_to_move() {
            WHITE
        } else {
            BLACK
        }
    }

    /// Marks what a move has changed: adds to `marked`, which holds the marbles
    /// selected for the move, each cell in which `board` differs from the position,
    /// and the second of two marbles that three have pushed.
    pub fn differences_to_state(&self, board: Board, marked: &mut Vec<Coord>)
        ensures
            final(marked)@ == marks_of_move(
                self.position(),
                board,
                self.enemy_colour(),
                old(marked)@,
            ),
    {
        let own = self.get_state();
        let enemy_color = if self.get_black_tomove() {
            WHITE
        } else {
            BLACK
        };
        let init_marked = marked.len();
        let mut enemy_moved = false;
        let mut inline_origin = Coord::new(1, 1);
        for x in 0..11usize
            invariant
                marked@ == marked_upto(own, board, old(marked)@, 11 * x),
                enemy_moved == enemy_moved_upto(own, board, enemy_color, 11 * x),
                inline_origin == origin_upto(own, board, 11 * x),
                on_grid(inline_origin.x as int, inline_origin.y as int),
        {
            for y in 0..11usize
                invariant
                    x < 11,
                    marked@ == marked_upto(own, board, old(marked)@, 11 * x + y),
                    enemy_moved == enemy_moved_upto(own, board, enemy_color, 11 * x + y),
                    inline_origin == origin_upto(own, board, 11 * x + y),
                    on_grid(inline_origin.x as int, inline_origin.y as int),
            {
                let ghost n = 11 * x + y;
                assert(n / 11 == x && n % 11 == y);
                let theirs = get_cell(&board, x, y);
                let ours = get_cell(&own, x, y);
                if theirs != ours {
                    if ours == enemy_color {
                        enemy_moved = true;
                    }
                    if theirs == EMPTY {
                        inline_origin = Coord::new(x, y);
                    }
                    if !is_marked(marked, Coord::new(x, y)) {
                        marked.push(Coord::new(x, y));
                    }
                }
            }
        }
        // where three marbles have pushed two, the second pushed marble stands on a
        // cell that held its colour before
        if enemy_moved && init_marked == 3 {
            let ghost all = marked@;
            for m in 0..6usize
                invariant
                    marked@ == all,
                    on_grid(inline_origin.x as int, inline_origin.y as int),
                    marked_direction(all, inline_origin, 0) == marked_direction(
                        all,
                        inline_origin,
                        m as int,
                    ),
                    all == marked_upto(own, board, old(marked)@, 121),
                    inline_origin == origin_upto(own, board, 121),
                    enemy_moved_upto(own, board, enemy_color, 121),
                    old(marked)@.len() == 3,
                    own == self.position(),
                    enemy_color == self.enemy_colour(),
            {
                let d = direction_of(m);
                let nx: i16 = inline_origin.x as i16 + d.dx as i16;
                let ny: i16 = inline_origin.y as i16 + d.dy as i16;
                if nx >= 0 && ny >= 0 && is_marked(marked, Coord::new(nx as usize, ny as usize)) {
                    assert(neighbour_marked(all, inline_origin, m as int));
                    let fx: i16 = inline_origin.x as i16 + 4 * (d.dx as i16);
                    let fy: i16 = inline_origin.y as i16 + 4 * (d.dy as i16);
                    if 0 <= fx && fx < 11 && 0 <= fy && fy < 11 {
                        let far = Coord::new(fx as usize, fy as usize);
                        if get_cell(&board, far.x, far.y) == enemy_color && !is_marked(marked, far) {
                            marked.push(far);
                        }
                    }
                    return ;
                }
            }
        }
    }
}

} // verus!

//! The board engine: a fixed-size grid of stone states, group discovery by
//! flood fill, liberty and capture detection, and legality-checked move
//! application with undo.
use vstd::prelude::*;

use crate::go_move::GoMove;

verus! {

/// The two movers. On the grid black stones are `1`, white stones `-1` and
/// empty cells `0`.
#[derive(Debug, Clone, Copy)]
pub enum Player {
    BLACK,
    WHITE,
}

/// The grid state a mover's stones are written as.
pub open spec fn player_state(p: Player) -> i8 {
    match p {
        Player::BLACK => 1 as i8,
        Player::WHITE => -1 as i8,
    }
}

/// The mover whose stones a state belongs to; empty is treated as black's
/// side only to keep the function total.
pub open spec fn state_player(s: i8) -> Player {
    if s == 1 {
        Player::BLACK
    } else {
        Player::WHITE
    }
}

/// The opposing mover.
pub open spec fn other_player(p: Player) -> Player {
    match p {
        Player::BLACK => Player::WHITE,
        Player::WHITE => Player::BLACK,
    }
}

/// Whether a cell lies on a `dim`-sized grid.
pub open spec fn in_grid(dim: int, c: (int, int)) -> bool {
    0 <= c.0 < dim && 0 <= c.1 < dim
}

/// Whether two cells touch along one of the four grid directions.
pub open spec fn adjacent(a: (int, int), b: (int, int)) -> bool {
    (a.0 == b.0 && (a.1 == b.1 + 1 || a.1 + 1 == b.1)) || (a.1 == b.1 && (a.0 == b.0 + 1 || a.0
        + 1 == b.0))
}

/// A chain of same-colored stones, each touching the next.
pub open spec fn is_path(g: Seq<Seq<i8>>, dim: int, color: i8, p: Seq<(int, int)>) -> bool {
    &&& p.len() > 0
    &&& forall|k: int| 0 <= k < p.len() ==> in_grid(dim, #[trigger] p[k]) && g[p[k].0][p[k].1]
        == color
    &&& forall|k: int| 0 <= k < p.len() - 1 ==> adjacent(#[trigger] p[k], p[k + 1])
}

/// Whether two cells belong to one group: some same-colored chain joins them.
pub open spec fn connected(g: Seq<Seq<i8>>, dim: int, color: i8, a: (int, int), b: (int, int)) -> bool {
    exists|p: Seq<(int, int)>| is_path(g, dim, color, p) && p[0] == a && p.last() == b
}

/// Whether a cell has an empty neighbor.
pub open spec fn cell_has_liberty(g: Seq<Seq<i8>>, dim: int, c: (int, int)) -> bool {
    exists|d: (int, int)| in_grid(dim, d) && adjacent(c, d) && g[d.0][d.1] == 0
}

/// Whether the group a stone belongs to is alive: some member has a liberty.
pub open spec fn group_alive(g: Seq<Seq<i8>>, dim: int, a: (int, int)) -> bool {
    exists|b: (int, int)|
        connected(g, dim, g[a.0][a.1], a, b) && cell_has_liberty(g, dim, b)
}

/// A stone whose whole group has no liberty left.
pub open spec fn dead_cell(g: Seq<Seq<i8>>, dim: int, c: (int, int)) -> bool {
    in_grid(dim, c) && g[c.0][c.1] != 0 && !group_alive(g, dim, c)
}

/// The grid with one cell rewritten.
pub open spec fn board_set(g: Seq<Seq<i8>>, x: int, y: int, v: i8) -> Seq<Seq<i8>> {
    g.update(x, g[x].update(y, v))
}

/// The grid with every listed cell emptied.
pub open spec fn clear_stones(g: Seq<Seq<i8>>, cs: Seq<(usize, usize, i8)>) -> Seq<Seq<i8>>
    decreases cs.len(),
{
    if cs.len() == 0 {
        g
    } else {
        clear_stones(board_set(g, cs[0].0 as int, cs[0].1 as int, 0), cs.drop_first())
    }
}

/// The grid with every listed cell restored to its recorded owner.
pub open spec fn restore_stones(g: Seq<Seq<i8>>, cs: Seq<(usize, usize, i8)>) -> Seq<Seq<i8>>
    decreases cs.len(),
{
    if cs.len() == 0 {
        g
    } else {
        restore_stones(board_set(g, cs[0].0 as int, cs[0].1 as int, cs[0].2), cs.drop_first())
    }
}

/// The grid after a move: its stone placed, its captures emptied.
pub open spec fn apply_move(g: Seq<Seq<i8>>, m: GoMove) -> Seq<Seq<i8>> {
    clear_stones(
        board_set(g, m.move_pos.0 as int, m.move_pos.1 as int, m.move_pos.2),
        m.eat_stones@,
    )
}

/// The grid after undoing a move: its cell emptied, its captures restored.
pub open spec fn unapply_move(g: Seq<Seq<i8>>, m: GoMove) -> Seq<Seq<i8>> {
    restore_stones(
        board_set(g, m.move_pos.0 as int, m.move_pos.1 as int, 0),
        m.eat_stones@,
    )
}

/// A square grid of the given size whose cells hold only stone states.
pub open spec fn grid_wf(g: Seq<Seq<i8>>, dim: int) -> bool {
    &&& g.len() == dim
    &&& forall|i: int| 0 <= i < dim ==> (#[trigger] g[i]).len() == dim
}

/// The board and what hangs off it: the grid, whose turn it is, the applied
/// moves for undo, and the pieces of presentation state the window keeps
/// here (cursor cell, preview cell, candidate markers, window metrics).
pub struct GoBand<const D: usize> {
    pub window_width: u32,
    pub window_height: u32,
    pub margin_x: u32,
    pub margin_y: u32,
    pub dim: usize,
    pub stone_state: Vec<Vec<i8>>,
    pub stone_block: Vec<(i32, i32, i8)>,
    pub stone_pos: (i32, i32),
    pub next_stone_pos: Vec<(i32, i32, i8, bool)>,
    pub mouse_preview: (i32, i32),
    pub cur_player: Player,
    pub go_moves: Vec<GoMove>,
}

impl<const D: usize> GoBand<D> {
    /// The mathematical grid.
    pub open spec fn grid(self) -> Seq<Seq<i8>> {
        self.stone_state@.map_values(|row: Vec<i8>| row@)
    }

    /// The board's structural invariant: a `D`-sized grid whose size also
    /// fits the window layer's signed coordinates.
    pub open spec fn wf(self) -> bool {
        &&& 1 <= D
        &&& D as int <= 0x7fff_ffff
        &&& self.stone_state@.len() == D
        &&& forall|i: int| 0 <= i < D ==> (#[trigger] self.stone_state@[i])@.len() == D
    }

    pub fn new(
        window_width: u32,
        window_height: u32,
        margin_x: u32,
        margin_y: u32,
        dim: usize,
    ) -> (r: Self)
        requires
            1 <= D,
            D as int <= 0x7fff_ffff,
        ensures
            r.wf(),
            r.window_width == window_width,
            r.window_height == window_height,
            r.margin_x == margin_x,
            r.margin_y == margin_y,
            r.dim == dim,
            forall|i: int, j: int| 0 <= i < D && 0 <= j < D ==> r.grid()[i][j] == 0,
            r.cur_player is BLACK,
            r.go_moves@ == Seq::<GoMove>::empty(),
            r.stone_pos == ((D / 2) as i32, (D / 2) as i32),
            r.mouse_preview == ((D / 2) as i32, (D / 2) as i32),
    {
        let mut stone_state: Vec<Vec<i8>> = Vec::new();
        let mut i: usize = 0;
        while i < D
            invariant
                0 <= i <= D,
                stone_state@.len() == i,
                forall|k: int| 0 <= k < i ==> (#[trigger] stone_state@[k])@.len() == D,
                forall|k: int, j: int| 0 <= k < i && 0 <= j < D ==> #[trigger] stone_state@[k]@[j]
                    == 0,
            decreases D - i,
        {
            let mut row: Vec<i8> = Vec::new();
            let mut j: usize = 0;
            while j < D
                invariant
                    0 <= j <= D,
                    row@.len() == j,
                    forall|k: int| 0 <= k < j ==> row@[k] == 0,
                decreases D - j,
            {
                row.push(0);
                j = j + 1;
            }
            stone_state.push(row);
            i = i + 1;
        }
        let half = (D / 2) as i32;
        GoBand {
            window_width,
            window_height,
            margin_x,
            margin_y,
            dim,
            stone_state,
            stone_block: Vec::new(),
            stone_pos: (half, half),
            next_stone_pos: Vec::new(),
            mouse_preview: (half, half),
            cur_player: Player::BLACK,
            go_moves: Vec::new(),
        }
    }

    /// Takes the cursor's grid cell as computed by the window layer and
    /// remembers it, clamping the preview cell onto the grid.
    pub fn set_preview_pos(&mut self, x_grid: i32, y_grid: i32)
        requires
            old(self).wf(),
        ensures
            final(self).stone_pos == (x_grid, y_grid),
            final(self).mouse_preview.0 as int == (if x_grid < 0 {
                0
            } else if x_grid as int > D as int - 1 {
                D as int - 1
            } else {
                x_grid as int
            }),
            final(self).mouse_preview.1 as int == (if y_grid < 0 {
                0
            } else if y_grid as int > D as int - 1 {
                D as int - 1
            } else {
                y_grid as int
            }),
            *final(self) == (GoBand::<D> {
                stone_pos: final(self).stone_pos,
                mouse_preview: final(self).mouse_preview,
                ..*old(self)
            }),
    {
        self.stone_pos = (x_grid, y_grid);
        let mut x = x_grid;
        let mut y = y_grid;
        if x < 0 {
            x = 0;
        }
        if x > D as i32 - 1 {
            x = D as i32 - 1;
        }
        if y < 0 {
            y = 0;
        }
        if y > D as i32 - 1 {
            y = D as i32 - 1;
        }
        self.mouse_preview = (x, y);
    }

    pub fn set_stone_pos(&mut self, x: i32, y: i32)
        ensures
            *final(self) == (GoBand::<D> { stone_pos: (x, y), ..*old(self) }),
    {
        self.stone_pos = (x, y);
    }

    pub fn stone_pos(&self) -> (r: (i32, i32))
        ensures
            r == self.stone_pos,
    {
        self.stone_pos
    }

    pub fn set_next_stone_pos(&mut self, next_stone_pos: Vec<(i32, i32, i8, bool)>)
        ensures
            *final(self) == (GoBand::<D> { next_stone_pos: next_stone_pos, ..*old(self) }),
    {
        self.next_stone_pos = next_stone_pos;
    }

    pub fn mouse_preview(&self) -> (r: (i32, i32))
        ensures
            r == self.mouse_preview,
    {
        self.mouse_preview
    }

    pub fn current_player(&self) -> (r: Player)
        ensures
            r == self.cur_player,
    {
        self.cur_player
    }

    pub fn set_current_player(&mut self, player: Player)
        ensures
            *final(self) == (GoBand::<D> { cur_player: player, ..*old(self) }),
    {
        self.cur_player = player;
    }

    pub fn stone_state(&self, pos_x: usize, pos_y: usize) -> (r: i8)
        requires
            self.wf(),
            pos_x < D,
            pos_y < D,
        ensures
            r == self.grid()[pos_x as int][pos_y as int],
    {
        self.stone_state[pos_x][pos_y]
    }

    pub fn set_stone_state(&mut self, pos_x: usize, pos_y: usize, state: i8)
        requires
            old(self).wf(),
            pos_x < D,
            pos_y < D,
        ensures
            final(self).wf(),
            final(self).grid() == board_set(old(self).grid(), pos_x as int, pos_y as int, state),
            *final(self) == (GoBand::<D> { stone_state: final(self).stone_state, ..*old(self) }),
    {
        let row = &mut self.stone_state[pos_x];
        row[pos_y] = state;
        proof {
            assert(self.grid() =~= board_set(
                old(self).grid(),
                pos_x as int,
                pos_y as int,
                state,
            ));
        }
    }

    pub fn set_window_width(&mut self, window_width: u32)
        ensures
            *final(self) == (GoBand::<D> { window_width: window_width, ..*old(self) }),
    {
        self.window_width = window_width;
    }

    pub fn window_width(&self) -> (r: u32)
        ensures
            r == self.window_width,
    {
        self.window_width
    }

    pub fn set_window_height(&mut self, window_height: u32)
        ensures
            *final(self) == (GoBand::<D> { window_height: window_height, ..*old(self) }),
    {
        self.window_height = window_height;
    }
}


/// The cell a block entry names.
pub open spec fn entry_cell(e: (i32, i32, i8)) -> (int, int) {
    (e.0 as int, e.1 as int)
}

/// Whether a working block holds a cell.
pub open spec fn in_block(b: Seq<(i32, i32, i8)>, c: (int, int)) -> bool {
    exists|k: int| 0 <= k < b.len() && entry_cell(#[trigger] b[k]) == c
}

/// A well-formed working block for one color: every entry on the grid, of
/// that color on the board and in the entry, and no cell listed twice.
pub open spec fn block_ok(g: Seq<Seq<i8>>, dim: int, color: i8, b: Seq<(i32, i32, i8)>) -> bool {
    &&& forall|k: int| 0 <= k < b.len() ==> in_grid(dim, entry_cell(#[trigger] b[k]))
        && g[b[k].0 as int][b[k].1 as int] == color && b[k].2 == color
    &&& forall|k1: int, k2: int| 0 <= k1 < k2 < b.len() ==> entry_cell(#[trigger] b[k1])
        != entry_cell(#[trigger] b[k2])
}

/// Whether every same-colored neighbor of a cell is already in the block.
pub open spec fn closed_at(
    g: Seq<Seq<i8>>,
    dim: int,
    color: i8,
    b: Seq<(i32, i32, i8)>,
    c: (int, int),
) -> bool {
    forall|d: (int, int)|
        in_grid(dim, d) && adjacent(c, d) && g[d.0][d.1] == color ==> in_block(b, d)
}

/// A cell of a longer block stays in it.
pub proof fn lemma_in_block_prefix(b1: Seq<(i32, i32, i8)>, b2: Seq<(i32, i32, i8)>, c: (int, int))
    requires
        b1.len() <= b2.len(),
        b2.take(b1.len() as int) == b1,
        in_block(b1, c),
    ensures
        in_block(b2, c),
{
    let k = choose|k: int| 0 <= k < b1.len() && entry_cell(b1[k]) == c;
    assert(b2[k] == b2.take(b1.len() as int)[k]);
    assert(entry_cell(b2[k]) == c);
}

/// Closure survives growing the block.
pub proof fn lemma_closed_at_prefix(
    g: Seq<Seq<i8>>,
    dim: int,
    color: i8,
    b1: Seq<(i32, i32, i8)>,
    b2: Seq<(i32, i32, i8)>,
    c: (int, int),
)
    requires
        b1.len() <= b2.len(),
        b2.take(b1.len() as int) == b1,
        closed_at(g, dim, color, b1, c),
    ensures
        closed_at(g, dim, color, b2, c),
{
    assert forall|d: (int, int)|
        in_grid(dim, d) && adjacent(c, d) && g[d.0][d.1] == color implies in_block(b2, d) by {
        lemma_in_block_prefix(b1, b2, d);
    }
}

/// Joining a path to a same-colored neighbor extends connectivity one step.
pub proof fn lemma_connected_step(
    g: Seq<Seq<i8>>,
    dim: int,
    color: i8,
    a: (int, int),
    b: (int, int),
    c: (int, int),
)
    requires
        connected(g, dim, color, a, b),
        in_grid(dim, c),
        adjacent(b, c),
        g[c.0][c.1] == color,
    ensures
        connected(g, dim, color, a, c),
{
    let p = choose|p: Seq<(int, int)>| is_path(g, dim, color, p) && p[0] == a && p.last() == b;
    let q = p.push(c);
    assert(q.last() == c);
    assert(q[0] == a);
    assert forall|k: int| 0 <= k < q.len() - 1 implies adjacent(#[trigger] q[k], q[k + 1]) by {
        if k < p.len() - 1 {
            assert(adjacent(p[k], p[k + 1]));
        } else {
            assert(q[k] == p.last());
        }
    }
    assert(is_path(g, dim, color, q));
}

/// Connectivity runs both ways: the reversed path joins back.
pub proof fn lemma_connected_sym(
    g: Seq<Seq<i8>>,
    dim: int,
    color: i8,
    a: (int, int),
    b: (int, int),
)
    requires
        connected(g, dim, color, a, b),
    ensures
        connected(g, dim, color, b, a),
{
    let p = choose|p: Seq<(int, int)>| is_path(g, dim, color, p) && p[0] == a && p.last() == b;
    let q = p.reverse();
    assert(q.len() == p.len());
    assert forall|k: int| 0 <= k < q.len() implies in_grid(dim, #[trigger] q[k])
        && g[q[k].0][q[k].1] == color by {
        assert(q[k] == p[p.len() - 1 - k]);
    }
    assert forall|k: int| 0 <= k < q.len() - 1 implies adjacent(#[trigger] q[k], q[k + 1]) by {
        assert(q[k] == p[p.len() - 1 - k]);
        assert(q[k + 1] == p[p.len() - 2 - k]);
        assert(adjacent(p[p.len() - 2 - k], p[p.len() - 1 - k]));
    }
    assert(q[0] == b);
    assert(q.last() == a);
    assert(is_path(g, dim, color, q));
}

/// Connectivity chains end to end.
pub proof fn lemma_connected_trans(
    g: Seq<Seq<i8>>,
    dim: int,
    color: i8,
    a: (int, int),
    b: (int, int),
    c: (int, int),
)
    requires
        connected(g, dim, color, a, b),
        connected(g, dim, color, b, c),
    ensures
        connected(g, dim, color, a, c),
{
    let p = choose|p: Seq<(int, int)>| is_path(g, dim, color, p) && p[0] == a && p.last() == b;
    let q = choose|q: Seq<(int, int)>| is_path(g, dim, color, q) && q[0] == b && q.last() == c;
    let r = p + q.drop_first();
    if q.len() == 1 {
        assert(p.last() == q.last());
        assert(r =~= p);
        assert(is_path(g, dim, color, r) && r[0] == a && r.last() == c);
    } else {
        assert(r.len() == p.len() + q.len() - 1);
        assert forall|k: int| 0 <= k < r.len() implies in_grid(dim, #[trigger] r[k])
            && g[r[k].0][r[k].1] == color by {
            if k < p.len() {
                assert(r[k] == p[k]);
            } else {
                assert(r[k] == q[k - p.len() + 1]);
            }
        }
        assert forall|k: int| 0 <= k < r.len() - 1 implies adjacent(#[trigger] r[k], r[k + 1]) by {
            if k < p.len() - 1 {
                assert(r[k] == p[k] && r[k + 1] == p[k + 1]);
            } else if k == p.len() - 1 {
                assert(r[k] == p.last());
                assert(r[k + 1] == q[1]);
                assert(adjacent(q[0], q[1]));
            } else {
                assert(r[k] == q[k - p.len() + 1]);
                assert(r[k + 1] == q[k - p.len() + 2]);
                assert(adjacent(q[k - p.len() + 1], q[k - p.len() + 2]));
            }
        }
        assert(r[0] == a);
        assert(r.last() == c);
        assert(is_path(g, dim, color, r));
    }
}

/// A cell is connected to itself.
pub proof fn lemma_connected_refl(g: Seq<Seq<i8>>, dim: int, color: i8, a: (int, int))
    requires
        in_grid(dim, a),
        g[a.0][a.1] == color,
    ensures
        connected(g, dim, color, a, a),
{
    let p = seq![a];
    assert(is_path(g, dim, color, p));
    assert(p[0] == a && p.last() == a);
}

/// Every path that starts in a block closed at each of its members stays in
/// the block.
pub proof fn lemma_path_in_block(
    g: Seq<Seq<i8>>,
    dim: int,
    color: i8,
    b: Seq<(i32, i32, i8)>,
    p: Seq<(int, int)>,
)
    requires
        is_path(g, dim, color, p),
        in_block(b, p[0]),
        forall|k: int| 0 <= k < b.len() ==> closed_at(g, dim, color, b, entry_cell(#[trigger] b[k])),
    ensures
        in_block(b, p.last()),
    decreases p.len(),
{
    if p.len() <= 1 {
    } else {
        let q = p.drop_last();
        assert(is_path(g, dim, color, q));
        lemma_path_in_block(g, dim, color, b, q);
        let prev = q.last();
        assert(prev == p[p.len() - 2]);
        assert(adjacent(p[p.len() - 2], p[p.len() - 1]));
        let k = choose|k: int| 0 <= k < b.len() && entry_cell(b[k]) == prev;
        assert(closed_at(g, dim, color, b, prev));
        assert(in_grid(dim, p.last()) && g[p.last().0][p.last().1] == color);
    }
}

/// A block that contains a seed and is closed at every member holds the
/// seed's whole group.
pub proof fn lemma_closed_block_contains_group(
    g: Seq<Seq<i8>>,
    dim: int,
    color: i8,
    b: Seq<(i32, i32, i8)>,
    seed: (int, int),
    c: (int, int),
)
    requires
        in_block(b, seed),
        forall|k: int| 0 <= k < b.len() ==> closed_at(g, dim, color, b, entry_cell(#[trigger] b[k])),
        connected(g, dim, color, seed, c),
    ensures
        in_block(b, c),
{
    let p = choose|p: Seq<(int, int)>|
        is_path(g, dim, color, p) && p[0] == seed && p.last() == c;
    lemma_path_in_block(g, dim, color, b, p);
}

/// A block of distinct grid cells can never outgrow the grid.
pub proof fn lemma_block_bound(b: Seq<(i32, i32, i8)>, dim: int)
    requires
        dim >= 1,
        forall|k: int| 0 <= k < b.len() ==> in_grid(dim, entry_cell(#[trigger] b[k])),
        forall|k1: int, k2: int| 0 <= k1 < k2 < b.len() ==> entry_cell(#[trigger] b[k1])
            != entry_cell(#[trigger] b[k2]),
    ensures
        b.len() <= dim * dim,
{
    let ids = Seq::new(b.len(), |k: int| b[k].0 as int * dim + b[k].1 as int);
    assert forall|k1: int, k2: int| 0 <= k1 < k2 < ids.len() implies ids[k1] != ids[k2] by {
        let c1 = entry_cell(b[k1]);
        let c2 = entry_cell(b[k2]);
        assert(c1 != c2);
        assert(c1.0 * dim + c1.1 != c2.0 * dim + c2.1) by (nonlinear_arith)
            requires
                0 <= c1.0 < dim,
                0 <= c1.1 < dim,
                0 <= c2.0 < dim,
                0 <= c2.1 < dim,
                c1 != c2,
        ;
    }
    assert forall|k: int| 0 <= k < ids.len() implies 0 <= #[trigger] ids[k] < dim * dim by {
        let c = entry_cell(b[k]);
        assert(0 <= c.0 * dim + c.1 < dim * dim) by (nonlinear_arith)
            requires
                0 <= c.0 < dim,
                0 <= c.1 < dim,
        ;
    }
    lemma_distinct_in_range(ids, dim * dim);
}

/// No more distinct numbers below a bound than the bound itself.
pub proof fn lemma_distinct_in_range(ids: Seq<int>, n: int)
    requires
        0 <= n,
        forall|k: int| 0 <= k < ids.len() ==> 0 <= #[trigger] ids[k] < n,
        forall|k1: int, k2: int| 0 <= k1 < k2 < ids.len() ==> ids[k1] != ids[k2],
    ensures
        ids.len() <= n,
    decreases n,
{
    if n <= 0 {
        if ids.len() > 0 {
            assert(0 <= ids[0] < n);
        }
    } else {
        if exists|k: int| 0 <= k < ids.len() && ids[k] == n - 1 {
            let k0 = choose|k0: int| 0 <= k0 < ids.len() && ids[k0] == n - 1;
            let rest = ids.remove(k0);
            assert forall|k: int| 0 <= k < rest.len() implies 0 <= #[trigger] rest[k] < n - 1 by {
                if k < k0 {
                    assert(rest[k] == ids[k]);
                    assert(ids[k] != ids[k0]);
                } else {
                    assert(rest[k] == ids[k + 1]);
                    assert(ids[k + 1] != ids[k0]);
                }
            }
            assert forall|k1: int, k2: int| 0 <= k1 < k2 < rest.len() implies rest[k1]
                != rest[k2] by {
                let i1 = if k1 < k0 { k1 } else { k1 + 1 };
                let i2 = if k2 < k0 { k2 } else { k2 + 1 };
                assert(rest[k1] == ids[i1]);
                assert(rest[k2] == ids[i2]);
            }
            lemma_distinct_in_range(rest, n - 1);
        } else {
            assert forall|k: int| 0 <= k < ids.len() implies 0 <= #[trigger] ids[k] < n - 1 by {
                assert(ids[k] != n - 1);
            }
            lemma_distinct_in_range(ids, n - 1);
        }
    }
}


impl<const D: usize> GoBand<D> {
    /// Whether the working block already holds the cell.
    fn is_in_block(&self, pos_x: i32, pos_y: i32) -> (r: bool)
        ensures
            r == in_block(self.stone_block@, (pos_x as int, pos_y as int)),
    {
        let mut k: usize = 0;
        while k < self.stone_block.len()
            invariant_except_break
                0 <= k <= self.stone_block@.len(),
                forall|k2: int| 0 <= k2 < k ==> entry_cell(#[trigger] self.stone_block@[k2])
                    != (pos_x as int, pos_y as int),
            ensures
                (k < self.stone_block@.len()) == in_block(
                    self.stone_block@,
                    (pos_x as int, pos_y as int),
                ),
            decreases self.stone_block@.len() - k,
        {
            let (i, j, _) = self.stone_block[k];
            if i == pos_x && j == pos_y {
                break ;
            }
            k = k + 1;
        }
        k < self.stone_block.len()
    }

    /// Whether the flood fill may step onto the cell: on the grid, of the
    /// color being collected, and not collected yet.
    fn can_connect(&self, pos_x: i32, pos_y: i32, stone_state: i8) -> (r: bool)
        requires
            self.wf(),
        ensures
            r == (in_grid(D as int, (pos_x as int, pos_y as int)) && self.grid()[pos_x as int][pos_y as int]
                == stone_state && !in_block(self.stone_block@, (pos_x as int, pos_y as int))),
    {
        if !(pos_x >= 0 && pos_x <= D as i32 - 1 && pos_y >= 0 && pos_y <= D as i32 - 1) {
            return false;
        }
        self.stone_state[pos_x as usize][pos_y as usize] == stone_state && !self.is_in_block(
            pos_x,
            pos_y,
        )
    }

    /// A prefix of a prefix is a prefix.
    proof fn lemma_prefix_trans(a: Seq<(i32, i32, i8)>, b: Seq<(i32, i32, i8)>, c: Seq<(i32, i32, i8)>)
        requires
            a.len() <= b.len() <= c.len(),
            b.take(a.len() as int) == a,
            c.take(b.len() as int) == b,
        ensures
            c.take(a.len() as int) == a,
    {
        assert(c.take(a.len() as int) =~= a) by {
            assert forall|k: int| 0 <= k < a.len() implies c[k] == a[k] by {
                assert(b[k] == b.take(a.len() as int)[k]);
                assert(c[k] == c.take(b.len() as int)[k]);
            }
        }
    }

    /// One flood-fill step onto a single neighbor: when the neighbor is a
    /// newly seen stone of the collected color, it joins the block together
    /// with its whole reachable group; afterwards the neighbor is either in
    /// the block or not a stone of the color at all.
    #[verifier::rlimit(60)]
    fn flood_step(&mut self, pos_x: i32, pos_y: i32, dx: i32, dy: i32, stone_state: i8)
        requires
            old(self).wf(),
            in_grid(D as int, (pos_x as int, pos_y as int)),
            old(self).grid()[pos_x as int][pos_y as int] == stone_state,
            block_ok(old(self).grid(), D as int, stone_state, old(self).stone_block@),
            -1 <= dx <= 1,
            -1 <= dy <= 1,
            adjacent((pos_x as int, pos_y as int), (pos_x + dx, pos_y + dy)),
        ensures
            *final(self) == (GoBand::<D> { stone_block: final(self).stone_block, ..*old(self) }),
            final(self).wf(),
            block_ok(final(self).grid(), D as int, stone_state, final(self).stone_block@),
            old(self).stone_block@.len() <= final(self).stone_block@.len(),
            final(self).stone_block@.take(old(self).stone_block@.len() as int) == old(
                self,
            ).stone_block@,
            forall|k: int| old(self).stone_block@.len() <= k < final(self).stone_block@.len()
                ==> connected(
                final(self).grid(),
                D as int,
                stone_state,
                (pos_x as int, pos_y as int),
                entry_cell(#[trigger] final(self).stone_block@[k]),
            ),
            forall|k: int| old(self).stone_block@.len() <= k < final(self).stone_block@.len()
                ==> closed_at(
                final(self).grid(),
                D as int,
                stone_state,
                final(self).stone_block@,
                entry_cell(#[trigger] final(self).stone_block@[k]),
            ),
            !(in_grid(D as int, (pos_x + dx, pos_y + dy)) && final(self).grid()[pos_x + dx][pos_y
                + dy] == stone_state) || in_block(
                final(self).stone_block@,
                (pos_x + dx, pos_y + dy),
            ),
        decreases D * D - old(self).stone_block@.len(), 0int,
    {
        let ghost g = self.grid();
        let ghost dim = D as int;
        let ghost here = (pos_x as int, pos_y as int);
        let ghost b_pre = self.stone_block@;
        proof {
            lemma_block_bound(b_pre, dim);
        }
        let nx = pos_x + dx;
        let ny = pos_y + dy;
        if self.can_connect(nx, ny, stone_state) {
            self.stone_block.push((nx, ny, stone_state));
            proof {
                assert(entry_cell(self.stone_block@[self.stone_block@.len() - 1]) == (
                nx as int,
                ny as int,
                ));
                assert(in_block(self.stone_block@, (nx as int, ny as int)));
                assert(self.stone_block@.take(b_pre.len() as int) =~= b_pre);
                lemma_connected_refl(g, dim, stone_state, here);
                lemma_connected_step(g, dim, stone_state, here, here, (nx as int, ny as int));
                lemma_block_bound(self.stone_block@, dim);
            }
            let ghost b_mid = self.stone_block@;
            self.check_stone_block(nx, ny, stone_state);
            proof {
                let b_fin = self.stone_block@;
                Self::lemma_prefix_trans(b_pre, b_mid, b_fin);
                lemma_in_block_prefix(b_mid, b_fin, (nx as int, ny as int));
                assert forall|k: int| b_pre.len() <= k < b_fin.len() implies connected(
                    g,
                    dim,
                    stone_state,
                    here,
                    entry_cell(#[trigger] b_fin[k]),
                ) by {
                    if k < b_mid.len() {
                        assert(b_fin[k] == b_fin.take(b_mid.len() as int)[k]);
                        assert(b_fin[k] == b_mid[b_mid.len() - 1]);
                        assert(entry_cell(b_fin[k]) == (nx as int, ny as int));
                    } else {
                        lemma_connected_trans(
                            g,
                            dim,
                            stone_state,
                            here,
                            (nx as int, ny as int),
                            entry_cell(b_fin[k]),
                        );
                    }
                }
                assert forall|k: int| b_pre.len() <= k < b_fin.len() implies closed_at(
                    g,
                    dim,
                    stone_state,
                    b_fin,
                    entry_cell(#[trigger] b_fin[k]),
                ) by {
                    if k < b_mid.len() {
                        assert(b_fin[k] == b_fin.take(b_mid.len() as int)[k]);
                        assert(entry_cell(b_fin[k]) == (nx as int, ny as int));
                        assert(closed_at(g, dim, stone_state, b_fin, (nx as int, ny as int)));
                    }
                }
            }
        }
    }

    /// Collects into the working block every stone of the group reachable
    /// from the given cell: the block grows by connected, same-colored,
    /// newly seen cells only, and afterwards the cell and every newcomer
    /// have all their same-colored neighbors in the block.
    #[verifier::rlimit(60)]
    fn check_stone_block(&mut self, pos_x: i32, pos_y: i32, stone_state: i8)
        requires
            old(self).wf(),
            in_grid(D as int, (pos_x as int, pos_y as int)),
            old(self).grid()[pos_x as int][pos_y as int] == stone_state,
            block_ok(old(self).grid(), D as int, stone_state, old(self).stone_block@),
            in_block(old(self).stone_block@, (pos_x as int, pos_y as int)),
        ensures
            *final(self) == (GoBand::<D> { stone_block: final(self).stone_block, ..*old(self) }),
            final(self).wf(),
            block_ok(final(self).grid(), D as int, stone_state, final(self).stone_block@),
            old(self).stone_block@.len() <= final(self).stone_block@.len(),
            final(self).stone_block@.take(old(self).stone_block@.len() as int) == old(
                self,
            ).stone_block@,
            forall|k: int| old(self).stone_block@.len() <= k < final(self).stone_block@.len()
                ==> connected(
                final(self).grid(),
                D as int,
                stone_state,
                (pos_x as int, pos_y as int),
                entry_cell(#[trigger] final(self).stone_block@[k]),
            ),
            closed_at(
                final(self).grid(),
                D as int,
                stone_state,
                final(self).stone_block@,
                (pos_x as int, pos_y as int),
            ),
            forall|k: int| old(self).stone_block@.len() <= k < final(self).stone_block@.len()
                ==> closed_at(
                final(self).grid(),
                D as int,
                stone_state,
                final(self).stone_block@,
                entry_cell(#[trigger] final(self).stone_block@[k]),
            ),
        decreases D * D - old(self).stone_block@.len(), 1int,
    {
        let ghost g = self.grid();
        let ghost dim = D as int;
        let ghost here = (pos_x as int, pos_y as int);
        let ghost b0 = self.stone_block@;
        proof {
            lemma_block_bound(b0, dim);
        }
        self.flood_step(pos_x, pos_y, -1, 0, stone_state);
        let ghost b1 = self.stone_block@;
        proof {
            lemma_block_bound(b1, dim);
        }
        self.flood_step(pos_x, pos_y, 1, 0, stone_state);
        let ghost b2 = self.stone_block@;
        proof {
            lemma_block_bound(b2, dim);
        }
        self.flood_step(pos_x, pos_y, 0, -1, stone_state);
        let ghost b3 = self.stone_block@;
        proof {
            lemma_block_bound(b3, dim);
        }
        self.flood_step(pos_x, pos_y, 0, 1, stone_state);
        let ghost b4 = self.stone_block@;
        proof {
            Self::lemma_prefix_trans(b2, b3, b4);
            Self::lemma_prefix_trans(b1, b2, b4);
            Self::lemma_prefix_trans(b0, b1, b4);
            assert forall|k: int| b0.len() <= k < b4.len() implies connected(
                g,
                dim,
                stone_state,
                here,
                entry_cell(#[trigger] b4[k]),
            ) by {
                if k < b1.len() {
                    assert(b4[k] == b4.take(b1.len() as int)[k]);
                } else if k < b2.len() {
                    assert(b4[k] == b4.take(b2.len() as int)[k]);
                } else if k < b3.len() {
                    assert(b4[k] == b4.take(b3.len() as int)[k]);
                }
            }
            assert forall|k: int| b0.len() <= k < b4.len() implies closed_at(
                g,
                dim,
                stone_state,
                b4,
                entry_cell(#[trigger] b4[k]),
            ) by {
                if k < b1.len() {
                    assert(b4[k] == b4.take(b1.len() as int)[k]);
                    assert(b1[k] == b4[k]);
                    lemma_closed_at_prefix(g, dim, stone_state, b1, b4, entry_cell(b1[k]));
                } else if k < b2.len() {
                    assert(b4[k] == b4.take(b2.len() as int)[k]);
                    lemma_closed_at_prefix(g, dim, stone_state, b2, b4, entry_cell(b2[k]));
                } else if k < b3.len() {
                    assert(b4[k] == b4.take(b3.len() as int)[k]);
                    lemma_closed_at_prefix(g, dim, stone_state, b3, b4, entry_cell(b3[k]));
                }
            }
            assert(closed_at(g, dim, stone_state, b4, here)) by {
                assert forall|c: (int, int)|
                    in_grid(dim, c) && adjacent(here, c) && g[c.0][c.1] == stone_state implies
                    in_block(b4, c) by {
                    assert(c == (here.0 - 1, here.1) || c == (here.0 + 1, here.1) || c == (
                    here.0, here.1 - 1) || c == (here.0, here.1 + 1));
                    if c == (here.0 - 1, here.1) {
                        if in_block(b1, c) {
                            lemma_in_block_prefix(b1, b4, c);
                        }
                    } else if c == (here.0 + 1, here.1) {
                        if in_block(b2, c) {
                            lemma_in_block_prefix(b2, b4, c);
                        }
                    } else if c == (here.0, here.1 - 1) {
                        if in_block(b3, c) {
                            lemma_in_block_prefix(b3, b4, c);
                        }
                    }
                }
            }
        }
    }
}


/// Whether a cell list holds a cell.
pub open spec fn cells_contain(cs: Seq<(usize, usize)>, c: (int, int)) -> bool {
    exists|k: int| 0 <= k < cs.len() && ((#[trigger] cs[k]).0 as int, cs[k].1 as int) == c
}

/// One complete captured group: a nonempty, duplicate-free list of cells of
/// one owner, none with a liberty, mutually connected, and closed under
/// same-colored connectivity.
pub open spec fn dead_group_entry(
    g: Seq<Seq<i8>>,
    dim: int,
    cells: Seq<(usize, usize)>,
    owner: i8,
) -> bool {
    &&& cells.len() > 0
    &&& owner != 0
    &&& forall|k: int| 0 <= k < cells.len() ==> in_grid(
        dim,
        ((#[trigger] cells[k]).0 as int, cells[k].1 as int),
    ) && g[cells[k].0 as int][cells[k].1 as int] == owner
    &&& forall|k1: int, k2: int| 0 <= k1 < k2 < cells.len() ==> ((#[trigger] cells[k1]).0,
    cells[k1].1) != ((#[trigger] cells[k2]).0, cells[k2].1)
    &&& forall|k: int| 0 <= k < cells.len() ==> !cell_has_liberty(
        g,
        dim,
        ((#[trigger] cells[k]).0 as int, cells[k].1 as int),
    )
    &&& forall|k1: int, k2: int| 0 <= k1 < cells.len() && 0 <= k2 < cells.len() ==> connected(
        g,
        dim,
        owner,
        ((#[trigger] cells[k1]).0 as int, cells[k1].1 as int),
        ((#[trigger] cells[k2]).0 as int, cells[k2].1 as int),
    )
    &&& forall|k: int, c: (int, int)|
        #![trigger connected(g, dim, owner, (cells[k].0 as int, cells[k].1 as int), c)]
        0 <= k < cells.len() && in_grid(dim, c) && g[c.0][c.1] == owner && connected(
            g,
            dim,
            owner,
            (cells[k].0 as int, cells[k].1 as int),
            c,
        ) ==> cells_contain(cells, c)
}

/// Whether some recorded capture candidate holds the cell.
pub open spec fn in_entries(l: Seq<(Vec<(usize, usize)>, i8)>, c: (int, int)) -> bool {
    exists|k: int| 0 <= k < l.len() && cells_contain((#[trigger] l[k]).0@, c)
}

impl<const D: usize> GoBand<D> {
    /// Whether the cell has an empty neighbor.
    fn cell_liberty(&self, x: i32, y: i32) -> (r: bool)
        requires
            self.wf(),
            in_grid(D as int, (x as int, y as int)),
        ensures
            r == cell_has_liberty(self.grid(), D as int, (x as int, y as int)),
    {
        let ghost g = self.grid();
        let ghost dim = D as int;
        let ghost c = (x as int, y as int);
        if x - 1 >= 0 && self.stone_state[(x - 1) as usize][y as usize] == 0 {
            proof {
                assert(in_grid(dim, (c.0 - 1, c.1)) && adjacent(c, (c.0 - 1, c.1)) && g[c.0
                    - 1][c.1] == 0);
            }
            return true;
        }
        if x + 1 < D as i32 && self.stone_state[(x + 1) as usize][y as usize] == 0 {
            proof {
                assert(in_grid(dim, (c.0 + 1, c.1)) && adjacent(c, (c.0 + 1, c.1)) && g[c.0
                    + 1][c.1] == 0);
            }
            return true;
        }
        if y - 1 >= 0 && self.stone_state[x as usize][(y - 1) as usize] == 0 {
            proof {
                assert(in_grid(dim, (c.0, c.1 - 1)) && adjacent(c, (c.0, c.1 - 1)) && g[c.0][c.1
                    - 1] == 0);
            }
            return true;
        }
        if y + 1 < D as i32 && self.stone_state[x as usize][(y + 1) as usize] == 0 {
            proof {
                assert(in_grid(dim, (c.0, c.1 + 1)) && adjacent(c, (c.0, c.1 + 1)) && g[c.0][c.1
                    + 1] == 0);
            }
            return true;
        }
        proof {
            if cell_has_liberty(g, dim, c) {
                let d = choose|d: (int, int)|
                    in_grid(dim, d) && adjacent(c, d) && g[d.0][d.1] == 0;
                assert(d == (c.0 - 1, c.1) || d == (c.0 + 1, c.1) || d == (c.0, c.1 - 1) || d == (
                c.0, c.1 + 1));
            }
        }
        false
    }

    /// Whether any collected stone still has a liberty: the block's group is
    /// alive exactly when one of its members does.
    fn is_alive(&self) -> (r: bool)
        requires
            self.wf(),
            forall|k: int| 0 <= k < self.stone_block@.len() ==> in_grid(
                D as int,
                entry_cell(#[trigger] self.stone_block@[k]),
            ),
        ensures
            r == exists|k: int|
                0 <= k < self.stone_block@.len() && cell_has_liberty(
                    self.grid(),
                    D as int,
                    entry_cell(#[trigger] self.stone_block@[k]),
                ),
    {
        let mut k: usize = 0;
        while k < self.stone_block.len()
            invariant_except_break
                0 <= k <= self.stone_block@.len(),
                self.wf(),
                forall|k2: int| 0 <= k2 < self.stone_block@.len() ==> in_grid(
                    D as int,
                    entry_cell(#[trigger] self.stone_block@[k2]),
                ),
                forall|k2: int| 0 <= k2 < k ==> !cell_has_liberty(
                    self.grid(),
                    D as int,
                    entry_cell(#[trigger] self.stone_block@[k2]),
                ),
            ensures
                (k < self.stone_block@.len()) == exists|k2: int|
                    0 <= k2 < self.stone_block@.len() && cell_has_liberty(
                        self.grid(),
                        D as int,
                        entry_cell(#[trigger] self.stone_block@[k2]),
                    ),
            decreases self.stone_block@.len() - k,
        {
            let (i, j, _) = self.stone_block[k];
            if self.cell_liberty(i, j) {
                break ;
            }
            k = k + 1;
        }
        k < self.stone_block.len()
    }

    /// Whether some recorded capture candidate holds the cell.
    fn list_contains(l: &Vec<(Vec<(usize, usize)>, i8)>, x: usize, y: usize) -> (r: bool)
        ensures
            r == in_entries(l@, (x as int, y as int)),
    {
        let mut k: usize = 0;
        while k < l.len()
            invariant_except_break
                0 <= k <= l@.len(),
                forall|k2: int| 0 <= k2 < k ==> !cells_contain(
                    (#[trigger] l@[k2]).0@,
                    (x as int, y as int),
                ),
            ensures
                (k < l@.len()) == in_entries(l@, (x as int, y as int)),
            decreases l@.len() - k,
        {
            let cells = &l[k].0;
            let mut c: usize = 0;
            let mut hit = false;
            while c < cells.len()
                invariant_except_break
                    0 <= c <= cells@.len(),
                    !hit,
                    cells@ == l@[k as int].0@,
                    forall|c2: int| 0 <= c2 < c ==> ((#[trigger] cells@[c2]).0 as int,
                    cells@[c2].1 as int) != (x as int, y as int),
                ensures
                    hit == cells_contain(l@[k as int].0@, (x as int, y as int)),
                decreases cells@.len() - c,
            {
                let (cx, cy) = cells[c];
                if cx == x && cy == y {
                    hit = true;
                    break ;
                }
                c = c + 1;
            }
            if hit {
                break ;
            }
            k = k + 1;
        }
        k < l.len()
    }
}


/// Row-major order on cells: the order of the capture search's board scan.
pub open spec fn row_major_lt(a: (usize, usize), b: (usize, usize)) -> bool {
    a.0 < b.0 || (a.0 == b.0 && a.1 < b.1)
}

/// A complete dead group is one whatever duplicate-free order its cells are
/// listed in.
proof fn lemma_entry_same_cells(
    g: Seq<Seq<i8>>,
    dim: int,
    a: Seq<(usize, usize)>,
    b: Seq<(usize, usize)>,
    owner: i8,
)
    requires
        dead_group_entry(g, dim, a, owner),
        forall|c: (int, int)| cells_contain(b, c) <==> cells_contain(a, c),
        forall|k1: int, k2: int| 0 <= k1 < k2 < b.len() ==> ((#[trigger] b[k1]).0, b[k1].1) != ((
        #[trigger] b[k2]).0, b[k2].1),
    ensures
        dead_group_entry(g, dim, b, owner),
{
    assert(b.len() > 0) by {
        let c0 = (a[0].0 as int, a[0].1 as int);
        assert(cells_contain(a, c0));
        assert(cells_contain(b, c0));
        let kb = choose|kb: int| 0 <= kb < b.len() && ((b[kb].0 as int, b[kb].1 as int) == c0);
    }
    assert forall|k: int| 0 <= k < b.len() implies in_grid(
        dim,
        ((#[trigger] b[k]).0 as int, b[k].1 as int),
    ) && g[b[k].0 as int][b[k].1 as int] == owner && !cell_has_liberty(
        g,
        dim,
        (b[k].0 as int, b[k].1 as int),
    ) by {
        let c = (b[k].0 as int, b[k].1 as int);
        assert(cells_contain(b, c));
        assert(cells_contain(a, c));
        let ka = choose|ka: int| 0 <= ka < a.len() && ((a[ka].0 as int, a[ka].1 as int) == c);
    }
    assert forall|k1: int, k2: int|
        0 <= k1 < b.len() && 0 <= k2 < b.len() implies connected(
        g,
        dim,
        owner,
        ((#[trigger] b[k1]).0 as int, b[k1].1 as int),
        ((#[trigger] b[k2]).0 as int, b[k2].1 as int),
    ) by {
        let c1 = (b[k1].0 as int, b[k1].1 as int);
        let c2 = (b[k2].0 as int, b[k2].1 as int);
        assert(cells_contain(b, c1) && cells_contain(b, c2));
        assert(cells_contain(a, c1) && cells_contain(a, c2));
        let ka1 = choose|ka: int| 0 <= ka < a.len() && ((a[ka].0 as int, a[ka].1 as int) == c1);
        let ka2 = choose|ka: int| 0 <= ka < a.len() && ((a[ka].0 as int, a[ka].1 as int) == c2);
        assert(connected(
            g,
            dim,
            owner,
            (a[ka1].0 as int, a[ka1].1 as int),
            (a[ka2].0 as int, a[ka2].1 as int),
        ));
    }
    assert forall|k1: int, c: (int, int)|
        #![trigger connected(g, dim, owner, (b[k1].0 as int, b[k1].1 as int), c)]
        0 <= k1 < b.len() && in_grid(dim, c) && g[c.0][c.1] == owner && connected(
            g,
            dim,
            owner,
            (b[k1].0 as int, b[k1].1 as int),
            c,
        ) implies cells_contain(b, c) by {
        let c1 = (b[k1].0 as int, b[k1].1 as int);
        assert(cells_contain(b, c1));
        assert(cells_contain(a, c1));
        let ka = choose|ka: int| 0 <= ka < a.len() && ((a[ka].0 as int, a[ka].1 as int) == c1);
        assert(connected(g, dim, owner, (a[ka].0 as int, a[ka].1 as int), c));
        assert(cells_contain(a, c));
    }
}

/// Whether a cell list holds exactly the block's grid cells that lie
/// strictly before the scan position, in the row-major sense.
pub open spec fn collected_upto(
    blk: Seq<(i32, i32, i8)>,
    cells: Seq<(usize, usize)>,
    dim: int,
    x: int,
    y: int,
) -> bool {
    forall|c: (int, int)|
        #![trigger cells_contain(cells, c)]
        #![trigger in_block(blk, c)]
        cells_contain(cells, c) <==> (in_block(blk, c) && in_grid(dim, c) && (c.0 < x || (c.0 == x
            && c.1 < y)))
}

impl<const D: usize> GoBand<D> {
    /// The working block's cells in row-major order: the board rescanned for
    /// collected stones, so the listing no longer depends on the order the
    /// flood fill happened to reach them.
    fn sorted_block_cells(&self) -> (r: Vec<(usize, usize)>)
        requires
            self.wf(),
        ensures
            forall|c: (int, int)|
                #![trigger cells_contain(r@, c)]
                #![trigger in_block(self.stone_block@, c)]
                cells_contain(r@, c) <==> (in_block(self.stone_block@, c) && in_grid(
                    D as int,
                    c,
                )),
            forall|k1: int, k2: int| 0 <= k1 < k2 < r@.len() ==> row_major_lt(
                (#[trigger] r@[k1]),
                (#[trigger] r@[k2]),
            ),
    {
        let ghost blk = self.stone_block@;
        let ghost dim = D as int;
        let mut cells: Vec<(usize, usize)> = Vec::new();
        let mut x: usize = 0;
        while x < D
            invariant
                0 <= x <= D,
                self.wf(),
                dim == D as int,
                blk == self.stone_block@,
                collected_upto(blk, cells@, dim, x as int, 0),
                forall|k1: int, k2: int| 0 <= k1 < k2 < cells@.len() ==> row_major_lt(
                    (#[trigger] cells@[k1]),
                    (#[trigger] cells@[k2]),
                ),
                forall|k: int| 0 <= k < cells@.len() ==> (#[trigger] cells@[k]).0 < x,
            decreases D - x,
        {
            let mut y: usize = 0;
            proof {
                assert(collected_upto(blk, cells@, dim, x as int, 0 as int));
            }
            while y < D
                invariant
                    0 <= x < D,
                    0 <= y <= D,
                    self.wf(),
                    dim == D as int,
                    blk == self.stone_block@,
                    collected_upto(blk, cells@, dim, x as int, y as int),
                    forall|k1: int, k2: int| 0 <= k1 < k2 < cells@.len() ==> row_major_lt(
                        (#[trigger] cells@[k1]),
                        (#[trigger] cells@[k2]),
                    ),
                    forall|k: int| 0 <= k < cells@.len() ==> ((#[trigger] cells@[k]).0 < x || (
                    cells@[k].0 == x && cells@[k].1 < y)),
                decreases D - y,
            {
                let ghost cells0 = cells@;
                if self.is_in_block(x as i32, y as i32) {
                    cells.push((x, y));
                    proof {
                        assert(((x as i32) as int, (y as i32) as int) == (x as int, y as int));
                        assert(collected_upto(blk, cells@, dim, x as int, y as int + 1)) by {
                            assert forall|c: (int, int)|
                                #![trigger cells_contain(cells@, c)]
                                #![trigger in_block(blk, c)]
                                cells_contain(cells@, c) <==> (in_block(blk, c) && in_grid(
                                dim,
                                c,
                            ) && (c.0 < x || (c.0 == x && c.1 < y + 1))) by {
                                if cells_contain(cells@, c) {
                                    let k = choose|k: int|
                                        0 <= k < cells@.len() && (((#[trigger] cells@[k]).0 as int,
                                        cells@[k].1 as int) == c);
                                    if k < cells0.len() {
                                        assert(cells@[k] == cells0[k]);
                                        assert(cells_contain(cells0, c));
                                        assert(collected_upto(blk, cells0, dim, x as int, y as int));
                                    } else {
                                        assert(cells@[k] == (x, y));
                                    }
                                }
                                if in_block(blk, c) && in_grid(dim, c) && (c.0 < x || (c.0 == x
                                    && c.1 < y + 1)) {
                                    if c.0 < x || (c.0 == x && c.1 < y) {
                                        assert(collected_upto(blk, cells0, dim, x as int, y as int));
                                        assert(cells_contain(cells0, c));
                                        let k = choose|k: int|
                                            0 <= k < cells0.len() && (((
                                            #[trigger] cells0[k]).0 as int,
                                            cells0[k].1 as int) == c);
                                        assert(cells@[k] == cells0[k]);
                                        assert(cells_contain(cells@, c));
                                    } else {
                                        assert(c == (x as int, y as int));
                                        assert(((cells@[cells0.len() as int]).0 as int,
                                        cells@[cells0.len() as int].1 as int) == c);
                                        assert(cells_contain(cells@, c));
                                    }
                                }
                            }
                        }
                    }
                } else {
                    proof {
                        assert(((x as i32) as int, (y as i32) as int) == (x as int, y as int));
                        assert(collected_upto(blk, cells@, dim, x as int, y as int + 1)) by {
                            assert forall|c: (int, int)|
                                #![trigger cells_contain(cells@, c)]
                                #![trigger in_block(blk, c)]
                                cells_contain(cells@, c) <==> (in_block(blk, c) && in_grid(
                                dim,
                                c,
                            ) && (c.0 < x || (c.0 == x && c.1 < y + 1))) by {
                                assert(collected_upto(blk, cells@, dim, x as int, y as int));
                                if cells_contain(cells@, c) {
                                }
                                if in_block(blk, c) && in_grid(dim, c) && (c.0 < x || (c.0 == x
                                    && c.1 < y + 1)) {
                                    if !(c.0 < x || (c.0 == x && c.1 < y)) {
                                        assert(c == (x as int, y as int));
                                        assert(!in_block(blk, c));
                                    }
                                }
                            }
                        }
                    }
                }
                y = y + 1;
            }
            proof {
                assert(collected_upto(blk, cells@, dim, x as int + 1, 0 as int)) by {
                    assert forall|c: (int, int)|
                        #![trigger cells_contain(cells@, c)]
                        #![trigger in_block(blk, c)]
                        cells_contain(cells@, c) <==> (in_block(blk, c) && in_grid(dim, c) && (
                        c.0 < x + 1 || (c.0 == x + 1 && c.1 < 0))) by {
                        assert(collected_upto(blk, cells@, dim, x as int, D as int));
                        if in_block(blk, c) && in_grid(dim, c) && c.0 < x + 1 {
                            assert(c.0 < x || (c.0 == x && c.1 < D as int));
                        }
                    }
                }
                assert forall|k: int| 0 <= k < cells@.len() implies (#[trigger] cells@[k]).0 < x
                    + 1 by {
                    assert(cells@[k].0 < x || (cells@[k].0 == x && cells@[k].1 < y));
                }
            }
            x = x + 1;
        }
        proof {
            assert forall|c: (int, int)|
                #![trigger cells_contain(cells@, c)]
                #![trigger in_block(blk, c)]
                cells_contain(cells@, c) <==> (in_block(blk, c) && in_grid(dim, c)) by {
                assert(collected_upto(blk, cells@, dim, D as int, 0 as int));
                if in_block(blk, c) && in_grid(dim, c) {
                    assert(c.0 < D as int);
                }
            }
        }
        cells
    }
}

/// Two complete dead groups that do not share their seed share nothing.
proof fn lemma_groups_disjoint(
    g: Seq<Seq<i8>>,
    dim: int,
    cells: Seq<(usize, usize)>,
    st: i8,
    e_cells: Seq<(usize, usize)>,
    e_owner: i8,
    seed: (int, int),
)
    requires
        dead_group_entry(g, dim, cells, st),
        dead_group_entry(g, dim, e_cells, e_owner),
        cells_contain(cells, seed),
        !cells_contain(e_cells, seed),
    ensures
        forall|c: (int, int)| cells_contain(cells, c) ==> !cells_contain(e_cells, c),
{
    assert forall|c: (int, int)| cells_contain(cells, c) implies !cells_contain(e_cells, c) by {
        if cells_contain(e_cells, c) {
            let ks = choose|k: int|
                0 <= k < cells.len() && ((cells[k].0 as int, cells[k].1 as int) == seed);
            let kc = choose|k: int|
                0 <= k < cells.len() && ((cells[k].0 as int, cells[k].1 as int) == c);
            let ke = choose|k: int|
                0 <= k < e_cells.len() && ((e_cells[k].0 as int, e_cells[k].1 as int) == c);
            assert(g[c.0][c.1] == st);
            assert(g[c.0][c.1] == e_owner);
            assert(connected(g, dim, st, seed, c)) by {
                assert(connected(
                    g,
                    dim,
                    st,
                    (cells[ks].0 as int, cells[ks].1 as int),
                    (cells[kc].0 as int, cells[kc].1 as int),
                ));
            }
            lemma_connected_sym(g, dim, st, seed, c);
            assert(connected(g, dim, e_owner, (e_cells[ke].0 as int, e_cells[ke].1 as int), seed));
            assert(in_grid(dim, seed) && g[seed.0][seed.1] == e_owner);
            assert(cells_contain(e_cells, seed));
        }
    }
}

impl<const D: usize> GoBand<D> {
    /// Scans the whole board for groups without liberties: the result lists
    /// every such group exactly once, completely, with its owner; no list
    /// comes back when no group is captured. Each group's cells are listed
    /// in row-major order and the groups stand most recently discovered
    /// first — their leading cells run row-major backwards — so the result
    /// is a function of the grid alone. Only the scratch block changes; the
    /// grid itself is left as it was.
    pub fn can_eat_stones(&mut self, stone_state: i8) -> (r: Option<
        Vec<(Vec<(usize, usize)>, i8)>,
    >)
        requires
            old(self).wf(),
        ensures
            *final(self) == (GoBand::<D> { stone_block: final(self).stone_block, ..*old(self) }),
            final(self).wf(),
            match r {
                None => forall|c: (int, int)| !#[trigger] dead_cell(old(self).grid(), D as int, c),
                Some(l) => {
                    &&& l@.len() > 0
                    &&& forall|k: int| 0 <= k < l@.len() ==> dead_group_entry(
                        old(self).grid(),
                        D as int,
                        (#[trigger] l@[k]).0@,
                        l@[k].1,
                    )
                    &&& forall|k1: int, k2: int, c: (int, int)|
                        #![trigger cells_contain(l@[k1].0@, c), cells_contain(l@[k2].0@, c)]
                        0 <= k1 < k2 < l@.len() && cells_contain(l@[k1].0@, c) ==> !cells_contain(
                            l@[k2].0@,
                            c,
                        )
                    &&& forall|c: (int, int)| dead_cell(old(self).grid(), D as int, c)
                        ==> in_entries(l@, c)
                    &&& forall|k: int, c1: int, c2: int|
                        #![trigger l@[k].0@[c1], l@[k].0@[c2]]
                        0 <= k < l@.len() && 0 <= c1 < c2 < l@[k].0@.len() ==> row_major_lt(
                            l@[k].0@[c1],
                            l@[k].0@[c2],
                        )
                    &&& forall|k1: int, k2: int| 0 <= k1 < k2 < l@.len() ==> row_major_lt(
                        (#[trigger] l@[k2]).0@[0],
                        (#[trigger] l@[k1]).0@[0],
                    )
                },
            },
    {
        let ghost g = old(self).grid();
        let ghost dim = D as int;
        let mut eaten_stones_list: Vec<(Vec<(usize, usize)>, i8)> = Vec::new();
        let mut i: usize = 0;
        while i < D
            invariant
                0 <= i <= D,
                self.wf(),
                dim == D as int,
                *self == (GoBand::<D> { stone_block: self.stone_block, ..*old(self) }),
                g == self.grid(),
                forall|k: int| 0 <= k < eaten_stones_list@.len() ==> dead_group_entry(
                    g,
                    dim,
                    (#[trigger] eaten_stones_list@[k]).0@,
                    eaten_stones_list@[k].1,
                ),
                forall|k1: int, k2: int, c: (int, int)|
                    #![trigger cells_contain(eaten_stones_list@[k1].0@, c), cells_contain(eaten_stones_list@[k2].0@, c)]
                    0 <= k1 < k2 < eaten_stones_list@.len() && cells_contain(
                        eaten_stones_list@[k1].0@,
                        c,
                    ) ==> !cells_contain(eaten_stones_list@[k2].0@, c),
                forall|c: (int, int)| c.0 < i && dead_cell(g, dim, c) ==> in_entries(
                    eaten_stones_list@,
                    c,
                ),
                forall|k: int, c1: int, c2: int|
                    #![trigger eaten_stones_list@[k].0@[c1], eaten_stones_list@[k].0@[c2]]
                    0 <= k < eaten_stones_list@.len() && 0 <= c1 < c2
                        < eaten_stones_list@[k].0@.len() ==> row_major_lt(
                        eaten_stones_list@[k].0@[c1],
                        eaten_stones_list@[k].0@[c2],
                    ),
                forall|k1: int, k2: int| 0 <= k1 < k2 < eaten_stones_list@.len() ==> row_major_lt(
                    (#[trigger] eaten_stones_list@[k2]).0@[0],
                    (#[trigger] eaten_stones_list@[k1]).0@[0],
                ),
                forall|k: int| 0 <= k < eaten_stones_list@.len()
                    ==> (#[trigger] eaten_stones_list@[k]).0@[0].0 < i,
            decreases D - i,
        {
            let mut j: usize = 0;
            while j < D
                invariant
                    0 <= i < D,
                    0 <= j <= D,
                    self.wf(),
                    dim == D as int,
                    *self == (GoBand::<D> { stone_block: self.stone_block, ..*old(self) }),
                    g == self.grid(),
                    forall|k: int| 0 <= k < eaten_stones_list@.len() ==> dead_group_entry(
                        g,
                        dim,
                        (#[trigger] eaten_stones_list@[k]).0@,
                        eaten_stones_list@[k].1,
                    ),
                    forall|k1: int, k2: int, c: (int, int)|
                        #![trigger cells_contain(eaten_stones_list@[k1].0@, c), cells_contain(eaten_stones_list@[k2].0@, c)]
                        0 <= k1 < k2 < eaten_stones_list@.len() && cells_contain(
                            eaten_stones_list@[k1].0@,
                            c,
                        ) ==> !cells_contain(eaten_stones_list@[k2].0@, c),
                    forall|c: (int, int)|
                        (c.0 < i || (c.0 == i && c.1 < j)) && dead_cell(g, dim, c) ==> in_entries(
                            eaten_stones_list@,
                            c,
                        ),
                    forall|k: int, c1: int, c2: int|
                        #![trigger eaten_stones_list@[k].0@[c1], eaten_stones_list@[k].0@[c2]]
                        0 <= k < eaten_stones_list@.len() && 0 <= c1 < c2
                            < eaten_stones_list@[k].0@.len() ==> row_major_lt(
                            eaten_stones_list@[k].0@[c1],
                            eaten_stones_list@[k].0@[c2],
                        ),
                    forall|k1: int, k2: int| 0 <= k1 < k2 < eaten_stones_list@.len()
                        ==> row_major_lt(
                        (#[trigger] eaten_stones_list@[k2]).0@[0],
                        (#[trigger] eaten_stones_list@[k1]).0@[0],
                    ),
                    forall|k: int| 0 <= k < eaten_stones_list@.len()
                        ==> ((#[trigger] eaten_stones_list@[k]).0@[0].0 < i || (
                    eaten_stones_list@[k].0@[0].0 == i && eaten_stones_list@[k].0@[0].1 < j)),
                decreases D - j,
            {
                let ghost here = (i as int, j as int);
                let st = self.stone_state[i][j];
                let mut skip = st == 0;
                if !skip && Self::list_contains(&eaten_stones_list, i, j) {
                    skip = true;
                }
                if !skip {
                    self.stone_block.clear();
                    let mut cur_state = stone_state;
                    cur_state = st;
                    self.stone_block.push((i as i32, j as i32, cur_state));
                    proof {
                        assert(entry_cell(self.stone_block@[0]) == here);
                        assert(in_block(self.stone_block@, here));
                        assert(block_ok(g, dim, cur_state, self.stone_block@));
                    }
                    let ghost b_seed = self.stone_block@;
                    self.check_stone_block(i as i32, j as i32, cur_state);
                    let ghost blk = self.stone_block@;
                    proof {
                        assert(blk[0] == blk.take(1)[0]);
                        assert(entry_cell(blk[0]) == here);
                        lemma_connected_refl(g, dim, cur_state, here);
                        assert forall|k: int| 0 <= k < blk.len() implies connected(
                            g,
                            dim,
                            cur_state,
                            here,
                            entry_cell(#[trigger] blk[k]),
                        ) by {
                            if k == 0 {
                                assert(entry_cell(blk[0]) == here);
                            }
                        }
                        assert forall|k: int| 0 <= k < blk.len() implies closed_at(
                            g,
                            dim,
                            cur_state,
                            blk,
                            entry_cell(#[trigger] blk[k]),
                        ) by {
                            if k == 0 {
                                assert(closed_at(g, dim, cur_state, blk, here));
                            }
                        }
                    }
                    if !self.is_alive() {
                        let ghost cells_g = Seq::new(
                            blk.len(),
                            |k: int| ((blk[k].0 as usize, blk[k].1 as usize)),
                        );
                        proof {
                            assert forall|k: int| 0 <= k < blk.len() implies ((
                            #[trigger] cells_g[k]).0 as int, cells_g[k].1 as int) == entry_cell(
                                blk[k],
                            ) by {
                                assert(in_grid(dim, entry_cell(blk[k])));
                            }
                            assert(cells_contain(cells_g, here)) by {
                                assert(((cells_g[0]).0 as int, cells_g[0].1 as int) == here);
                            }
                            assert forall|k1: int, k2: int| 0 <= k1 < k2 < cells_g.len() implies
                                ((#[trigger] cells_g[k1]).0, cells_g[k1].1) != ((
                            #[trigger] cells_g[k2]).0, cells_g[k2].1) by {
                                assert(entry_cell(blk[k1]) != entry_cell(blk[k2]));
                            }
                            assert(dead_group_entry(g, dim, cells_g, cur_state)) by {
                                assert forall|k1: int, k2: int|
                                    0 <= k1 < cells_g.len() && 0 <= k2 < cells_g.len() implies
                                    connected(
                                    g,
                                    dim,
                                    cur_state,
                                    ((#[trigger] cells_g[k1]).0 as int, cells_g[k1].1 as int),
                                    ((#[trigger] cells_g[k2]).0 as int, cells_g[k2].1 as int),
                                ) by {
                                    lemma_connected_sym(g, dim, cur_state, here, entry_cell(blk[k1]));
                                    lemma_connected_trans(
                                        g,
                                        dim,
                                        cur_state,
                                        entry_cell(blk[k1]),
                                        here,
                                        entry_cell(blk[k2]),
                                    );
                                }
                                assert forall|k1: int, c: (int, int)|
                                    #![trigger connected(g, dim, cur_state, (cells_g[k1].0 as int, cells_g[k1].1 as int), c)]
                                    0 <= k1 < cells_g.len() && in_grid(dim, c) && g[c.0][c.1]
                                        == cur_state && connected(
                                        g,
                                        dim,
                                        cur_state,
                                        (cells_g[k1].0 as int, cells_g[k1].1 as int),
                                        c,
                                    ) implies cells_contain(cells_g, c) by {
                                    lemma_connected_trans(
                                        g,
                                        dim,
                                        cur_state,
                                        here,
                                        entry_cell(blk[k1]),
                                        c,
                                    );
                                    lemma_closed_block_contains_group(g, dim, cur_state, blk, here, c);
                                    let kb = choose|kb: int|
                                        0 <= kb < blk.len() && entry_cell(blk[kb]) == c;
                                    assert(((cells_g[kb]).0 as int, cells_g[kb].1 as int) == c);
                                }
                            }
                        }
                        let cells = self.sorted_block_cells();
                        proof {
                            assert forall|c: (int, int)| cells_contain(cells@, c)
                                <==> cells_contain(cells_g, c) by {
                                if cells_contain(cells@, c) {
                                    assert(in_block(blk, c) && in_grid(dim, c));
                                    let kb = choose|kb: int|
                                        0 <= kb < blk.len() && entry_cell(#[trigger] blk[kb])
                                            == c;
                                    assert(((cells_g[kb]).0 as int, cells_g[kb].1 as int) == c);
                                }
                                if cells_contain(cells_g, c) {
                                    let kg = choose|kg: int|
                                        0 <= kg < cells_g.len() && (((
                                        #[trigger] cells_g[kg]).0 as int,
                                        cells_g[kg].1 as int) == c);
                                    assert(entry_cell(blk[kg]) == c);
                                    assert(in_block(blk, c));
                                    assert(in_grid(dim, entry_cell(blk[kg])));
                                }
                            }
                            assert forall|k1: int, k2: int| 0 <= k1 < k2 < cells@.len() implies ((
                            #[trigger] cells@[k1]).0, cells@[k1].1) != ((#[trigger] cells@[k2]).0,
                            cells@[k2].1) by {
                                assert(row_major_lt(cells@[k1], cells@[k2]));
                            }
                            lemma_entry_same_cells(g, dim, cells_g, cells@, cur_state);
                            assert(cells_contain(cells@, here));
                            lemma_entry_dead(g, dim, cells@, cur_state);
                            assert forall|k: int| 0 <= k < cells@.len() implies !((
                            #[trigger] cells@[k]).0 < i || (cells@[k].0 == i && cells@[k].1 < j))
                                by {
                                let c = (cells@[k].0 as int, cells@[k].1 as int);
                                if cells@[k].0 < i || (cells@[k].0 == i && cells@[k].1 < j) {
                                    assert(((cells@[k]).0 as int, cells@[k].1 as int) == c);
                                    assert(cells_contain(cells@, c));
                                    assert(dead_cell(g, dim, c));
                                    assert(in_entries(eaten_stones_list@, c));
                                    let ke = choose|ke: int|
                                        0 <= ke < eaten_stones_list@.len() && cells_contain(
                                            (#[trigger] eaten_stones_list@[ke]).0@,
                                            c,
                                        );
                                    lemma_groups_disjoint(
                                        g,
                                        dim,
                                        cells@,
                                        cur_state,
                                        eaten_stones_list@[ke].0@,
                                        eaten_stones_list@[ke].1,
                                        here,
                                    );
                                    assert(!cells_contain(eaten_stones_list@[ke].0@, c));
                                }
                            }
                            let m = choose|m: int|
                                0 <= m < cells@.len() && (((#[trigger] cells@[m]).0 as int,
                                cells@[m].1 as int) == here);
                            assert(cells@[m] == (i, j));
                            assert(m == 0) by {
                                if m > 0 {
                                    assert(row_major_lt(cells@[0], cells@[m]));
                                    assert(!(cells@[0].0 < i || (cells@[0].0 == i && cells@[0].1
                                        < j)));
                                }
                            }
                            assert(cells@[0] == (i, j));
                        }
                        let ghost cellsv = cells@;
                        let ghost l_pre = eaten_stones_list@;
                        eaten_stones_list.insert(0, (cells, cur_state));
                        proof {
                            let l_new = eaten_stones_list@;
                            assert(l_new[0].0@ == cells@ && l_new[0].1 == cur_state);
                            assert forall|k: int| 0 <= k < l_pre.len() implies l_new[k + 1]
                                == l_pre[k] by {}
                            assert forall|k: int| 0 <= k < l_new.len() implies dead_group_entry(
                                g,
                                dim,
                                (#[trigger] l_new[k]).0@,
                                l_new[k].1,
                            ) by {
                                if k > 0 {
                                    assert(l_new[k] == l_pre[k - 1]);
                                }
                            }
                            assert forall|k1: int, k2: int, c: (int, int)|
                                #![trigger cells_contain(l_new[k1].0@, c), cells_contain(l_new[k2].0@, c)]
                                0 <= k1 < k2 < l_new.len() && cells_contain(l_new[k1].0@, c)
                                implies !cells_contain(l_new[k2].0@, c) by {
                                if k1 == 0 {
                                    assert(l_new[k2] == l_pre[k2 - 1]);
                                    lemma_groups_disjoint(
                                        g,
                                        dim,
                                        cells@,
                                        cur_state,
                                        l_pre[k2 - 1].0@,
                                        l_pre[k2 - 1].1,
                                        here,
                                    );
                                } else {
                                    assert(l_new[k1] == l_pre[k1 - 1]);
                                    assert(l_new[k2] == l_pre[k2 - 1]);
                                }
                            }
                            assert forall|k: int, c1: int, c2: int|
                                #![trigger l_new[k].0@[c1], l_new[k].0@[c2]]
                                0 <= k < l_new.len() && 0 <= c1 < c2 < l_new[k].0@.len() implies
                                row_major_lt(l_new[k].0@[c1], l_new[k].0@[c2]) by {
                                if k > 0 {
                                    assert(l_new[k] == l_pre[k - 1]);
                                    assert(row_major_lt(
                                        l_pre[k - 1].0@[c1],
                                        l_pre[k - 1].0@[c2],
                                    ));
                                } else {
                                    assert(row_major_lt(cellsv[c1], cellsv[c2]));
                                }
                            }
                            assert forall|k1: int, k2: int| 0 <= k1 < k2 < l_new.len() implies
                                row_major_lt(
                                (#[trigger] l_new[k2]).0@[0],
                                (#[trigger] l_new[k1]).0@[0],
                            ) by {
                                if k1 == 0 {
                                    assert(l_new[k2] == l_pre[k2 - 1]);
                                    assert(l_pre[k2 - 1].0@[0].0 < i || (l_pre[k2 - 1].0@[0].0
                                        == i && l_pre[k2 - 1].0@[0].1 < j));
                                    assert(l_new[0].0@[0] == (i, j));
                                } else {
                                    assert(l_new[k1] == l_pre[k1 - 1]);
                                    assert(l_new[k2] == l_pre[k2 - 1]);
                                }
                            }
                            assert forall|k: int| 0 <= k < l_new.len() implies ((
                            #[trigger] l_new[k]).0@[0].0 < i || (l_new[k].0@[0].0 == i
                                && l_new[k].0@[0].1 < j + 1)) by {
                                if k > 0 {
                                    assert(l_new[k] == l_pre[k - 1]);
                                } else {
                                    assert(l_new[0].0@[0] == (i, j));
                                }
                            }
                            assert forall|c: (int, int)|
                                (c.0 < i || (c.0 == i && c.1 < j + 1)) && dead_cell(g, dim, c)
                                implies in_entries(l_new, c) by {
                                if c == here {
                                    assert(cells_contain(l_new[0].0@, c));
                                } else {
                                    assert(in_entries(l_pre, c));
                                    let k = choose|k: int|
                                        0 <= k < l_pre.len() && cells_contain(
                                            (#[trigger] l_pre[k]).0@,
                                            c,
                                        );
                                    assert(cells_contain(l_new[k + 1].0@, c));
                                }
                            }
                        }
                    } else {
                        proof {
                            let kw = choose|kw: int|
                                0 <= kw < blk.len() && cell_has_liberty(
                                    g,
                                    dim,
                                    entry_cell(#[trigger] blk[kw]),
                                );
                            assert(connected(g, dim, cur_state, here, entry_cell(blk[kw])));
                            assert(g[here.0][here.1] == cur_state);
                            assert(group_alive(g, dim, here));
                            assert(!dead_cell(g, dim, here));
                        }
                    }
                } else {
                    proof {
                        if st == 0 {
                            assert(!dead_cell(g, dim, here));
                        } else {
                            assert(in_entries(eaten_stones_list@, here));
                        }
                    }
                }
                j = j + 1;
            }
            i = i + 1;
        }
        if eaten_stones_list.len() > 0 {
            Some(eaten_stones_list)
        } else {
            proof {
                assert forall|c: (int, int)| !#[trigger] dead_cell(g, dim, c) by {
                    if dead_cell(g, dim, c) {
                        assert(in_entries(eaten_stones_list@, c));
                    }
                }
            }
            None
        }
    }
}


/// Whether a captured-stone list covers a cell.
pub open spec fn stones_cover(cs: Seq<(usize, usize, i8)>, cell: (int, int)) -> bool {
    exists|k: int| 0 <= k < cs.len() && ((#[trigger] cs[k]).0 as int, cs[k].1 as int) == cell
}

/// Whether two stones lie in different groups.
pub open spec fn in_different_groups(g: Seq<Seq<i8>>, dim: int, d1: (int, int), d2: (int, int)) -> bool {
    !(g[d1.0][d1.1] == g[d2.0][d2.1] && connected(g, dim, g[d1.0][d1.1], d1, d2))
}

/// Whether two dead stones lie in different groups.
pub open spec fn multiple_dead_groups(g: Seq<Seq<i8>>, dim: int) -> bool {
    exists|d1: (int, int), d2: (int, int)|
        #![trigger dead_cell(g, dim, d1), dead_cell(g, dim, d2)]
        dead_cell(g, dim, d1) && dead_cell(g, dim, d2) && in_different_groups(g, dim, d1, d2)
}

/// The pure-suicide shape: after the placement the only group without
/// liberties is the mover's own.
pub open spec fn suicide_rejected(g: Seq<Seq<i8>>, dim: int, c: i8) -> bool {
    &&& exists|d: (int, int)| dead_cell(g, dim, d) && g[d.0][d.1] == c
    &&& !multiple_dead_groups(g, dim)
}

/// The single-stone-recapture shape: several groups ran out of liberties,
/// one of them the mover's own holding exactly the one stone the previous
/// move captured.
pub open spec fn ko_rejected(g: Seq<Seq<i8>>, dim: int, c: i8, moves: Seq<GoMove>) -> bool {
    &&& multiple_dead_groups(g, dim)
    &&& moves.len() > 0
    &&& moves.last().eat_stones@.len() == 1
    &&& {
        let e = moves.last().eat_stones@[0];
        &&& e.2 == c
        &&& dead_cell(g, dim, (e.0 as int, e.1 as int))
        &&& g[e.0 as int][e.1 as int] == c
    }
}

/// An intervening move clears the recapture bar: when the previously
/// recorded move captured nothing, captured more than one stone, or
/// captured a stone that is not the mover's own stone now standing without
/// liberties at its recorded cell, the forbidden single-stone-recapture
/// shape does not hold — so by `forward`'s acceptance condition the
/// recapture of the single enemy stone stands whenever it is not pure
/// suicide, and the success clauses then remove exactly the stones of the
/// enemy groups left without liberties.
pub proof fn lemma_recapture_allowed(g: Seq<Seq<i8>>, dim: int, c: i8, moves: Seq<GoMove>)
    requires
        moves.len() == 0 || moves.last().eat_stones@.len() != 1 || moves.last().eat_stones@[0].2
            != c || !dead_cell(
            g,
            dim,
            (moves.last().eat_stones@[0].0 as int, moves.last().eat_stones@[0].1 as int),
        ),
    ensures
        !ko_rejected(g, dim, c, moves),
{
}

/// Two moves that carry the same record.
pub open spec fn move_like(a: GoMove, b: GoMove) -> bool {
    a.move_id == b.move_id && a.move_pos == b.move_pos && a.eat_stones@ == b.eat_stones@
}

/// Every stone of a complete dead group is a dead cell.
proof fn lemma_entry_dead(g: Seq<Seq<i8>>, dim: int, cells: Seq<(usize, usize)>, owner: i8)
    requires
        dead_group_entry(g, dim, cells, owner),
    ensures
        forall|k: int| 0 <= k < cells.len() ==> dead_cell(
            g,
            dim,
            ((#[trigger] cells[k]).0 as int, cells[k].1 as int),
        ),
{
    assert forall|k: int| 0 <= k < cells.len() implies dead_cell(
        g,
        dim,
        ((#[trigger] cells[k]).0 as int, cells[k].1 as int),
    ) by {
        let c = (cells[k].0 as int, cells[k].1 as int);
        if group_alive(g, dim, c) {
            let b = choose|b: (int, int)|
                connected(g, dim, g[c.0][c.1], c, b) && cell_has_liberty(g, dim, b);
            let p = choose|p: Seq<(int, int)>|
                is_path(g, dim, owner, p) && p[0] == c && p.last() == b;
            assert(in_grid(dim, b) && g[b.0][b.1] == owner);
            assert(cells_contain(cells, b));
            let kb = choose|kb: int|
                0 <= kb < cells.len() && ((cells[kb].0 as int, cells[kb].1 as int) == b);
            assert(!cell_has_liberty(g, dim, b));
        }
    }
}

/// Two stones of one complete dead group lie in the same group.
proof fn lemma_same_entry_same_group(
    g: Seq<Seq<i8>>,
    dim: int,
    cells: Seq<(usize, usize)>,
    owner: i8,
    d1: (int, int),
    d2: (int, int),
)
    requires
        dead_group_entry(g, dim, cells, owner),
        cells_contain(cells, d1),
        cells_contain(cells, d2),
    ensures
        g[d1.0][d1.1] == g[d2.0][d2.1] && connected(g, dim, g[d1.0][d1.1], d1, d2),
{
    let k1 = choose|k: int|
        0 <= k < cells.len() && ((cells[k].0 as int, cells[k].1 as int) == d1);
    let k2 = choose|k: int|
        0 <= k < cells.len() && ((cells[k].0 as int, cells[k].1 as int) == d2);
    assert(connected(
        g,
        dim,
        owner,
        (cells[k1].0 as int, cells[k1].1 as int),
        (cells[k2].0 as int, cells[k2].1 as int),
    ));
}

/// A complete, disjoint capture list with a single entry means a single
/// dead group; one with two or more entries means several.
proof fn lemma_entry_count_groups(g: Seq<Seq<i8>>, dim: int, l: Seq<(Vec<(usize, usize)>, i8)>)
    requires
        forall|k: int| 0 <= k < l.len() ==> dead_group_entry(
            g,
            dim,
            (#[trigger] l[k]).0@,
            l[k].1,
        ),
        forall|k1: int, k2: int, c: (int, int)|
            #![trigger cells_contain(l[k1].0@, c), cells_contain(l[k2].0@, c)]
            0 <= k1 < k2 < l.len() && cells_contain(l[k1].0@, c) ==> !cells_contain(l[k2].0@, c),
        forall|c: (int, int)| dead_cell(g, dim, c) ==> in_entries(l, c),
    ensures
        l.len() == 1 ==> !multiple_dead_groups(g, dim),
        l.len() >= 2 ==> multiple_dead_groups(g, dim),
{
    if l.len() == 1 {
        if multiple_dead_groups(g, dim) {
            let (d1, d2) = choose|d1: (int, int), d2: (int, int)|
                #![trigger dead_cell(g, dim, d1), dead_cell(g, dim, d2)]
                dead_cell(g, dim, d1) && dead_cell(g, dim, d2) && in_different_groups(
                    g,
                    dim,
                    d1,
                    d2,
                );
            assert(dead_cell(g, dim, d1));
            assert(dead_cell(g, dim, d2));
            assert(in_entries(l, d1));
            assert(in_entries(l, d2));
            let k1 = choose|k: int| 0 <= k < l.len() && cells_contain((#[trigger] l[k]).0@, d1);
            let k2 = choose|k: int| 0 <= k < l.len() && cells_contain((#[trigger] l[k]).0@, d2);
            assert(k1 == 0 && k2 == 0);
            lemma_same_entry_same_group(g, dim, l[0].0@, l[0].1, d1, d2);
        }
    }
    if l.len() >= 2 {
        let c1 = (l[0].0@[0].0 as int, l[0].0@[0].1 as int);
        let c2 = (l[1].0@[0].0 as int, l[1].0@[0].1 as int);
        lemma_entry_dead(g, dim, l[0].0@, l[0].1);
        lemma_entry_dead(g, dim, l[1].0@, l[1].1);
        assert(cells_contain(l[0].0@, c1));
        assert(cells_contain(l[1].0@, c2));
        assert(dead_cell(g, dim, c1));
        assert(dead_cell(g, dim, c2));
        if g[c1.0][c1.1] == g[c2.0][c2.1] && connected(g, dim, g[c1.0][c1.1], c1, c2) {
            assert(g[c1.0][c1.1] == l[0].1);
            assert(g[c2.0][c2.1] == l[1].1);
            assert(connected(
                g,
                dim,
                l[0].1,
                (l[0].0@[0].0 as int, l[0].0@[0].1 as int),
                c2,
            ));
            assert(cells_contain(l[0].0@, c2));
            assert(!cells_contain(l[1].0@, c2));
        }
        assert(in_different_groups(g, dim, c1, c2));
        assert(multiple_dead_groups(g, dim));
    }
}

/// The grid after also clearing one more stone.
proof fn lemma_clear_snoc(g: Seq<Seq<i8>>, cs: Seq<(usize, usize, i8)>, e: (usize, usize, i8))
    ensures
        clear_stones(g, cs.push(e)) == board_set(clear_stones(g, cs), e.0 as int, e.1 as int, 0),
    decreases cs.len(),
{
    if cs.len() == 0 {
        assert(cs.push(e).drop_first() =~= Seq::<(usize, usize, i8)>::empty());
        assert(cs.push(e)[0] == e);
        assert(cs.push(e).len() == 1);
        assert(clear_stones(g, cs.push(e)) == clear_stones(
            board_set(g, e.0 as int, e.1 as int, 0),
            cs.push(e).drop_first(),
        ));
        assert(clear_stones(board_set(g, e.0 as int, e.1 as int, 0), Seq::<(usize, usize, i8)>::empty())
            == board_set(g, e.0 as int, e.1 as int, 0));
        assert(clear_stones(g, cs) == g);
    } else {
        assert(cs.push(e)[0] == cs[0]);
        assert(cs.push(e).drop_first() =~= cs.drop_first().push(e));
        lemma_clear_snoc(board_set(g, cs[0].0 as int, cs[0].1 as int, 0), cs.drop_first(), e);
    }
}


/// Whether the previous move's single captured stone sits in a mover-owned
/// capture candidate: the recapture shape the rules forbid.
pub open spec fn spec_ko_found(
    l: Seq<(Vec<(usize, usize)>, i8)>,
    c: i8,
    moves: Seq<GoMove>,
) -> bool {
    exists|k: int|
        0 <= k < l.len() && (#[trigger] l[k]).1 == c && moves.len() > 0
            && moves.last().eat_stones@.len() == 1 && moves.last().eat_stones@[0].2 == c
            && cells_contain(
            l[k].0@,
            (moves.last().eat_stones@[0].0 as int, moves.last().eat_stones@[0].1 as int),
        )
}

/// The three facts a capture scan reports of its list.
pub open spec fn capture_list_ok(g: Seq<Seq<i8>>, dim: int, l: Seq<(Vec<(usize, usize)>, i8)>) -> bool {
    &&& forall|k: int| 0 <= k < l.len() ==> dead_group_entry(g, dim, (#[trigger] l[k]).0@, l[k].1)
    &&& forall|k1: int, k2: int, c: (int, int)|
        #![trigger cells_contain(l[k1].0@, c), cells_contain(l[k2].0@, c)]
        0 <= k1 < k2 < l.len() && cells_contain(l[k1].0@, c) ==> !cells_contain(l[k2].0@, c)
    &&& forall|c: (int, int)| dead_cell(g, dim, c) ==> in_entries(l, c)
}

/// A single enemy-owned candidate rules both rejections out.
proof fn lemma_no_suicide_single_enemy(
    g: Seq<Seq<i8>>,
    dim: int,
    l: Seq<(Vec<(usize, usize)>, i8)>,
    c: i8,
)
    requires
        capture_list_ok(g, dim, l),
        l.len() == 1,
        l[0].1 != c,
    ensures
        !suicide_rejected(g, dim, c),
        !multiple_dead_groups(g, dim),
        forall|d: (int, int)| !(#[trigger] dead_cell(g, dim, d) && g[d.0][d.1] == c),
{
    lemma_entry_count_groups(g, dim, l);
    assert forall|d: (int, int)| !(#[trigger] dead_cell(g, dim, d) && g[d.0][d.1] == c) by {
        if dead_cell(g, dim, d) && g[d.0][d.1] == c {
            assert(in_entries(l, d));
            let k = choose|k: int| 0 <= k < l.len() && cells_contain((#[trigger] l[k]).0@, d);
            let kc = choose|kc: int|
                0 <= kc < l[0].0@.len() && ((l[0].0@[kc].0 as int, l[0].0@[kc].1 as int) == d);
            assert(g[d.0][d.1] == l[0].1);
        }
    }
}

/// A found recapture shape is the forbidden one.
proof fn lemma_ko_scan_sound(
    g: Seq<Seq<i8>>,
    dim: int,
    l: Seq<(Vec<(usize, usize)>, i8)>,
    c: i8,
    moves: Seq<GoMove>,
)
    requires
        capture_list_ok(g, dim, l),
        l.len() >= 2,
        spec_ko_found(l, c, moves),
    ensures
        ko_rejected(g, dim, c, moves),
{
    lemma_entry_count_groups(g, dim, l);
    let k = choose|k: int|
        0 <= k < l.len() && (#[trigger] l[k]).1 == c && moves.len() > 0
            && moves.last().eat_stones@.len() == 1 && moves.last().eat_stones@[0].2 == c
            && cells_contain(
            l[k].0@,
            (moves.last().eat_stones@[0].0 as int, moves.last().eat_stones@[0].1 as int),
        );
    let z = (moves.last().eat_stones@[0].0 as int, moves.last().eat_stones@[0].1 as int);
    lemma_entry_dead(g, dim, l[k].0@, l[k].1);
    let kc = choose|kc: int|
        0 <= kc < l[k].0@.len() && ((l[k].0@[kc].0 as int, l[k].0@[kc].1 as int) == z);
    assert(dead_cell(g, dim, z));
    assert(g[z.0][z.1] == c);
}

/// With no recapture shape among the candidates the forbidden case cannot
/// hold.
proof fn lemma_ko_scan_complete(
    g: Seq<Seq<i8>>,
    dim: int,
    l: Seq<(Vec<(usize, usize)>, i8)>,
    c: i8,
    moves: Seq<GoMove>,
)
    requires
        capture_list_ok(g, dim, l),
        !spec_ko_found(l, c, moves),
    ensures
        !ko_rejected(g, dim, c, moves),
{
    if ko_rejected(g, dim, c, moves) {
        let z = (moves.last().eat_stones@[0].0 as int, moves.last().eat_stones@[0].1 as int);
        assert(dead_cell(g, dim, z));
        assert(in_entries(l, z));
        let k = choose|k: int| 0 <= k < l.len() && cells_contain((#[trigger] l[k]).0@, z);
        let kc = choose|kc: int|
            0 <= kc < l[k].0@.len() && ((l[k].0@[kc].0 as int, l[k].0@[kc].1 as int) == z);
        assert(g[z.0][z.1] == l[k].1);
        assert(l[k].1 == c);
        assert(spec_ko_found(l, c, moves));
    }
}

impl<const D: usize> GoBand<D> {
    /// Scans mover-owned capture candidates for the forbidden recapture
    /// shape.
    fn ko_scan(
        cands: &Vec<(Vec<(usize, usize)>, i8)>,
        cur_state: i8,
        go_moves: &Vec<GoMove>,
    ) -> (r: bool)
        ensures
            r == spec_ko_found(cands@, cur_state, go_moves@),
    {
        if go_moves.len() == 0 {
            return false;
        }
        let last = &go_moves[go_moves.len() - 1];
        if last.eat_stones.len() != 1 {
            return false;
        }
        let (ex, ey, es) = last.eat_stones[0];
        if es != cur_state {
            return false;
        }
        let mut k: usize = 0;
        while k < cands.len()
            invariant_except_break
                0 <= k <= cands@.len(),
                go_moves@.len() > 0,
                go_moves@.last().eat_stones@.len() == 1,
                go_moves@.last().eat_stones@[0] == (ex, ey, es),
                es == cur_state,
                forall|k2: int| 0 <= k2 < k ==> !((#[trigger] cands@[k2]).1 == cur_state
                    && cells_contain(cands@[k2].0@, (ex as int, ey as int))),
            ensures
                (k < cands@.len()) == spec_ko_found(cands@, cur_state, go_moves@),
            decreases cands@.len() - k,
        {
            if cands[k].1 == cur_state && Self::entry_contains(&cands[k].0, ex, ey) {
                break ;
            }
            k = k + 1;
        }
        k < cands.len()
    }

    /// Whether one candidate's cell list holds the cell.
    fn entry_contains(cells: &Vec<(usize, usize)>, x: usize, y: usize) -> (r: bool)
        ensures
            r == cells_contain(cells@, (x as int, y as int)),
    {
        let mut c: usize = 0;
        while c < cells.len()
            invariant_except_break
                0 <= c <= cells@.len(),
                forall|c2: int| 0 <= c2 < c ==> ((#[trigger] cells@[c2]).0 as int,
                cells@[c2].1 as int) != (x as int, y as int),
            ensures
                (c < cells@.len()) == cells_contain(cells@, (x as int, y as int)),
            decreases cells@.len() - c,
        {
            let (cx, cy) = cells[c];
            if cx == x && cy == y {
                break ;
            }
            c = c + 1;
        }
        c < cells.len()
    }
}


impl<const D: usize> GoBand<D> {
    /// Applies the mover's stone at the remembered cursor cell, if legal:
    /// the cell must be empty and, unless the move replays a record, match
    /// the preview; the placement must be neither pure suicide nor an
    /// immediate recapture of a single just-captured stone. On success every
    /// enemy group left without liberties is removed from the grid and
    /// recorded, with its prior owners, on the returned and remembered move;
    /// on rejection the grid, the turn and the history are exactly as
    /// before.
    #[verifier::rlimit(100)]
    pub fn forward(&mut self, from_sgf: bool) -> (r: Option<GoMove>)
        requires
            old(self).wf(),
        ensures
            final(self).wf(),
            *final(self) == (GoBand::<D> {
                stone_block: final(self).stone_block,
                stone_state: final(self).stone_state,
                cur_player: final(self).cur_player,
                go_moves: final(self).go_moves,
                ..*old(self)
            }),
            ({
                let pos = old(self).stone_pos;
                let aligned = pos == old(self).mouse_preview || from_sgf;
                let cell = (pos.0 as int, pos.1 as int);
                let c = player_state(old(self).cur_player);
                let g0 = old(self).grid();
                let gp = board_set(g0, cell.0, cell.1, c);
                &&& (r is Some <==> aligned && in_grid(D as int, cell) && g0[cell.0][cell.1] == 0
                    && !suicide_rejected(gp, D as int, c) && !ko_rejected(
                    gp,
                    D as int,
                    c,
                    old(self).go_moves@,
                ))
                &&& (r is None ==> final(self).grid() == old(self).grid() && final(self).cur_player
                    == old(self).cur_player && final(self).go_moves == old(self).go_moves)
                &&& (r matches Some(m) ==> {
                    &&& m.move_id == old(self).go_moves@.len()
                    &&& m.move_pos == (pos.0 as usize, pos.1 as usize, c)
                    &&& forall|k: int| 0 <= k < m.eat_stones@.len() ==> in_grid(
                        D as int,
                        ((#[trigger] m.eat_stones@[k]).0 as int, m.eat_stones@[k].1 as int),
                    ) && (m.eat_stones@[k].0 as int, m.eat_stones@[k].1 as int) != cell
                        && m.eat_stones@[k].2 == g0[m.eat_stones@[k].0 as int][m.eat_stones@[k].1 as int]
                        && m.eat_stones@[k].2 != c
                    &&& forall|k1: int, k2: int| 0 <= k1 < k2 < m.eat_stones@.len() ==> ((
                    #[trigger] m.eat_stones@[k1]).0, m.eat_stones@[k1].1) != ((
                    #[trigger] m.eat_stones@[k2]).0, m.eat_stones@[k2].1)
                    &&& forall|cl: (int, int)|
                        #![trigger stones_cover(m.eat_stones@, cl)]
                        in_grid(D as int, cl) ==> (stones_cover(m.eat_stones@, cl) <==> (
                        dead_cell(gp, D as int, cl) && gp[cl.0][cl.1] != c))
                    &&& final(self).grid() == clear_stones(gp, m.eat_stones@)
                    &&& final(self).go_moves@.len() == old(self).go_moves@.len() + 1
                    &&& final(self).go_moves@.take(old(self).go_moves@.len() as int) == old(
                        self,
                    ).go_moves@
                    &&& move_like(final(self).go_moves@.last(), m)
                    &&& final(self).cur_player == other_player(old(self).cur_player)
                })
            }),
    {
        let ghost g0 = self.grid();
        let ghost dim = D as int;
        let stone_pos = self.stone_pos;
        let mouse_preview = self.mouse_preview;
        let aligned = (stone_pos.0 == mouse_preview.0 && stone_pos.1 == mouse_preview.1)
            || from_sgf;
        if !aligned {
            return None;
        }
        let (px, py) = stone_pos;
        if !(px >= 0 && px < D as i32 && py >= 0 && py < D as i32) {
            return None;
        }
        let cur_x = px as usize;
        let cur_y = py as usize;
        if self.stone_state(cur_x, cur_y) != 0 {
            return None;
        }
        let cur_player = self.current_player();
        let cur_state: i8 = match cur_player {
            Player::BLACK => 1,
            Player::WHITE => -1,
        };
        self.set_stone_state(cur_x, cur_y, cur_state);
        self.set_current_player(
            match cur_player {
                Player::BLACK => Player::WHITE,
                Player::WHITE => Player::BLACK,
            },
        );
        let ghost gp = self.grid();
        let ghost cell = (px as int, py as int);
        let cands_opt = self.can_eat_stones(cur_state);
        let mut eaten_stones_vec: Vec<(usize, usize, i8)> = Vec::new();
        match cands_opt {
            Some(cands) => {
                let ghost l = cands@;
                proof {
                    assert(capture_list_ok(gp, dim, l));
                }
                let mut reject = false;
                if cands.len() == 1 {
                    if cands[0].1 == cur_state {
                        reject = true;
                        proof {
                            lemma_entry_count_groups(gp, dim, l);
                            lemma_entry_dead(gp, dim, l[0].0@, l[0].1);
                            let seed = (l[0].0@[0].0 as int, l[0].0@[0].1 as int);
                            assert(dead_cell(gp, dim, seed) && gp[seed.0][seed.1] == cur_state);
                            assert(suicide_rejected(gp, dim, cur_state));
                        }
                    } else {
                        proof {
                            lemma_no_suicide_single_enemy(gp, dim, l, cur_state);
                        }
                    }
                } else {
                    if Self::ko_scan(&cands, cur_state, &self.go_moves) {
                        reject = true;
                        proof {
                            lemma_ko_scan_sound(gp, dim, l, cur_state, self.go_moves@);
                        }
                    } else {
                        proof {
                            lemma_entry_count_groups(gp, dim, l);
                            lemma_ko_scan_complete(gp, dim, l, cur_state, self.go_moves@);
                        }
                    }
                }
                if reject {
                    self.set_stone_state(cur_x, cur_y, 0);
                    self.set_current_player(cur_player);
                    proof {
                        assert(self.grid() =~~= g0);
                    }
                    return None;
                }
                let mut k: usize = 0;
                while k < cands.len()
                    invariant
                        0 <= k <= cands@.len(),
                        l == cands@,
                        dim == D as int,
                        self.wf(),
                        in_grid(dim, cell),
                        cell == (px as int, py as int),
                        gp == board_set(g0, cell.0, cell.1, cur_state),
                        gp[cell.0][cell.1] == cur_state,
                        grid_wf(gp, dim),
                        capture_list_ok(gp, dim, l),
                        *self == (GoBand::<D> {
                            stone_block: self.stone_block,
                            stone_state: self.stone_state,
                            cur_player: self.cur_player,
                            ..*old(self)
                        }),
                        self.cur_player == other_player(old(self).cur_player),
                        self.grid() == clear_stones(gp, eaten_stones_vec@),
                        forall|cl: (int, int)|
                            #![trigger stones_cover(eaten_stones_vec@, cl)]
                            stones_cover(eaten_stones_vec@, cl) <==> exists|k2: int|
                                0 <= k2 < k && (#[trigger] l[k2]).1 != cur_state && cells_contain(
                                    l[k2].0@,
                                    cl,
                                ),
                        forall|e: int| 0 <= e < eaten_stones_vec@.len() ==> in_grid(
                            dim,
                            ((#[trigger] eaten_stones_vec@[e]).0 as int,
                            eaten_stones_vec@[e].1 as int),
                        ) && (eaten_stones_vec@[e].0 as int, eaten_stones_vec@[e].1 as int) != cell
                            && eaten_stones_vec@[e].2 == gp[eaten_stones_vec@[e].0 as int][
                            eaten_stones_vec@[e].1 as int] && eaten_stones_vec@[e].2 != cur_state,
                        forall|e1: int, e2: int| 0 <= e1 < e2 < eaten_stones_vec@.len() ==> ((
                        #[trigger] eaten_stones_vec@[e1]).0, eaten_stones_vec@[e1].1) != ((
                        #[trigger] eaten_stones_vec@[e2]).0, eaten_stones_vec@[e2].1),
                    decreases cands@.len() - k,
                {
                    let ghost k0 = k as int;
                    let owner = cands[k].1;
                    if owner != cur_state {
                        let cells_len = cands[k].0.len();
                        let mut c2: usize = 0;
                        while c2 < cells_len
                            invariant
                                0 <= c2 <= cells_len,
                                cells_len == l[k0].0@.len(),
                                0 <= k0 < l.len(),
                                k0 == k as int,
                                k < cands@.len(),
                                l == cands@,
                                owner == l[k0].1,
                                owner != cur_state,
                                dim == D as int,
                                self.wf(),
                                in_grid(dim, cell),
                                gp[cell.0][cell.1] == cur_state,
                                grid_wf(gp, dim),
                                capture_list_ok(gp, dim, l),
                                *self == (GoBand::<D> {
                                    stone_block: self.stone_block,
                                    stone_state: self.stone_state,
                                    cur_player: self.cur_player,
                                    ..*old(self)
                                }),
                                self.cur_player == other_player(old(self).cur_player),
                                self.grid() == clear_stones(gp, eaten_stones_vec@),
                                forall|cl: (int, int)|
                                    #![trigger stones_cover(eaten_stones_vec@, cl)]
                                    stones_cover(eaten_stones_vec@, cl) <==> ((exists|k2: int|
                                        0 <= k2 < k0 && (#[trigger] l[k2]).1 != cur_state
                                            && cells_contain(l[k2].0@, cl)) || cells_contain(
                                        l[k0].0@.take(c2 as int),
                                        cl,
                                    )),
                                forall|e: int| 0 <= e < eaten_stones_vec@.len() ==> in_grid(
                                    dim,
                                    ((#[trigger] eaten_stones_vec@[e]).0 as int,
                                    eaten_stones_vec@[e].1 as int),
                                ) && (eaten_stones_vec@[e].0 as int,
                                eaten_stones_vec@[e].1 as int) != cell && eaten_stones_vec@[e].2
                                    == gp[eaten_stones_vec@[e].0 as int][
                                eaten_stones_vec@[e].1 as int] && eaten_stones_vec@[e].2
                                    != cur_state,
                                forall|e1: int, e2: int| 0 <= e1 < e2 < eaten_stones_vec@.len()
                                    ==> ((#[trigger] eaten_stones_vec@[e1]).0,
                                eaten_stones_vec@[e1].1) != ((
                                #[trigger] eaten_stones_vec@[e2]).0, eaten_stones_vec@[e2].1),
                            decreases cells_len - c2,
                        {
                            let ghost eat0 = eaten_stones_vec@;
                            let (ex, ey) = cands[k].0[c2];
                            proof {
                                assert(in_grid(dim, (ex as int, ey as int)));
                                assert(gp[ex as int][ey as int] == owner);
                                assert((ex as int, ey as int) != cell);
                                assert(!stones_cover(eat0, (ex as int, ey as int))) by {
                                    if stones_cover(eat0, (ex as int, ey as int)) {
                                        if cells_contain(
                                            l[k0].0@.take(c2 as int),
                                            (ex as int, ey as int),
                                        ) {
                                            let cc = choose|cc: int|
                                                0 <= cc < l[k0].0@.take(c2 as int).len() && ((
                                                l[k0].0@.take(c2 as int)[cc].0 as int,
                                                l[k0].0@.take(c2 as int)[cc].1 as int) == (
                                                ex as int,
                                                ey as int,
                                                ));
                                            assert(l[k0].0@[cc] == l[k0].0@.take(c2 as int)[cc]);
                                        } else {
                                            let k2 = choose|k2: int|
                                                0 <= k2 < k0 && (#[trigger] l[k2]).1 != cur_state
                                                    && cells_contain(
                                                    l[k2].0@,
                                                    (ex as int, ey as int),
                                                );
                                            assert(cells_contain(
                                                l[k0].0@,
                                                (ex as int, ey as int),
                                            )) by {
                                                assert(((l[k0].0@[c2 as int]).0 as int,
                                                l[k0].0@[c2 as int].1 as int) == (ex as int,
                                                ey as int));
                                            }
                                        }
                                    }
                                }
                            }
                            self.set_stone_state(ex, ey, 0);
                            eaten_stones_vec.push((ex, ey, owner));
                            proof {
                                lemma_clear_snoc(gp, eat0, (ex, ey, owner));
                                assert(self.grid() == clear_stones(gp, eaten_stones_vec@)) by {
                                    assert(eaten_stones_vec@ =~= eat0.push((ex, ey, owner)));
                                }
                                assert forall|cl: (int, int)|
                                    #![trigger stones_cover(eaten_stones_vec@, cl)]
                                    stones_cover(eaten_stones_vec@, cl) <==> ((exists|k2: int|
                                        0 <= k2 < k0 && (#[trigger] l[k2]).1 != cur_state
                                            && cells_contain(l[k2].0@, cl)) || cells_contain(
                                        l[k0].0@.take(c2 as int + 1),
                                        cl,
                                    )) by {
                                    if stones_cover(eaten_stones_vec@, cl) {
                                        let e = choose|e: int|
                                            0 <= e < eaten_stones_vec@.len() && ((
                                            #[trigger] eaten_stones_vec@[e]).0 as int,
                                            eaten_stones_vec@[e].1 as int) == cl;
                                        if e < eat0.len() {
                                            assert(stones_cover(eat0, cl));
                                        } else {
                                            assert(cl == (ex as int, ey as int));
                                            assert(((l[k0].0@.take(c2 as int + 1)[c2 as int]).0 as int,
                                            l[k0].0@.take(c2 as int + 1)[c2 as int].1 as int)
                                                == cl);
                                        }
                                    }
                                    if (exists|k2: int|
                                        0 <= k2 < k0 && (#[trigger] l[k2]).1 != cur_state
                                            && cells_contain(l[k2].0@, cl)) {
                                        assert(stones_cover(eat0, cl));
                                        let e = choose|e: int|
                                            0 <= e < eat0.len() && ((#[trigger] eat0[e]).0 as int,
                                            eat0[e].1 as int) == cl;
                                        assert(eaten_stones_vec@[e] == eat0[e]);
                                        assert(stones_cover(eaten_stones_vec@, cl));
                                    }
                                    if cells_contain(l[k0].0@.take(c2 as int + 1), cl) {
                                        let cc = choose|cc: int|
                                            0 <= cc < l[k0].0@.take(c2 as int + 1).len() && ((
                                            (#[trigger] l[k0].0@.take(c2 as int + 1)[cc]).0 as int,
                                            l[k0].0@.take(c2 as int + 1)[cc].1 as int) == cl);
                                        assert(l[k0].0@[cc] == l[k0].0@.take(c2 as int + 1)[cc]);
                                        if cc < c2 {
                                            assert(cells_contain(l[k0].0@.take(c2 as int), cl))
                                                by {
                                                assert(((l[k0].0@.take(c2 as int)[cc]).0 as int,
                                                l[k0].0@.take(c2 as int)[cc].1 as int) == cl);
                                            }
                                            assert(stones_cover(eat0, cl));
                                            let e = choose|e: int|
                                                0 <= e < eat0.len() && ((
                                                #[trigger] eat0[e]).0 as int,
                                                eat0[e].1 as int) == cl;
                                            assert(eaten_stones_vec@[e] == eat0[e]);
                                            assert(stones_cover(eaten_stones_vec@, cl));
                                        } else {
                                            assert(cl == (ex as int, ey as int));
                                            assert(((eaten_stones_vec@[eat0.len() as int]).0 as int,
                                            eaten_stones_vec@[eat0.len() as int].1 as int) == cl);
                                            assert(stones_cover(eaten_stones_vec@, cl));
                                        }
                                    }
                                }
                            }
                            c2 = c2 + 1;
                        }
                        proof {
                            assert(l[k0].0@.take(l[k0].0@.len() as int) =~= l[k0].0@);
                            assert forall|cl: (int, int)|
                                #![trigger stones_cover(eaten_stones_vec@, cl)]
                                stones_cover(eaten_stones_vec@, cl) <==> exists|k2: int|
                                    0 <= k2 < k0 + 1 && (#[trigger] l[k2]).1 != cur_state
                                        && cells_contain(l[k2].0@, cl) by {
                                if stones_cover(eaten_stones_vec@, cl) {
                                    if cells_contain(l[k0].0@, cl) {
                                        assert(0 <= k0 < k0 + 1 && l[k0].1 != cur_state
                                            && cells_contain(l[k0].0@, cl));
                                    }
                                }
                            }
                        }
                    } else {
                        proof {
                            assert forall|cl: (int, int)|
                                #![trigger stones_cover(eaten_stones_vec@, cl)]
                                stones_cover(eaten_stones_vec@, cl) <==> exists|k2: int|
                                    0 <= k2 < k0 + 1 && (#[trigger] l[k2]).1 != cur_state
                                        && cells_contain(l[k2].0@, cl) by {
                                if exists|k2: int|
                                    0 <= k2 < k0 + 1 && (#[trigger] l[k2]).1 != cur_state
                                        && cells_contain(l[k2].0@, cl) {
                                    let k2 = choose|k2: int|
                                        0 <= k2 < k0 + 1 && (#[trigger] l[k2]).1 != cur_state
                                            && cells_contain(l[k2].0@, cl);
                                    assert(k2 < k0);
                                }
                            }
                        }
                    }
                    k = k + 1;
                }
                proof {
                    assert forall|cl: (int, int)|
                        #![trigger stones_cover(eaten_stones_vec@, cl)]
                        in_grid(dim, cl) implies (stones_cover(eaten_stones_vec@, cl) <==> (
                        dead_cell(gp, dim, cl) && gp[cl.0][cl.1] != cur_state)) by {
                        if stones_cover(eaten_stones_vec@, cl) {
                            let k2 = choose|k2: int|
                                0 <= k2 < l.len() && (#[trigger] l[k2]).1 != cur_state
                                    && cells_contain(l[k2].0@, cl);
                            lemma_entry_dead(gp, dim, l[k2].0@, l[k2].1);
                            let cc = choose|cc: int|
                                0 <= cc < l[k2].0@.len() && ((l[k2].0@[cc].0 as int,
                                l[k2].0@[cc].1 as int) == cl);
                            assert(dead_cell(gp, dim, cl));
                            assert(gp[cl.0][cl.1] == l[k2].1);
                        }
                        if dead_cell(gp, dim, cl) && gp[cl.0][cl.1] != cur_state {
                            assert(in_entries(l, cl));
                            let k2 = choose|k2: int|
                                0 <= k2 < l.len() && cells_contain((#[trigger] l[k2]).0@, cl);
                            let cc = choose|cc: int|
                                0 <= cc < l[k2].0@.len() && ((l[k2].0@[cc].0 as int,
                                l[k2].0@[cc].1 as int) == cl);
                            assert(gp[cl.0][cl.1] == l[k2].1);
                            assert(l[k2].1 != cur_state);
                        }
                    }
                }
            },
            None => {
                proof {
                    assert(!suicide_rejected(gp, dim, cur_state)) by {
                        if suicide_rejected(gp, dim, cur_state) {
                            let d = choose|d: (int, int)|
                                dead_cell(gp, dim, d) && gp[d.0][d.1] == cur_state;
                            assert(!dead_cell(gp, dim, d));
                        }
                    }
                    assert(!ko_rejected(gp, dim, cur_state, self.go_moves@)) by {
                        if ko_rejected(gp, dim, cur_state, self.go_moves@) {
                            let e = self.go_moves@.last().eat_stones@[0];
                            assert(!dead_cell(gp, dim, (e.0 as int, e.1 as int)));
                        }
                    }
                    assert(self.grid() == clear_stones(gp, eaten_stones_vec@));
                    assert forall|cl: (int, int)|
                        #![trigger stones_cover(eaten_stones_vec@, cl)]
                        in_grid(dim, cl) implies (stones_cover(eaten_stones_vec@, cl) <==> (
                        dead_cell(gp, dim, cl) && gp[cl.0][cl.1] != cur_state)) by {
                        if dead_cell(gp, dim, cl) {
                        }
                    }
                }
            },
        }
        let ghost moves0 = self.go_moves@;
        let record_len = self.go_moves.len();
        let move_id = record_len;
        let mut go_move = GoMove::new(move_id, cur_x, cur_y, cur_state);
        go_move.set_eaten_stones(crate::go_move::copy_stones(&eaten_stones_vec));
        self.go_moves.push(go_move);
        let result = GoMove::new_with_eaten_stones(
            move_id,
            cur_x,
            cur_y,
            cur_state,
            eaten_stones_vec,
        );
        proof {
            assert(self.go_moves@.take(moves0.len() as int) =~= moves0);
            assert(move_like(self.go_moves@.last(), result));
        }
        Some(result)
    }
}


/// A move whose cells all lie on the grid.
pub open spec fn move_on_grid(m: GoMove, dim: int) -> bool {
    &&& in_grid(dim, (m.move_pos.0 as int, m.move_pos.1 as int))
    &&& forall|k: int| 0 <= k < m.eat_stones@.len() ==> in_grid(
        dim,
        ((#[trigger] m.eat_stones@[k]).0 as int, m.eat_stones@[k].1 as int),
    )
}

/// The grid after also restoring one more stone.
proof fn lemma_restore_snoc(g: Seq<Seq<i8>>, cs: Seq<(usize, usize, i8)>, e: (usize, usize, i8))
    ensures
        restore_stones(g, cs.push(e)) == board_set(
            restore_stones(g, cs),
            e.0 as int,
            e.1 as int,
            e.2,
        ),
    decreases cs.len(),
{
    if cs.len() == 0 {
        assert(cs.push(e).drop_first() =~= Seq::<(usize, usize, i8)>::empty());
        assert(cs.push(e)[0] == e);
        assert(cs.push(e).len() == 1);
        assert(restore_stones(g, cs.push(e)) == restore_stones(
            board_set(g, e.0 as int, e.1 as int, e.2),
            cs.push(e).drop_first(),
        ));
        assert(restore_stones(
            board_set(g, e.0 as int, e.1 as int, e.2),
            Seq::<(usize, usize, i8)>::empty(),
        ) == board_set(g, e.0 as int, e.1 as int, e.2));
        assert(restore_stones(g, cs) == g);
    } else {
        assert(cs.push(e)[0] == cs[0]);
        assert(cs.push(e).drop_first() =~= cs.drop_first().push(e));
        lemma_restore_snoc(board_set(g, cs[0].0 as int, cs[0].1 as int, cs[0].2), cs.drop_first(), e);
    }
}

impl<const D: usize> GoBand<D> {
    /// Undoes the most recent applied move: its cell is emptied, its
    /// captured stones are put back with their recorded owners, and the
    /// turn returns to the undone mover. Nothing happens with an empty
    /// history.
    pub fn back(&mut self)
        requires
            old(self).wf(),
        ensures
            final(self).wf(),
            *final(self) == (GoBand::<D> {
                stone_state: final(self).stone_state,
                cur_player: final(self).cur_player,
                go_moves: final(self).go_moves,
                ..*old(self)
            }),
            old(self).go_moves@.len() == 0 ==> *final(self) == *old(self),
            old(self).go_moves@.len() > 0 ==> {
                let m = old(self).go_moves@.last();
                &&& final(self).go_moves@ == old(self).go_moves@.drop_last()
                &&& final(self).cur_player == (if m.move_pos.2 == 1 {
                    Player::BLACK
                } else if m.move_pos.2 == -1 {
                    Player::WHITE
                } else {
                    old(self).cur_player
                })
                &&& move_on_grid(m, D as int) ==> final(self).grid() == unapply_move(
                    old(self).grid(),
                    m,
                )
            },
    {
        let ghost g0 = self.grid();
        let ghost dim = D as int;
        if self.go_moves.len() == 0 {
            return ;
        }
        match self.go_moves.pop() {
            Some(go_move) => {
                let ghost m = go_move;
                let (pos_x, pos_y, record_state) = go_move.move_pos();
                if pos_x < D && pos_y < D {
                    self.set_stone_state(pos_x, pos_y, 0);
                }
                match record_state {
                    1 => self.set_current_player(Player::BLACK),
                    -1 => self.set_current_player(Player::WHITE),
                    _ => {},
                }
                let ghost g_base = self.grid();
                let eaten_stones = go_move.eaten_stones();
                let mut e: usize = 0;
                while e < eaten_stones.len()
                    invariant
                        0 <= e <= eaten_stones@.len(),
                        eaten_stones@ == m.eat_stones@,
                        dim == D as int,
                        self.wf(),
                        *self == (GoBand::<D> {
                            stone_state: self.stone_state,
                            cur_player: self.cur_player,
                            go_moves: self.go_moves,
                            ..*old(self)
                        }),
                        self.go_moves@ == old(self).go_moves@.drop_last(),
                        move_on_grid(m, dim) ==> self.grid() == restore_stones(
                            g_base,
                            m.eat_stones@.take(e as int),
                        ),
                        self.cur_player == (if m.move_pos.2 == 1 {
                            Player::BLACK
                        } else if m.move_pos.2 == -1 {
                            Player::WHITE
                        } else {
                            old(self).cur_player
                        }),
                    decreases eaten_stones@.len() - e,
                {
                    let (i, j, state) = eaten_stones[e];
                    if i < D && j < D {
                        self.set_stone_state(i, j, state);
                        proof {
                            if move_on_grid(m, dim) {
                                lemma_restore_snoc(g_base, m.eat_stones@.take(e as int), (i, j, state));
                                assert(m.eat_stones@.take(e as int).push((i, j, state))
                                    =~= m.eat_stones@.take(e as int + 1));
                            }
                        }
                    } else {
                        proof {
                            assert(!move_on_grid(m, dim));
                        }
                    }
                    e = e + 1;
                }
                proof {
                    if move_on_grid(m, dim) {
                        assert(m.eat_stones@.take(m.eat_stones@.len() as int) =~= m.eat_stones@);
                        assert(g_base == board_set(
                            g0,
                            m.move_pos.0 as int,
                            m.move_pos.1 as int,
                            0,
                        ));
                    }
                }
            },
            None => {},
        }
    }
}


/// What the original engine exposes to its driver: applying the pending
/// move and taking the last one back.
pub trait Play {
    fn forward(&mut self, from_sgf: bool) -> Option<GoMove>;

    fn back(&mut self);
}

impl<const D: usize> Play for GoBand<D> {
    fn forward(&mut self, from_sgf: bool) -> Option<GoMove> {
        if self.check_wf() {
            self.forward(from_sgf)
        } else {
            None
        }
    }

    fn back(&mut self) {
        if self.check_wf() {
            self.back();
        }
    }
}

impl<const D: usize> GoBand<D> {
    /// Whether the grid has its declared shape; true for every board the
    /// constructor built.
    pub fn check_wf(&self) -> (r: bool)
        ensures
            r == self.wf(),
    {
        if !(1 <= D && D <= 0x7fff_ffff) {
            return false;
        }
        if self.stone_state.len() != D {
            return false;
        }
        let mut i: usize = 0;
        while i < D
            invariant_except_break
                0 <= i <= D,
                1 <= D,
                D as int <= 0x7fff_ffff,
                self.stone_state@.len() == D,
                forall|k: int| 0 <= k < i ==> (#[trigger] self.stone_state@[k])@.len() == D,
            ensures
                (i == D) == self.wf(),
            decreases D - i,
        {
            if self.stone_state[i].len() != D {
                proof {
                    assert(!self.wf());
                }
                break ;
            }
            i = i + 1;
        }
        i == D
    }
}

/// A single move the board can take back: its cell was empty, its captured
/// stones are distinct other cells recorded with the state they held.
pub open spec fn move_valid(g: Seq<Seq<i8>>, m: GoMove, dim: int) -> bool {
    &&& move_on_grid(m, dim)
    &&& g[m.move_pos.0 as int][m.move_pos.1 as int] == 0
    &&& forall|k: int| 0 <= k < m.eat_stones@.len() ==> ((#[trigger] m.eat_stones@[k]).0 as int,
    m.eat_stones@[k].1 as int) != (m.move_pos.0 as int, m.move_pos.1 as int)
    &&& forall|k: int| 0 <= k < m.eat_stones@.len() ==> (#[trigger] m.eat_stones@[k]).2
        == g[m.eat_stones@[k].0 as int][m.eat_stones@[k].1 as int]
    &&& forall|k1: int, k2: int| 0 <= k1 < k2 < m.eat_stones@.len() ==> ((
    #[trigger] m.eat_stones@[k1]).0, m.eat_stones@[k1].1) != ((#[trigger] m.eat_stones@[k2]).0,
    m.eat_stones@[k2].1)
}

/// A run of moves each acceptable on the board the previous ones produced,
/// alternating from the given mover.
pub open spec fn moves_valid(g: Seq<Seq<i8>>, p: Player, ms: Seq<GoMove>, dim: int) -> bool
    decreases ms.len(),
{
    ms.len() == 0 || {
        &&& move_valid(g, ms[0], dim)
        &&& ms[0].move_pos.2 == player_state(p)
        &&& moves_valid(apply_move(g, ms[0]), other_player(p), ms.drop_first(), dim)
    }
}

/// The grid after a run of moves.
pub open spec fn board_after(g: Seq<Seq<i8>>, ms: Seq<GoMove>) -> Seq<Seq<i8>>
    decreases ms.len(),
{
    if ms.len() == 0 {
        g
    } else {
        board_after(apply_move(g, ms[0]), ms.drop_first())
    }
}

/// The grid after taking a run of moves back, most recent first.
pub open spec fn unwind(g: Seq<Seq<i8>>, ms: Seq<GoMove>) -> Seq<Seq<i8>>
    decreases ms.len(),
{
    if ms.len() == 0 {
        g
    } else {
        unwind(unapply_move(g, ms.last()), ms.drop_last())
    }
}

/// One cell rewrite keeps the grid's shape.
proof fn lemma_board_set_wf(g: Seq<Seq<i8>>, dim: int, x: int, y: int, v: i8)
    requires
        grid_wf(g, dim),
        0 <= x < dim,
        0 <= y < dim,
    ensures
        grid_wf(board_set(g, x, y, v), dim),
{
    assert forall|i: int| 0 <= i < dim implies (#[trigger] board_set(g, x, y, v)[i]).len()
        == dim by {
        if i == x {
            assert(board_set(g, x, y, v)[i] == g[x].update(y, v));
        } else {
            assert(board_set(g, x, y, v)[i] == g[i]);
        }
    }
}

/// Clearing stones keeps the grid's shape and acts cell by cell.
proof fn lemma_clear_val(g: Seq<Seq<i8>>, dim: int, cs: Seq<(usize, usize, i8)>)
    requires
        grid_wf(g, dim),
        forall|k: int| 0 <= k < cs.len() ==> in_grid(
            dim,
            ((#[trigger] cs[k]).0 as int, cs[k].1 as int),
        ),
    ensures
        grid_wf(clear_stones(g, cs), dim),
        forall|x: int, y: int|
            0 <= x < dim && 0 <= y < dim ==> #[trigger] clear_stones(g, cs)[x][y] == (
            if stones_cover(cs, (x, y)) {
                0
            } else {
                g[x][y]
            }),
    decreases cs.len(),
{
    if cs.len() == 0 {
        assert forall|x: int, y: int|
            0 <= x < dim && 0 <= y < dim implies #[trigger] clear_stones(g, cs)[x][y] == (
            if stones_cover(cs, (x, y)) {
                0
            } else {
                g[x][y]
            }) by {
            assert(!stones_cover(cs, (x, y)));
        }
    } else {
        let g1 = board_set(g, cs[0].0 as int, cs[0].1 as int, 0);
        lemma_board_set_wf(g, dim, cs[0].0 as int, cs[0].1 as int, 0);
        lemma_clear_val(g1, dim, cs.drop_first());
        assert forall|x: int, y: int|
            0 <= x < dim && 0 <= y < dim implies #[trigger] clear_stones(g, cs)[x][y] == (
            if stones_cover(cs, (x, y)) {
                0
            } else {
                g[x][y]
            }) by {
            assert(clear_stones(g, cs) == clear_stones(g1, cs.drop_first()));
            if stones_cover(cs, (x, y)) {
                let k = choose|k: int|
                    0 <= k < cs.len() && ((#[trigger] cs[k]).0 as int, cs[k].1 as int) == (x, y);
                if k > 0 {
                    assert(cs.drop_first()[k - 1] == cs[k]);
                    assert(stones_cover(cs.drop_first(), (x, y)));
                } else {
                    if stones_cover(cs.drop_first(), (x, y)) {
                    } else {
                        assert(g1[x][y] == 0);
                    }
                }
            } else {
                assert(!stones_cover(cs.drop_first(), (x, y))) by {
                    if stones_cover(cs.drop_first(), (x, y)) {
                        let k = choose|k: int|
                            0 <= k < cs.drop_first().len() && ((
                            #[trigger] cs.drop_first()[k]).0 as int,
                            cs.drop_first()[k].1 as int) == (x, y);
                        assert(cs[k + 1] == cs.drop_first()[k]);
                        assert(stones_cover(cs, (x, y)));
                    }
                }
                assert((cs[0].0 as int, cs[0].1 as int) != (x, y)) by {
                    if (cs[0].0 as int, cs[0].1 as int) == (x, y) {
                        assert(stones_cover(cs, (x, y)));
                    }
                }
            }
        }
    }
}

/// Restoring distinct stones keeps the grid's shape and acts cell by cell.
proof fn lemma_restore_val(g: Seq<Seq<i8>>, dim: int, cs: Seq<(usize, usize, i8)>)
    requires
        grid_wf(g, dim),
        forall|k: int| 0 <= k < cs.len() ==> in_grid(
            dim,
            ((#[trigger] cs[k]).0 as int, cs[k].1 as int),
        ),
        forall|k1: int, k2: int| 0 <= k1 < k2 < cs.len() ==> ((#[trigger] cs[k1]).0,
        cs[k1].1) != ((#[trigger] cs[k2]).0, cs[k2].1),
    ensures
        grid_wf(restore_stones(g, cs), dim),
        forall|k: int| 0 <= k < cs.len() ==> #[trigger] restore_stones(g, cs)[cs[k].0 as int][
        cs[k].1 as int] == cs[k].2,
        forall|x: int, y: int|
            0 <= x < dim && 0 <= y < dim && !stones_cover(cs, (x, y))
                ==> #[trigger] restore_stones(g, cs)[x][y] == g[x][y],
    decreases cs.len(),
{
    if cs.len() == 0 {
    } else {
        let g1 = board_set(g, cs[0].0 as int, cs[0].1 as int, cs[0].2);
        lemma_board_set_wf(g, dim, cs[0].0 as int, cs[0].1 as int, cs[0].2);
        lemma_restore_val(g1, dim, cs.drop_first());
        assert(restore_stones(g, cs) == restore_stones(g1, cs.drop_first()));
        assert forall|k: int| 0 <= k < cs.len() implies #[trigger] restore_stones(g, cs)[cs[k].0 as int][
        cs[k].1 as int] == cs[k].2 by {
            if k == 0 {
                assert(!stones_cover(cs.drop_first(), (cs[0].0 as int, cs[0].1 as int))) by {
                    if stones_cover(cs.drop_first(), (cs[0].0 as int, cs[0].1 as int)) {
                        let k2 = choose|k2: int|
                            0 <= k2 < cs.drop_first().len() && ((
                            #[trigger] cs.drop_first()[k2]).0 as int,
                            cs.drop_first()[k2].1 as int) == (cs[0].0 as int, cs[0].1 as int);
                        assert(cs[k2 + 1] == cs.drop_first()[k2]);
                    }
                }
                assert(g1[cs[0].0 as int][cs[0].1 as int] == cs[0].2);
            } else {
                assert(cs.drop_first()[k - 1] == cs[k]);
            }
        }
        assert forall|x: int, y: int|
            0 <= x < dim && 0 <= y < dim && !stones_cover(cs, (x, y)) implies
            #[trigger] restore_stones(g, cs)[x][y] == g[x][y] by {
            assert(!stones_cover(cs.drop_first(), (x, y))) by {
                if stones_cover(cs.drop_first(), (x, y)) {
                    let k = choose|k: int|
                        0 <= k < cs.drop_first().len() && ((#[trigger] cs.drop_first()[k]).0 as int,
                        cs.drop_first()[k].1 as int) == (x, y);
                    assert(cs[k + 1] == cs.drop_first()[k]);
                    assert(stones_cover(cs, (x, y)));
                }
            }
            assert((cs[0].0 as int, cs[0].1 as int) != (x, y)) by {
                if (cs[0].0 as int, cs[0].1 as int) == (x, y) {
                    assert(stones_cover(cs, (x, y)));
                }
            }
        }
    }
}

/// A valid move keeps the grid's shape.
pub proof fn lemma_apply_wf(g: Seq<Seq<i8>>, m: GoMove, dim: int)
    requires
        grid_wf(g, dim),
        move_valid(g, m, dim),
    ensures
        grid_wf(apply_move(g, m), dim),
{
    lemma_board_set_wf(g, dim, m.move_pos.0 as int, m.move_pos.1 as int, m.move_pos.2);
    lemma_clear_val(
        board_set(g, m.move_pos.0 as int, m.move_pos.1 as int, m.move_pos.2),
        dim,
        m.eat_stones@,
    );
}

/// Taking a just-applied valid move back restores the grid it was applied
/// to, exactly.
pub proof fn lemma_unapply_apply(g: Seq<Seq<i8>>, m: GoMove, dim: int)
    requires
        grid_wf(g, dim),
        move_valid(g, m, dim),
    ensures
        unapply_move(apply_move(g, m), m) == g,
{
    let x0 = m.move_pos.0 as int;
    let y0 = m.move_pos.1 as int;
    let gp = board_set(g, x0, y0, m.move_pos.2);
    let ga = clear_stones(gp, m.eat_stones@);
    let gb = board_set(ga, x0, y0, 0);
    let gu = restore_stones(gb, m.eat_stones@);
    lemma_board_set_wf(g, dim, x0, y0, m.move_pos.2);
    lemma_clear_val(gp, dim, m.eat_stones@);
    lemma_board_set_wf(ga, dim, x0, y0, 0);
    lemma_restore_val(gb, dim, m.eat_stones@);
    assert forall|x: int| 0 <= x < dim implies #[trigger] gu[x] =~= g[x] by {
        assert forall|y: int| 0 <= y < dim implies #[trigger] gu[x][y] == g[x][y] by {
            if (x, y) == (x0, y0) {
                assert(!stones_cover(m.eat_stones@, (x, y))) by {
                    if stones_cover(m.eat_stones@, (x, y)) {
                        let k = choose|k: int|
                            0 <= k < m.eat_stones@.len() && ((
                            #[trigger] m.eat_stones@[k]).0 as int,
                            m.eat_stones@[k].1 as int) == (x, y);
                    }
                }
                assert(gu[x][y] == gb[x][y]);
                assert(gb[x][y] == 0);
            } else if stones_cover(m.eat_stones@, (x, y)) {
                let k = choose|k: int|
                    0 <= k < m.eat_stones@.len() && ((#[trigger] m.eat_stones@[k]).0 as int,
                    m.eat_stones@[k].1 as int) == (x, y);
                assert(gu[m.eat_stones@[k].0 as int][m.eat_stones@[k].1 as int]
                    == m.eat_stones@[k].2);
                assert(g[x][y] == m.eat_stones@[k].2);
            } else {
                assert(gu[x][y] == gb[x][y]);
                assert(gb[x][y] == ga[x][y]);
                assert(ga[x][y] == gp[x][y]);
                assert(gp[x][y] == g[x][y]);
            }
        }
    }
    assert(gu =~= g);
}

/// Appending one move to a run applies it to the run's result.
proof fn lemma_board_after_snoc(g: Seq<Seq<i8>>, ms: Seq<GoMove>, m: GoMove)
    ensures
        board_after(g, ms.push(m)) == apply_move(board_after(g, ms), m),
    decreases ms.len(),
{
    if ms.len() == 0 {
        assert(ms.push(m)[0] == m);
        assert(ms.push(m).drop_first() =~= Seq::<GoMove>::empty());
        assert(board_after(g, ms.push(m)) == board_after(
            apply_move(g, m),
            Seq::<GoMove>::empty(),
        ));
        assert(board_after(apply_move(g, m), Seq::<GoMove>::empty()) == apply_move(g, m));
        assert(board_after(g, ms) == g);
    } else {
        assert(ms.push(m)[0] == ms[0]);
        assert(ms.push(m).drop_first() =~= ms.drop_first().push(m));
        assert(board_after(g, ms.push(m)) == board_after(
            apply_move(g, ms[0]),
            ms.drop_first().push(m),
        ));
        lemma_board_after_snoc(apply_move(g, ms[0]), ms.drop_first(), m);
    }
}

/// A valid run stays valid without its last move, which is itself valid on
/// the board the rest produced.
proof fn lemma_valid_snoc(g: Seq<Seq<i8>>, p: Player, ms: Seq<GoMove>, dim: int)
    requires
        moves_valid(g, p, ms, dim),
        ms.len() > 0,
    ensures
        moves_valid(g, p, ms.drop_last(), dim),
        move_valid(board_after(g, ms.drop_last()), ms.last(), dim),
    decreases ms.len(),
{
    if ms.len() == 1 {
        assert(ms.drop_last() =~= Seq::<GoMove>::empty());
        assert(ms[0] == ms.last());
    } else {
        assert(ms.drop_last()[0] == ms[0]);
        assert(ms.drop_last().drop_first() =~= ms.drop_first().drop_last());
        lemma_valid_snoc(apply_move(g, ms[0]), other_player(p), ms.drop_first(), dim);
        assert(ms.drop_first().last() == ms.last());
        assert(board_after(g, ms.drop_last()) == board_after(
            apply_move(g, ms[0]),
            ms.drop_first().drop_last(),
        ));
    }
}

/// A valid run keeps the grid's shape.
proof fn lemma_board_after_wf(g: Seq<Seq<i8>>, p: Player, ms: Seq<GoMove>, dim: int)
    requires
        grid_wf(g, dim),
        moves_valid(g, p, ms, dim),
    ensures
        grid_wf(board_after(g, ms), dim),
    decreases ms.len(),
{
    if ms.len() > 0 {
        lemma_apply_wf(g, ms[0], dim);
        lemma_board_after_wf(apply_move(g, ms[0]), other_player(p), ms.drop_first(), dim);
    }
}

/// Undo is the inverse of play: after any valid run of accepted moves,
/// taking them back most recent first restores the starting grid exactly,
/// and the mover recorded on the first move is the mover whose turn it was
/// at the start.
pub proof fn lemma_undo_inverse(g: Seq<Seq<i8>>, p: Player, ms: Seq<GoMove>, dim: int)
    requires
        grid_wf(g, dim),
        moves_valid(g, p, ms, dim),
    ensures
        unwind(board_after(g, ms), ms) == g,
        ms.len() > 0 ==> state_player(ms[0].move_pos.2) == p,
    decreases ms.len(),
{
    if ms.len() > 0 {
        lemma_valid_snoc(g, p, ms, dim);
        let pre = board_after(g, ms.drop_last());
        assert(ms.drop_last().push(ms.last()) =~= ms);
        lemma_board_after_snoc(g, ms.drop_last(), ms.last());
        assert(board_after(g, ms) == apply_move(pre, ms.last()));
        lemma_board_after_wf(g, p, ms.drop_last(), dim);
        lemma_unapply_apply(pre, ms.last(), dim);
        assert(unwind(board_after(g, ms), ms) == unwind(pre, ms.drop_last()));
        lemma_undo_inverse(g, p, ms.drop_last(), dim);
        assert(player_state(p) == 1 || player_state(p) == -1);
    }
}

} // verus!


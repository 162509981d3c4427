//! The board: a row-major grid of tiles beside a union-find over the same
//! cell indices, and the per-tick protocol that turns independent proposals
//! into one board state.
use crate::text::push_char;
use crate::uf::{Groups, UnionFind, DEFAULT_LIBERTIES};
use vstd::prelude::*;

verus! {

/// The state of one cell.
#[derive(Clone, Copy, Debug, Default, PartialEq, Eq, Structural)]
pub enum Tile {
    #[default]
    Empty,
    Wall,
    Player(u8),
    /// One proposal landed here this tick.
    TryPlace(u8),
    /// Two or more proposals landed here this tick.
    Contested,
}

impl Tile {
    /// Whether the tile only exists between proposing and committing.
    pub open spec fn is_transient(self) -> bool {
        self is TryPlace || self is Contested
    }

    /// The symbol a settled tile is rendered as.
    pub open spec fn symbol(self) -> char {
        match self {
            Tile::Empty => '.',
            Tile::Wall => '/',
            Tile::Player(c) => c as char,
            _ => '?',
        }
    }

    /// The tile a proposal by `id` turns this one into, if it is not suicide.
    pub open spec fn proposed(self, id: u8) -> Tile {
        match self {
            Tile::Empty => Tile::TryPlace(id),
            Tile::TryPlace(_) | Tile::Contested => Tile::Contested,
            t => t,
        }
    }

    pub fn to_char(&self) -> (r: char)
        requires
            !self.is_transient(),
        ensures
            r == self.symbol(),
    {
        match self {
            Tile::Empty => '.',
            Tile::Wall => '/',
            Tile::Player(c) => *c as char,
            _ => '?',
        }
    }
}

/// Flat index of `(x, y)` on a board `w` cells wide.
pub open spec fn idx(w: int, x: int, y: int) -> int {
    x + w * y
}

pub open spec fn in_bounds(w: int, h: int, x: int, y: int) -> bool {
    0 <= x < w && 0 <= y < h
}

/// `v` moved into `0 .. bound`.
pub open spec fn clamp(v: int, bound: int) -> int {
    if v < bound {
        v
    } else {
        bound - 1
    }
}

/// The in-bounds cardinal neighbours of `(x, y)`: left, up, right, down.
pub open spec fn adjacent(w: int, h: int, x: int, y: int) -> Seq<(int, int)> {
    (if x > 0 {
        seq![(x - 1, y)]
    } else {
        seq![]
    }) + (if y > 0 {
        seq![(x, y - 1)]
    } else {
        seq![]
    }) + (if x + 1 < w {
        seq![(x + 1, y)]
    } else {
        seq![]
    }) + (if y + 1 < h {
        seq![(x, y + 1)]
    } else {
        seq![]
    })
}

pub proof fn lemma_idx(w: int, h: int, x: int, y: int)
    requires
        in_bounds(w, h, x, y),
    ensures
        0 <= idx(w, x, y) < w * h,
{
    assert(0 <= x + w * y < w * h) by (nonlinear_arith)
        requires
            0 <= x < w,
            0 <= y < h,
    ;
}

proof fn lemma_dims(w: int, h: int, y: int)
    requires
        0 <= w <= u16::MAX,
        0 <= y < h <= u16::MAX,
    ensures
        w * y <= w * h <= u16::MAX * u16::MAX,
        u16::MAX * u16::MAX < u32::MAX,
{
    assert(w * y <= w * h <= u16::MAX * u16::MAX) by (nonlinear_arith)
        requires
            0 <= w <= u16::MAX,
            0 <= y < h <= u16::MAX,
    ;
}

pub proof fn lemma_idx_inj(w: int, h: int, x1: int, y1: int, x2: int, y2: int)
    requires
        in_bounds(w, h, x1, y1),
        in_bounds(w, h, x2, y2),
        idx(w, x1, y1) == idx(w, x2, y2),
    ensures
        x1 == x2 && y1 == y2,
{
    assert(y1 == y2) by (nonlinear_arith)
        requires
            0 <= x1 < w,
            0 <= x2 < w,
            x1 + w * y1 == x2 + w * y2,
    ;
}

/// `p` is one step left, up, right or down from `(x, y)`.
pub open spec fn touches(x: int, y: int, p: (int, int)) -> bool {
    (p.1 == y && (p.0 == x - 1 || p.0 == x + 1)) || (p.0 == x && (p.1 == y - 1 || p.1 == y + 1))
}

pub proof fn lemma_adjacent(w: int, h: int, x: int, y: int)
    requires
        in_bounds(w, h, x, y),
    ensures
        adjacent(w, h, x, y).len() <= 4,
        forall|k: int|
            0 <= k < adjacent(w, h, x, y).len() ==> {
                let p = #[trigger] adjacent(w, h, x, y)[k];
                &&& in_bounds(w, h, p.0, p.1)
                &&& touches(x, y, p)
            },
{
    let s1: Seq<(int, int)> = if x > 0 { seq![(x - 1, y)] } else { seq![] };
    let s2: Seq<(int, int)> = if y > 0 { seq![(x, y - 1)] } else { seq![] };
    let s3: Seq<(int, int)> = if x + 1 < w { seq![(x + 1, y)] } else { seq![] };
    let s4: Seq<(int, int)> = if y + 1 < h { seq![(x, y + 1)] } else { seq![] };
    let a = adjacent(w, h, x, y);
    assert(a == s1 + s2 + s3 + s4);
    assert forall|k: int| 0 <= k < a.len() implies {
        let p = #[trigger] a[k];
        &&& in_bounds(w, h, p.0, p.1)
        &&& touches(x, y, p)
    } by {
        let s12 = s1 + s2;
        let s123 = s12 + s3;
        if k < s123.len() {
            assert(a[k] == s123[k]);
            if k < s12.len() {
                assert(s123[k] == s12[k]);
                if k < s1.len() {
                    assert(s12[k] == s1[k]);
                } else {
                    assert(s12[k] == s2[k - s1.len()]);
                }
            } else {
                assert(s123[k] == s3[k - s12.len()]);
            }
        } else {
            assert(a[k] == s4[k - s123.len()]);
        }
    }
}

/// Whether the neighbour at flat index `j` lets a stone of `id` stand on the
/// cell next to it without a capture: it is empty, or it is `id`'s own group
/// with at least two liberties, or another player's group about to die.
pub open spec fn rescues(cells: Seq<Tile>, g: Groups, j: int, id: u8) -> bool {
    match cells[j] {
        Tile::Empty => true,
        Tile::Player(oid) => if oid == id {
            g.liberties_of(j) >= 2
        } else {
            g.liberties_of(j) <= 1
        },
        _ => false,
    }
}

/// A stone of `id` at `(x, y)` would be suicide: no neighbour rescues it.
pub open spec fn suicide(cells: Seq<Tile>, g: Groups, w: int, h: int, x: int, y: int, id: u8) -> bool {
    let a = adjacent(w, h, x, y);
    forall|k: int| 0 <= k < a.len() ==> !rescues(cells, g, idx(w, (#[trigger] a[k]).0, a[k].1), id)
}

/// The tiles after `id` proposes `(x, y)`, each coordinate clamped into the
/// board: unchanged for a suicide move, else the cell takes the proposal.
pub open spec fn propose_cells(cells: Seq<Tile>, g: Groups, w: int, h: int, x: int, y: int, id: u8) -> Seq<Tile> {
    let cx = clamp(x, w);
    let cy = clamp(y, h);
    let i = idx(w, cx, cy);
    if w == 0 || h == 0 || suicide(cells, g, w, h, cx, cy, id) {
        cells
    } else {
        cells.update(i, cells[i].proposed(id))
    }
}

/// The first `k` neighbours in `a` that are not walls each lose one liberty.
pub open spec fn subtract_adjacent(cells: Seq<Tile>, g: Groups, w: int, a: Seq<(int, int)>, k: int) -> Groups
    decreases k,
{
    if k <= 0 {
        g
    } else {
        let g0 = subtract_adjacent(cells, g, w, a, k - 1);
        let j = idx(w, a[k - 1].0, a[k - 1].1);
        if cells[j] == Tile::Wall {
            g0
        } else {
            g0.subtract(j)
        }
    }
}

/// Cell `i` joins the group of each of the first `k` neighbours in `a` that
/// holds a stone of `id`.
pub open spec fn union_adjacent(cells: Seq<Tile>, g: Groups, w: int, i: int, id: u8, a: Seq<(int, int)>, k: int) -> Groups
    decreases k,
{
    if k <= 0 {
        g
    } else {
        let g0 = union_adjacent(cells, g, w, i, id, a, k - 1);
        let j = idx(w, a[k - 1].0, a[k - 1].1);
        if cells[j] == Tile::Player(id) {
            g0.union(i, j)
        } else {
            g0
        }
    }
}

/// The tiles after resolving cell `(x, y)`: a lone proposal becomes a stone,
/// a contested cell is emptied, anything else stays.
pub open spec fn resolve_cells(cells: Seq<Tile>, w: int, x: int, y: int) -> Seq<Tile> {
    let i = idx(w, x, y);
    match cells[i] {
        Tile::TryPlace(id) => cells.update(i, Tile::Player(id)),
        Tile::Contested => cells.update(i, Tile::Empty),
        _ => cells,
    }
}

/// The groups after resolving cell `(x, y)`: for a lone proposal, every
/// non-wall neighbour's group loses a liberty, then the new stone joins each
/// neighbouring group of the same player. Nothing changes otherwise.
pub open spec fn resolve_groups(cells: Seq<Tile>, g: Groups, w: int, h: int, x: int, y: int) -> Groups {
    let i = idx(w, x, y);
    let a = adjacent(w, h, x, y);
    match cells[i] {
        Tile::TryPlace(id) => union_adjacent(cells, subtract_adjacent(cells, g, w, a, a.len() as int), w, i, id, a, a.len() as int),
        _ => g,
    }
}

/// The tiles and groups after resolving the first `k` cells in row-major order.
pub open spec fn commit_upto(cells: Seq<Tile>, g: Groups, w: int, h: int, k: int) -> (Seq<Tile>, Groups)
    decreases k,
{
    if k <= 0 || w <= 0 {
        (cells, g)
    } else {
        let (c0, g0) = commit_upto(cells, g, w, h, k - 1);
        let x = (k - 1) % w;
        let y = (k - 1) / w;
        (resolve_cells(c0, w, x, y), resolve_groups(c0, g0, w, h, x, y))
    }
}

/// How many of `cells` equal `v`.
pub open spec fn count_tile(cells: Seq<Tile>, v: Tile) -> nat
    decreases cells.len(),
{
    if cells.len() == 0 {
        0
    } else {
        count_tile(cells.drop_last(), v) + if cells.last() == v {
            1nat
        } else {
            0nat
        }
    }
}

proof fn lemma_count_update(cells: Seq<Tile>, v: Tile, i: int, t: Tile)
    requires
        0 <= i < cells.len(),
        cells[i] == v,
        t != v,
    ensures
        count_tile(cells.update(i, t), v) + 1 == count_tile(cells, v),
    decreases cells.len(),
{
    let c2 = cells.update(i, t);
    if i == cells.len() - 1 {
        assert(c2.drop_last() =~= cells.drop_last());
    } else {
        assert(c2.drop_last() =~= cells.drop_last().update(i, t));
        lemma_count_update(cells.drop_last(), v, i, t);
    }
}

/// Whether `(x, y)` is on the stack `st`.
pub open spec fn on_stack(st: Seq<(u16, u16)>, x: int, y: int) -> bool {
    exists|j: int| 0 <= j < st.len() && st[j].0 == x && st[j].1 == y
}

proof fn lemma_on_stack_pop(st: Seq<(u16, u16)>, x: int, y: int)
    requires
        st.len() > 0,
        on_stack(st, x, y),
        !(st.last().0 == x && st.last().1 == y),
    ensures
        on_stack(st.drop_last(), x, y),
{
    let j = choose|j: int| 0 <= j < st.len() && st[j].0 == x && st[j].1 == y;
    assert(st.drop_last()[j] == st[j]);
}

proof fn lemma_on_stack_push(st: Seq<(u16, u16)>, e: (u16, u16), x: int, y: int)
    ensures
        on_stack(st, x, y) ==> on_stack(st.push(e), x, y),
        on_stack(st.push(e), e.0 as int, e.1 as int),
{
    assert(st.push(e)[st.len() as int] == e);
    if on_stack(st, x, y) {
        let j = choose|j: int| 0 <= j < st.len() && st[j].0 == x && st[j].1 == y;
        assert(st.push(e)[j] == st[j]);
    }
}

/// No neighbour of `(x, y)` holds `v`.
pub open spec fn closed(cells: Seq<Tile>, w: int, h: int, x: int, y: int, v: Tile) -> bool {
    let a = adjacent(w, h, x, y);
    forall|k: int| 0 <= k < a.len() ==> cells[idx(w, (#[trigger] a[k]).0, a[k].1)] != v
}

/// Cell `(x, y)` differs between `c0` and `c1`.
pub open spec fn changed(c0: Seq<Tile>, c1: Seq<Tile>, w: int, x: int, y: int) -> bool {
    c1[idx(w, x, y)] != c0[idx(w, x, y)]
}

/// The first `k` cells of a commit sweep are settled; the rest are untouched.
pub proof fn lemma_commit_settles(cells: Seq<Tile>, g: Groups, w: int, h: int, k: int)
    requires
        w > 0,
        h > 0,
        cells.len() == w * h,
        0 <= k <= w * h,
    ensures
        commit_upto(cells, g, w, h, k).0.len() == cells.len(),
        forall|j: int| 0 <= j < k ==> !(#[trigger] commit_upto(cells, g, w, h, k).0[j]).is_transient(),
        forall|j: int| k <= j < cells.len() ==> #[trigger] commit_upto(cells, g, w, h, k).0[j] == cells[j],
    decreases k,
{
    if k > 0 {
        lemma_commit_settles(cells, g, w, h, k - 1);
        let n = k - 1;
        vstd::arithmetic::div_mod::lemma_fundamental_div_mod(n, w);
        vstd::arithmetic::div_mod::lemma_mod_bound(n, w);
        assert(0 <= n / w) by {
            vstd::arithmetic::div_mod::lemma_div_pos_is_pos(n, w);
        }
        assert(idx(w, n % w, n / w) == n) by (nonlinear_arith)
            requires
                n == w * (n / w) + n % w,
        ;
        let c0 = commit_upto(cells, g, w, h, k - 1).0;
        let c1 = commit_upto(cells, g, w, h, k).0;
        assert(c1 == resolve_cells(c0, w, n % w, n / w));
        assert forall|j: int| 0 <= j < k implies !(#[trigger] c1[j]).is_transient() by {
            if j < n {
                assert(c1[j] == c0[j]);
            }
        }
        assert forall|j: int| k <= j < cells.len() implies #[trigger] c1[j] == cells[j] by {
            assert(c1[j] == c0[j]);
        }
    }
}

/// The tiles after the first `k` of `moves` are proposed in order.
pub open spec fn propose_all(cells: Seq<Tile>, g: Groups, w: int, h: int, moves: Seq<(u16, u16, u8)>, k: int) -> Seq<Tile>
    decreases k,
{
    if k <= 0 {
        cells
    } else {
        let c = propose_all(cells, g, w, h, moves, k - 1);
        propose_cells(c, g, w, h, moves[k - 1].0 as int, moves[k - 1].1 as int, moves[k - 1].2)
    }
}

/// `path` runs through in-bounds cells that all hold `v`, each one step
/// from the one before.
pub open spec fn is_path(cells: Seq<Tile>, w: int, h: int, v: Tile, path: Seq<(int, int)>) -> bool {
    &&& path.len() > 0
    &&& forall|j: int|
        0 <= j < path.len() ==> in_bounds(w, h, (#[trigger] path[j]).0, path[j].1) && cells[idx(
            w,
            path[j].0,
            path[j].1,
        )] == v
    &&& forall|j: int| 0 <= j < path.len() - 1 ==> touches((#[trigger] path[j]).0, path[j].1, path[j + 1])
}

/// Cells `a` and `b` are joined by a path of cells holding `v`.
pub open spec fn joined(cells: Seq<Tile>, w: int, h: int, v: Tile, a: (int, int), b: (int, int)) -> bool {
    exists|path: Seq<(int, int)>| #[trigger] is_path(cells, w, h, v, path) && path[0] == a && path.last() == b
}

/// A path extended by one more step onto a cell holding `v` is a path.
pub proof fn lemma_path_extend(cells: Seq<Tile>, w: int, h: int, v: Tile, path: Seq<(int, int)>, q: (int, int))
    requires
        is_path(cells, w, h, v, path),
        in_bounds(w, h, q.0, q.1),
        cells[idx(w, q.0, q.1)] == v,
        touches(path.last().0, path.last().1, q),
    ensures
        is_path(cells, w, h, v, path.push(q)),
        path.push(q)[0] == path[0],
        path.push(q).last() == q,
{
    let p2 = path.push(q);
    assert forall|j: int| 0 <= j < p2.len() implies in_bounds(w, h, (#[trigger] p2[j]).0, p2[j].1) && cells[idx(
        w,
        p2[j].0,
        p2[j].1,
    )] == v by {
        if j < path.len() {
            assert(p2[j] == path[j]);
        }
    }
    assert forall|j: int| 0 <= j < p2.len() - 1 implies touches((#[trigger] p2[j]).0, p2[j].1, p2[j + 1]) by {
        assert(p2[j] == path[j]);
        if j < path.len() - 1 {
            assert(p2[j + 1] == path[j + 1]);
        }
    }
}

/// A path of stones `v` in `c1` is one in `c0` too, when `c1` only emptied
/// cells of `c0`.
pub proof fn lemma_path_transfer(
    c1: Seq<Tile>,
    c0: Seq<Tile>,
    w: int,
    h: int,
    v: Tile,
    path: Seq<(int, int)>,
)
    requires
        is_path(c1, w, h, v, path),
        v != Tile::Empty,
        c1.len() == w * h,
        c0.len() == w * h,
        forall|i: int| 0 <= i < c1.len() && #[trigger] c1[i] != c0[i] ==> c1[i] == Tile::Empty,
    ensures
        is_path(c0, w, h, v, path),
{
    assert forall|j: int| 0 <= j < path.len() implies in_bounds(w, h, (#[trigger] path[j]).0, path[j].1) && c0[idx(
        w,
        path[j].0,
        path[j].1,
    )] == v by {
        lemma_idx(w, h, path[j].0, path[j].1);
        let q = idx(w, path[j].0, path[j].1);
        assert(c1[q] == v);
    }
}

/// Every in-bounds cell one step from `p` is among `p`'s neighbours.
pub proof fn lemma_touching_is_adjacent(w: int, h: int, p: (int, int), q: (int, int))
    requires
        in_bounds(w, h, p.0, p.1),
        in_bounds(w, h, q.0, q.1),
        touches(p.0, p.1, q),
    ensures
        exists|k: int| 0 <= k < adjacent(w, h, p.0, p.1).len() && #[trigger] adjacent(w, h, p.0, p.1)[k] == q,
{
    let (x, y) = p;
    let s1: Seq<(int, int)> = if x > 0 { seq![(x - 1, y)] } else { seq![] };
    let s2: Seq<(int, int)> = if y > 0 { seq![(x, y - 1)] } else { seq![] };
    let s3: Seq<(int, int)> = if x + 1 < w { seq![(x + 1, y)] } else { seq![] };
    let s4: Seq<(int, int)> = if y + 1 < h { seq![(x, y + 1)] } else { seq![] };
    let a = adjacent(w, h, x, y);
    assert(a == s1 + s2 + s3 + s4);
    if q == (x - 1, y) {
        assert(a[0] == q);
    } else if q == (x, y - 1) {
        assert(a[s1.len() as int] == q);
    } else if q == (x + 1, y) {
        assert(a[(s1.len() + s2.len()) as int] == q);
    } else {
        assert(a[(s1.len() + s2.len() + s3.len()) as int] == q);
    }
}

/// Along a path of cells holding `v` in `c0` that starts at a changed
/// cell, every cell changed when no changed cell still has a neighbour
/// holding its old tile.
pub proof fn lemma_path_all_changed(c0: Seq<Tile>, c1: Seq<Tile>, w: int, h: int, v: Tile, path: Seq<(int, int)>, j: int)
    requires
        is_path(c0, w, h, v, path),
        c0.len() == w * h,
        c1.len() == w * h,
        changed(c0, c1, w, path[0].0, path[0].1),
        forall|cx: int, cy: int|
            in_bounds(w, h, cx, cy) && #[trigger] changed(c0, c1, w, cx, cy) ==> closed(c1, w, h, cx, cy, c0[idx(w, cx, cy)]),
        0 <= j < path.len(),
    ensures
        changed(c0, c1, w, path[j].0, path[j].1),
    decreases j,
{
    if j > 0 {
        lemma_path_all_changed(c0, c1, w, h, v, path, j - 1);
        let p = path[j - 1];
        let q = path[j];
        assert(in_bounds(w, h, p.0, p.1) && c0[idx(w, p.0, p.1)] == v);
        assert(in_bounds(w, h, q.0, q.1) && c0[idx(w, q.0, q.1)] == v);
        assert(touches(p.0, p.1, path[(j - 1) + 1]));
        lemma_touching_is_adjacent(w, h, p, q);
        let a = adjacent(w, h, p.0, p.1);
        let k = choose|k: int| 0 <= k < a.len() && #[trigger] a[k] == q;
        assert(closed(c1, w, h, p.0, p.1, v));
        assert(c1[idx(w, a[k].0, a[k].1)] != v);
    }
}

/// `bs` records a sequence of `n` capture checks, the `k`-th around move
/// `k`, starting from a board with tiles `cells` and groups `g`.
pub open spec fn capture_chain(bs: Seq<Board>, moves: Seq<(u16, u16, u8)>, n: int, cells: Seq<Tile>, g: Groups) -> bool {
    &&& bs.len() == n + 1
    &&& bs[0].cells() == cells
    &&& bs[0].groups()@ == g
    &&& forall|k: int|
        0 <= k < n ==> bs[k + 1].captured_around(&bs[k], (#[trigger] moves[k]).0 as int, moves[k].1 as int)
}

/// A grid of `width * height` tiles, row-major, and a union-find whose node
/// `i` stands for cell `i`.
pub struct Board {
    tiles: Vec<Tile>,
    width: u16,
    height: u16,
    uf: UnionFind,
}

impl Board {
    /// The tiles, row-major.
    pub closed spec fn cells(&self) -> Seq<Tile> {
        self.tiles@
    }

    /// The union-find over the cells.
    pub closed spec fn groups(&self) -> UnionFind {
        self.uf
    }

    pub closed spec fn w(&self) -> int {
        self.width as int
    }

    pub closed spec fn h(&self) -> int {
        self.height as int
    }

    pub fn width(&self) -> (r: u16)
        ensures
            r == self.w(),
    {
        self.width
    }

    pub fn height(&self) -> (r: u16)
        ensures
            r == self.h(),
    {
        self.height
    }

    /// Tile count, union-find node count and `width * height` agree.
    pub open spec fn wf(&self) -> bool {
        &&& self.cells().len() == self.w() * self.h()
        &&& self.groups().wf()
        &&& self.groups().len() == self.cells().len()
    }

    pub open spec fn cell(&self, x: int, y: int) -> Tile {
        self.cells()[idx(self.w(), x, y)]
    }

    /// No proposal is pending.
    pub open spec fn settled(&self) -> bool {
        forall|i: int| 0 <= i < self.cells().len() ==> !(#[trigger] self.cells()[i]).is_transient()
    }

    /// The rendered board: one symbol per cell, row-major.
    pub open spec fn rendered(&self) -> Seq<char> {
        self.cells().map_values(|t: Tile| t.symbol())
    }

    /// An empty `width` by `height` board; every cell its own group with the
    /// default liberty count.
    pub fn new(width: u16, height: u16) -> (r: Self)
        ensures
            r.wf(),
            r.w() == width,
            r.h() == height,
            r.cells() == Seq::new((width * height) as nat, |i: int| Tile::Empty),
            r.groups()@.roots == Seq::new((width * height) as nat, |i: int| i),
            r.groups()@.libs == Seq::new((width * height) as nat, |i: int| DEFAULT_LIBERTIES),
            r.groups()@.sizes == Seq::new((width * height) as nat, |i: int| 1usize),
    {
        assert(width * height <= u16::MAX * u16::MAX) by (nonlinear_arith)
            requires
                width <= u16::MAX,
                height <= u16::MAX,
        ;
        let n: usize = (width as usize) * (height as usize);
        let mut tiles: Vec<Tile> = Vec::new();
        let mut i: usize = 0;
        while i < n
            invariant
                i <= n,
                tiles@ == Seq::new(i as nat, |j: int| Tile::Empty),
            decreases n - i,
        {
            tiles.push(Tile::Empty);
            i = i + 1;
            assert(tiles@ =~= Seq::new(i as nat, |j: int| Tile::Empty));
        }
        let uf = UnionFind::new(width as usize, height as usize);
        Board { tiles, width, height, uf }
    }

    /// Number of union-find nodes; equal to the number of cells.
    pub fn node_count(&self) -> (r: usize)
        requires
            self.wf(),
        ensures
            r == self.groups().len(),
            r == self.cells().len(),
            r == self.w() * self.h(),
    {
        self.uf.node_count()
    }

    /// Whether `(x, y)` lies on the board.
    pub fn contains(&self, x: u16, y: u16) -> (r: bool)
        ensures
            r == in_bounds(self.w(), self.h(), x as int, y as int),
    {
        x < self.width && y < self.height
    }

    /// Flat index of `(x, y)` after clamping each coordinate into the board.
    fn index(&self, x: u16, y: u16) -> (r: usize)
        requires
            self.wf(),
            self.width > 0,
            self.height > 0,
        ensures
            r == idx(self.w(), clamp(x as int, self.w()), clamp(y as int, self.h())),
            r < self.cells().len(),
            in_bounds(self.w(), self.h(), clamp(x as int, self.w()), clamp(y as int, self.h())),
    {
        let cx = if x < self.width {
            x
        } else {
            self.width - 1
        };
        let cy = if y < self.height {
            y
        } else {
            self.height - 1
        };
        proof {
            lemma_idx(self.w(), self.h(), cx as int, cy as int);
            lemma_dims(self.w(), self.h(), cy as int);
        }
        cx as usize + (self.width as usize) * (cy as usize)
    }

    /// The tile at `(x, y)`, or `None` off the board.
    pub fn tile(&self, x: u16, y: u16) -> (r: Option<Tile>)
        requires
            self.wf(),
        ensures
            in_bounds(self.w(), self.h(), x as int, y as int) ==> r == Some(
                self.cell(x as int, y as int),
            ),
            !in_bounds(self.w(), self.h(), x as int, y as int) ==> r is None,
    {
        if x < self.width && y < self.height {
            let i = self.index(x, y);
            Some(self.tiles[i])
        } else {
            None
        }
    }

    /// The in-bounds neighbours of `(x, y)` with their tiles, in the order
    /// left, up, right, down.
    fn adjacent_tiles(&self, x: u16, y: u16) -> (r: Vec<(u16, u16, Tile)>)
        requires
            self.wf(),
            in_bounds(self.w(), self.h(), x as int, y as int),
        ensures
            r@.len() == adjacent(self.w(), self.h(), x as int, y as int).len(),
            forall|k: int|
                0 <= k < r@.len() ==> {
                    let p = adjacent(self.w(), self.h(), x as int, y as int)[k];
                    &&& (#[trigger] r@[k]).0 as int == p.0
                    &&& r@[k].1 as int == p.1
                    &&& r@[k].2 == self.cell(p.0, p.1)
                },
    {
        let ghost w = self.w();
        let ghost h = self.h();
        let ghost a = adjacent(w, h, x as int, y as int);
        proof {
            lemma_adjacent(w, h, x as int, y as int);
        }
        let mut r: Vec<(u16, u16, Tile)> = Vec::new();
        let ghost mut g: Seq<(int, int)> = seq![];
        if x > 0 {
            proof { lemma_idx(w, h, x - 1, y as int); }
            r.push((x - 1, y, self.tiles[self.index(x - 1, y)]));
            proof { g = g.push((x - 1, y as int)); }
        }
        if y > 0 {
            proof { lemma_idx(w, h, x as int, y - 1); }
            r.push((x, y - 1, self.tiles[self.index(x, y - 1)]));
            proof { g = g.push((x as int, y - 1)); }
        }
        if x + 1 < self.width {
            proof { lemma_idx(w, h, x + 1, y as int); }
            r.push((x + 1, y, self.tiles[self.index(x + 1, y)]));
            proof { g = g.push((x + 1, y as int)); }
        }
        if y + 1 < self.height {
            proof { lemma_idx(w, h, x as int, y + 1); }
            r.push((x, y + 1, self.tiles[self.index(x, y + 1)]));
            proof { g = g.push((x as int, y + 1)); }
        }
        assert(g =~= a);
        r
    }


    /// `self` and `other` hold the same board, up to how the union-find's
    /// parent links reach their roots.
    pub open spec fn same_board(&self, other: &Board) -> bool {
        &&& self.w() == other.w()
        &&& self.h() == other.h()
        &&& self.cells() == other.cells()
        &&& self.groups()@ == other.groups()@
    }

    /// Whether a stone of `id` at `(x, y)` would be suicide on this board.
    pub open spec fn is_suicide_at(&self, x: int, y: int, id: u8) -> bool {
        suicide(self.cells(), self.groups()@, self.w(), self.h(), x, y, id)
    }

    /// The tiles after `id` proposes `(x, y)` (clamped into the board).
    pub open spec fn proposed_cells(&self, x: int, y: int, id: u8) -> Seq<Tile> {
        propose_cells(self.cells(), self.groups()@, self.w(), self.h(), x, y, id)
    }

    /// The liberty count of the group holding `(x, y)`, or `None` off the board.
    pub fn liberties(&mut self, x: u16, y: u16) -> (r: Option<usize>)
        requires
            old(self).wf(),
        ensures
            final(self).wf(),
            final(self).same_board(old(self)),
            in_bounds(old(self).w(), old(self).h(), x as int, y as int) ==> r == Some(
                old(self).groups()@.liberties_of(idx(old(self).w(), x as int, y as int)),
            ),
            !in_bounds(old(self).w(), old(self).h(), x as int, y as int) ==> r is None,
    {
        if x < self.width && y < self.height {
            let i = self.index(x, y);
            Some(self.uf.get_liberties(i))
        } else {
            None
        }
    }

    /// Whether a stone of `id` at `(x, y)` would be suicide: no neighbour is
    /// empty, every neighbouring group of `id` has fewer than two liberties,
    /// and every other player's neighbouring group has more than one.
    pub fn is_suicide(&mut self, x: u16, y: u16, id: u8) -> (r: bool)
        requires
            old(self).wf(),
            in_bounds(old(self).w(), old(self).h(), x as int, y as int),
        ensures
            final(self).wf(),
            final(self).same_board(old(self)),
            r == old(self).is_suicide_at(x as int, y as int, id),
            (exists|k: int|
                0 <= k < adjacent(old(self).w(), old(self).h(), x as int, y as int).len() && old(self).cell(
                    (#[trigger] adjacent(old(self).w(), old(self).h(), x as int, y as int)[k]).0,
                    adjacent(old(self).w(), old(self).h(), x as int, y as int)[k].1,
                ) == Tile::Empty) ==> !r,
    {
        let ghost a = adjacent(self.w(), self.h(), x as int, y as int);
        proof {
            lemma_adjacent(self.w(), self.h(), x as int, y as int);
        }
        let adj = self.adjacent_tiles(x, y);
        let mut k: usize = 0;
        while k < adj.len()
            invariant
                self.wf(),
                self.same_board(old(self)),
                adj@.len() == a.len(),
                a == adjacent(old(self).w(), old(self).h(), x as int, y as int),
                k <= adj@.len(),
                forall|j: int|
                    0 <= j < adj@.len() ==> {
                        let p = a[j];
                        &&& (#[trigger] adj@[j]).0 as int == p.0
                        &&& adj@[j].1 as int == p.1
                        &&& adj@[j].2 == old(self).cell(p.0, p.1)
                        &&& in_bounds(old(self).w(), old(self).h(), p.0, p.1)
                    },
                forall|j: int|
                    0 <= j < k ==> !rescues(
                        old(self).cells(),
                        old(self).groups()@,
                        idx(old(self).w(), (#[trigger] a[j]).0, a[j].1),
                        id,
                    ),
            decreases adj@.len() - k,
        {
            let (nx, ny, t) = adj[k];
            let ok = match t {
                Tile::Empty => true,
                Tile::Player(oid) => {
                    let j = self.index(nx, ny);
                    let libs = self.uf.get_liberties(j);
                    if oid == id {
                        libs >= 2
                    } else {
                        libs <= 1
                    }
                },
                _ => false,
            };
            assert(ok == rescues(old(self).cells(), old(self).groups()@, idx(old(self).w(), a[k as int].0, a[k as int].1), id));
            if ok {
                return false;
            }
            k = k + 1;
        }
        true
    }

    /// Proposes a stone of `id` at `(x, y)`, each coordinate clamped into the
    /// board. A suicide move is ignored. Otherwise an empty cell takes the
    /// proposal, a cell that already has one becomes contested, and an
    /// occupied cell stays as it is. The groups do not change.
    pub fn try_place(&mut self, x: u16, y: u16, id: u8)
        requires
            old(self).wf(),
        ensures
            final(self).wf(),
            final(self).w() == old(self).w(),
            final(self).h() == old(self).h(),
            final(self).groups()@ == old(self).groups()@,
            final(self).cells() == old(self).proposed_cells(x as int, y as int, id),
    {
        if self.width == 0 || self.height == 0 {
            return;
        }
        let cx = if x < self.width {
            x
        } else {
            self.width - 1
        };
        let cy = if y < self.height {
            y
        } else {
            self.height - 1
        };
        if self.is_suicide(cx, cy, id) {
            return;
        }
        let i = self.index(cx, cy);
        let t = match self.tiles[i] {
            Tile::Empty => Tile::TryPlace(id),
            Tile::TryPlace(_) | Tile::Contested => Tile::Contested,
            t => t,
        };
        self.tiles.set(i, t);
    }


    /// Resolves cell `(x, y)` (clamped into the board). A lone proposal
    /// becomes the proposer's stone: first every non-wall neighbour's group
    /// loses one liberty, then the stone joins each neighbouring group of the
    /// same player. A contested cell goes back to empty with no bookkeeping.
    /// Any other cell is left alone.
    pub fn resolve_conflict(&mut self, x: u16, y: u16)
        requires
            old(self).wf(),
        ensures
            final(self).wf(),
            final(self).w() == old(self).w(),
            final(self).h() == old(self).h(),
            old(self).w() == 0 || old(self).h() == 0 ==> final(self).same_board(old(self)),
            old(self).w() > 0 && old(self).h() > 0 ==> {
                let cx = clamp(x as int, old(self).w());
                let cy = clamp(y as int, old(self).h());
                &&& final(self).cells() == resolve_cells(old(self).cells(), old(self).w(), cx, cy)
                &&& final(self).groups()@ == resolve_groups(
                    old(self).cells(),
                    old(self).groups()@,
                    old(self).w(),
                    old(self).h(),
                    cx,
                    cy,
                )
            },
    {
        if self.width == 0 || self.height == 0 {
            return;
        }
        let cx = if x < self.width {
            x
        } else {
            self.width - 1
        };
        let cy = if y < self.height {
            y
        } else {
            self.height - 1
        };
        self.resolve_at(cx, cy);
    }

    fn resolve_at(&mut self, x: u16, y: u16)
        requires
            old(self).wf(),
            in_bounds(old(self).w(), old(self).h(), x as int, y as int),
        ensures
            final(self).wf(),
            final(self).w() == old(self).w(),
            final(self).h() == old(self).h(),
            final(self).cells() == resolve_cells(old(self).cells(), old(self).w(), x as int, y as int),
            final(self).groups()@ == resolve_groups(
                old(self).cells(),
                old(self).groups()@,
                old(self).w(),
                old(self).h(),
                x as int,
                y as int,
            ),
    {
        let i = self.index(x, y);
        match self.tiles[i] {
            Tile::TryPlace(id) => {
                let ghost w = self.w();
                let ghost a = adjacent(self.w(), self.h(), x as int, y as int);
                let ghost cells0 = self.cells();
                let ghost g0 = self.groups()@;
                proof {
                    lemma_adjacent(self.w(), self.h(), x as int, y as int);
                }
                let adj = self.adjacent_tiles(x, y);
                let mut k: usize = 0;
                while k < adj.len()
                    invariant
                        self.wf(),
                        self.w() == w,
                        self.h() == old(self).h(),
                        self.cells() == cells0,
                        cells0 == old(self).cells(),
                        g0 == old(self).groups()@,
                        i == idx(w, x as int, y as int),
                        a == adjacent(w, old(self).h(), x as int, y as int),
                        adj@.len() == a.len(),
                        k <= adj@.len(),
                        forall|j: int|
                            0 <= j < adj@.len() ==> {
                                let p = a[j];
                                &&& (#[trigger] adj@[j]).0 as int == p.0
                                &&& adj@[j].1 as int == p.1
                                &&& adj@[j].2 == cells0[idx(w, p.0, p.1)]
                                &&& in_bounds(w, old(self).h(), p.0, p.1)
                            },
                        self.groups()@ == subtract_adjacent(cells0, g0, w, a, k as int),
                    decreases adj@.len() - k,
                {
                    let (nx, ny, t) = adj[k];
                    if t != Tile::Wall {
                        let j = self.index(nx, ny);
                        self.uf.subtract_liberty(j);
                    }
                    k = k + 1;
                }
                let ghost g1 = self.groups()@;
                let mut k: usize = 0;
                while k < adj.len()
                    invariant
                        self.wf(),
                        self.w() == w,
                        self.h() == old(self).h(),
                        self.cells() == cells0,
                        cells0 == old(self).cells(),
                        cells0[i as int] == Tile::TryPlace(id),
                        i == idx(w, x as int, y as int),
                        i < cells0.len(),
                        a == adjacent(w, old(self).h(), x as int, y as int),
                        adj@.len() == a.len(),
                        k <= adj@.len(),
                        forall|j: int|
                            0 <= j < adj@.len() ==> {
                                let p = a[j];
                                &&& (#[trigger] adj@[j]).0 as int == p.0
                                &&& adj@[j].1 as int == p.1
                                &&& adj@[j].2 == cells0[idx(w, p.0, p.1)]
                                &&& in_bounds(w, old(self).h(), p.0, p.1)
                            },
                        self.groups()@ == union_adjacent(cells0, g1, w, i as int, id, a, k as int),
                    decreases adj@.len() - k,
                {
                    let (nx, ny, t) = adj[k];
                    if t == Tile::Player(id) {
                        let j = self.index(nx, ny);
                        self.uf.union(i, j);
                    }
                    k = k + 1;
                }
                self.tiles.set(i, Tile::Player(id));
            },
            Tile::Contested => {
                self.tiles.set(i, Tile::Empty);
            },
            _ => {},
        }
    }

    /// Resolves every cell once, in row-major order: each lone proposal
    /// becomes a stone, each contested cell goes back to empty.
    pub fn commit(&mut self)
        requires
            old(self).wf(),
        ensures
            final(self).wf(),
            final(self).w() == old(self).w(),
            final(self).h() == old(self).h(),
            ({
                let (c, g) = commit_upto(
                    old(self).cells(),
                    old(self).groups()@,
                    old(self).w(),
                    old(self).h(),
                    old(self).w() * old(self).h(),
                );
                final(self).cells() == c && final(self).groups()@ == g
            }),
            final(self).settled(),
    {
        if self.width == 0 || self.height == 0 {
            proof {
                let (w, h) = (old(self).w(), old(self).h());
                assert(w * h == 0) by (nonlinear_arith)
                    requires
                        w == 0 || h == 0,
                ;
                reveal_with_fuel(commit_upto, 1);
            }
            return;
        }
        let ghost w = self.w();
        let ghost h = self.h();
        let ghost c0 = self.cells();
        let ghost g0 = self.groups()@;
        let mut y: u16 = 0;
        while y < self.height
            invariant
                self.wf(),
                self.w() == w,
                self.h() == h,
                w > 0,
                h > 0,
                c0 == old(self).cells(),
                g0 == old(self).groups()@,
                y <= h,
                ({
                    let (c, g) = commit_upto(c0, g0, w, h, w * y);
                    self.cells() == c && self.groups()@ == g
                }),
            decreases h - y,
        {
            let mut x: u16 = 0;
            while x < self.width
                invariant
                    self.wf(),
                    self.w() == w,
                    self.h() == h,
                    w > 0,
                    y < h,
                    x <= w,
                    ({
                        let (c, g) = commit_upto(c0, g0, w, h, w * y + x);
                        self.cells() == c && self.groups()@ == g
                    }),
                decreases w - x,
            {
                proof {
                    assert(w * y + x == y * w + x) by (nonlinear_arith);
                    vstd::arithmetic::div_mod::lemma_fundamental_div_mod_converse(
                        w * y + x,
                        w,
                        y as int,
                        x as int,
                    );
                }
                self.resolve_at(x, y);
                x = x + 1;
            }
            proof {
                assert(w * y + w == w * (y + 1)) by (nonlinear_arith);
            }
            y = y + 1;
        }
        proof {
            lemma_commit_settles(c0, g0, w, h, w * h);
            assert(self.cells().len() == w * h);
        }
    }

    /// Plays one tick: every move `(x, y, id)` is proposed, the board is
    /// committed, then captures are taken around each move in turn. The
    /// board ends up as the last of a chain of capture checks, one around
    /// each move, that starts from the committed tiles and groups; in
    /// particular the tiles are as the commit left them, except for
    /// captured stones, which are empty.
    pub fn place_pieces(&mut self, moves: &Vec<(u16, u16, u8)>)
        requires
            old(self).wf(),
        ensures
            final(self).wf(),
            final(self).w() == old(self).w(),
            final(self).h() == old(self).h(),
            final(self).settled(),
            ({
                let (w, h, g) = (old(self).w(), old(self).h(), old(self).groups()@);
                let committed = commit_upto(
                    propose_all(old(self).cells(), g, w, h, moves@, moves@.len() as int),
                    g,
                    w,
                    h,
                    w * h,
                ).0;
                &&& final(self).cells().len() == committed.len()
                &&& forall|i: int|
                    0 <= i < committed.len() && #[trigger] final(self).cells()[i] != committed[i] ==> {
                        &&& committed[i] is Player
                        &&& final(self).cells()[i] == Tile::Empty
                    }
            }),
            exists|bs: Seq<Board>|
                #[trigger] capture_chain(
                    bs,
                    moves@,
                    moves@.len() as int,
                    commit_upto(
                        propose_all(
                            old(self).cells(),
                            old(self).groups()@,
                            old(self).w(),
                            old(self).h(),
                            moves@,
                            moves@.len() as int,
                        ),
                        old(self).groups()@,
                        old(self).w(),
                        old(self).h(),
                        old(self).w() * old(self).h(),
                    ).0,
                    commit_upto(
                        propose_all(
                            old(self).cells(),
                            old(self).groups()@,
                            old(self).w(),
                            old(self).h(),
                            moves@,
                            moves@.len() as int,
                        ),
                        old(self).groups()@,
                        old(self).w(),
                        old(self).h(),
                        old(self).w() * old(self).h(),
                    ).1,
                ) && final(self).cells() == bs.last().cells() && final(self).groups()@ == bs.last().groups()@,
    {
        let ghost g0 = self.groups()@;
        let ghost c0 = self.cells();
        let mut i: usize = 0;
        while i < moves.len()
            invariant
                self.wf(),
                self.w() == old(self).w(),
                self.h() == old(self).h(),
                g0 == old(self).groups()@,
                c0 == old(self).cells(),
                i <= moves@.len(),
                self.groups()@ == g0,
                self.cells() == propose_all(c0, g0, self.w(), self.h(), moves@, i as int),
            decreases moves@.len() - i,
        {
            let (x, y, id) = moves[i];
            self.try_place(x, y, id);
            i = i + 1;
        }
        self.commit();
        let ghost committed = self.cells();
        let ghost committed_groups = self.groups()@;
        let ghost mut bs: Seq<Board> = seq![*self];
        let mut i: usize = 0;
        while i < moves.len()
            invariant
                self.wf(),
                self.w() == old(self).w(),
                self.h() == old(self).h(),
                self.settled(),
                committed.len() == self.cells().len(),
                committed == commit_upto(
                    propose_all(c0, g0, self.w(), self.h(), moves@, moves@.len() as int),
                    g0,
                    self.w(),
                    self.h(),
                    self.w() * self.h(),
                ).0,
                g0 == old(self).groups()@,
                c0 == old(self).cells(),
                forall|j: int|
                    0 <= j < committed.len() && #[trigger] self.cells()[j] != committed[j] ==> {
                        &&& committed[j] is Player
                        &&& self.cells()[j] == Tile::Empty
                    },
                i <= moves@.len(),
                committed_groups == commit_upto(
                    propose_all(c0, g0, self.w(), self.h(), moves@, moves@.len() as int),
                    g0,
                    self.w(),
                    self.h(),
                    self.w() * self.h(),
                ).1,
                capture_chain(bs, moves@, i as int, committed, committed_groups),
                bs.last() == *self,
            decreases moves@.len() - i,
        {
            let (x, y, _) = moves[i];
            let ghost before = *self;
            self.kill_neighbors(x, y);
            proof {
                let bs2 = bs.push(*self);
                assert forall|k: int| 0 <= k < i + 1 implies bs2[k + 1].captured_around(
                    &bs2[k],
                    (#[trigger] moves@[k]).0 as int,
                    moves@[k].1 as int,
                ) by {
                    if k < i {
                        assert(bs2[k + 1] == bs[k + 1]);
                        assert(bs2[k] == bs[k]);
                    } else {
                        assert(bs2[k] == before);
                    }
                }
                bs = bs2;
                assert(before.cells().len() == self.cells().len());
                assert forall|j: int| 0 <= j < self.cells().len() implies !(#[trigger] self.cells()[j]).is_transient() by {
                    if self.cells()[j] != before.cells()[j] {
                        assert(self.cells()[j] == Tile::Empty);
                    } else {
                        assert(!before.cells()[j].is_transient());
                    }
                }
                assert forall|j: int|
                    0 <= j < committed.len() && #[trigger] self.cells()[j] != committed[j] implies {
                    &&& committed[j] is Player
                    &&& self.cells()[j] == Tile::Empty
                } by {
                    if self.cells()[j] != before.cells()[j] {
                        assert(before.cells()[j] is Player);
                        if before.cells()[j] != committed[j] {
                            assert(before.cells()[j] == Tile::Empty);
                        }
                    }
                }
            }
            i = i + 1;
        }
        proof {
            assert(capture_chain(bs, moves@, moves@.len() as int, committed, committed_groups));
        }
    }


    /// Node `i` is a root of its own, with size 1 and the default liberty count.
    pub open spec fn fresh(&self, i: int) -> bool {
        &&& self.groups().parents()[i] == i
        &&& self.groups().sizes()[i] == 1
        &&& self.groups().libs()[i] == DEFAULT_LIBERTIES
    }

    /// What a removal of stones of value `v` may do: each cell that changes
    /// held `v`, is now empty and is a fresh node; every other cell keeps its
    /// tile and its union-find entries.
    pub open spec fn removed_only(&self, before: &Board, v: Tile) -> bool {
        &&& self.w() == before.w()
        &&& self.h() == before.h()
        &&& forall|i: int|
            0 <= i < self.cells().len() && #[trigger] self.cells()[i] != before.cells()[i] ==> {
                &&& before.cells()[i] == v
                &&& self.cells()[i] == Tile::Empty
                &&& self.fresh(i)
            }
        &&& forall|i: int|
            0 <= i < self.cells().len() && #[trigger] self.cells()[i] == before.cells()[i] ==> {
                &&& self.groups().parents()[i] == before.groups().parents()[i]
                &&& self.groups().sizes()[i] == before.groups().sizes()[i]
                &&& self.groups().libs()[i] == before.groups().libs()[i]
            }
    }

    /// Empties the connected region of cells that hold the same tile as
    /// `(x, y)`, resetting each one's node, with an explicit stack.
    pub fn remove_group(&mut self, x: u16, y: u16)
        requires
            old(self).wf(),
            in_bounds(old(self).w(), old(self).h(), x as int, y as int),
            old(self).cell(x as int, y as int) is Player,
        ensures
            final(self).wf(),
            final(self).removed_only(old(self), old(self).cell(x as int, y as int)),
            final(self).cell(x as int, y as int) == Tile::Empty,
            forall|cx: int, cy: int|
                in_bounds(old(self).w(), old(self).h(), cx, cy) && #[trigger] changed(
                    old(self).cells(),
                    final(self).cells(),
                    old(self).w(),
                    cx,
                    cy,
                ) ==> closed(
                    final(self).cells(),
                    old(self).w(),
                    old(self).h(),
                    cx,
                    cy,
                    old(self).cell(x as int, y as int),
                ),
            forall|cx: int, cy: int|
                in_bounds(old(self).w(), old(self).h(), cx, cy) && #[trigger] changed(
                    old(self).cells(),
                    final(self).cells(),
                    old(self).w(),
                    cx,
                    cy,
                ) ==> joined(
                    old(self).cells(),
                    old(self).w(),
                    old(self).h(),
                    old(self).cell(x as int, y as int),
                    (x as int, y as int),
                    (cx, cy),
                ),
            forall|cx: int, cy: int|
                #[trigger] joined(
                    old(self).cells(),
                    old(self).w(),
                    old(self).h(),
                    old(self).cell(x as int, y as int),
                    (x as int, y as int),
                    (cx, cy),
                ) ==> final(self).cell(cx, cy) == Tile::Empty && final(self).fresh(idx(old(self).w(), cx, cy)),
    {
        let ghost w = self.w();
        let ghost h = self.h();
        let ghost c0 = self.cells();
        let s = self.index(x, y);
        let v = self.tiles[s];
        self.uf.reset_node(s);
        self.tiles.set(s, Tile::Empty);
        let mut stack: Vec<(u16, u16)> = Vec::new();
        stack.push((x, y));
        proof {
            lemma_on_stack_push(seq![], (x, y), x as int, y as int);
            assert(seq![].push((x, y)) == stack@);
            assert forall|cx: int, cy: int|
                in_bounds(w, h, cx, cy) && #[trigger] changed(c0, self.cells(), w, cx, cy) implies on_stack(
                stack@,
                cx,
                cy,
            ) || closed(self.cells(), w, h, cx, cy, v) by {
                lemma_idx(w, h, cx, cy);
                lemma_idx_inj(w, h, cx, cy, x as int, y as int);
            }
            let start = seq![(x as int, y as int)];
            assert(is_path(c0, w, h, v, start));
            assert forall|cx: int, cy: int|
                in_bounds(w, h, cx, cy) && #[trigger] changed(c0, self.cells(), w, cx, cy) implies joined(
                c0,
                w,
                h,
                v,
                (x as int, y as int),
                (cx, cy),
            ) by {
                lemma_idx(w, h, cx, cy);
                lemma_idx_inj(w, h, cx, cy, x as int, y as int);
                assert(start.last() == (cx, cy));
            }
        }
        while stack.len() > 0
            invariant
                self.wf(),
                self.w() == w,
                self.h() == h,
                c0 == old(self).cells(),
                v == c0[s as int],
                v is Player,
                s == idx(w, x as int, y as int),
                s < self.cells().len(),
                self.cells()[s as int] == Tile::Empty,
                self.removed_only(old(self), v),
                forall|j: int|
                    0 <= j < stack@.len() ==> in_bounds(w, h, (#[trigger] stack@[j]).0 as int, stack@[j].1 as int)
                        && changed(c0, self.cells(), w, stack@[j].0 as int, stack@[j].1 as int),
                forall|cx: int, cy: int|
                    in_bounds(w, h, cx, cy) && #[trigger] changed(c0, self.cells(), w, cx, cy) ==> on_stack(
                        stack@,
                        cx,
                        cy,
                    ) || closed(self.cells(), w, h, cx, cy, v),
                forall|cx: int, cy: int|
                    in_bounds(w, h, cx, cy) && #[trigger] changed(c0, self.cells(), w, cx, cy) ==> joined(
                        c0,
                        w,
                        h,
                        v,
                        (x as int, y as int),
                        (cx, cy),
                    ),
            decreases count_tile(self.cells(), v), stack@.len(),
        {
            let ghost st0 = stack@;
            let (cx, cy) = stack.pop().unwrap();
            let ghost base = stack@.len();
            let ghost count0 = count_tile(self.cells(), v);
            proof {
                lemma_adjacent(w, h, cx as int, cy as int);
                assert(stack@ == st0.drop_last());
                assert forall|dx: int, dy: int|
                    in_bounds(w, h, dx, dy) && #[trigger] changed(c0, self.cells(), w, dx, dy) && !(dx == cx && dy == cy) implies on_stack(
                    stack@,
                    dx,
                    dy,
                ) || closed(self.cells(), w, h, dx, dy, v) by {
                    if on_stack(st0, dx, dy) {
                        lemma_on_stack_pop(st0, dx, dy);
                    }
                }
            }
            let adj = self.adjacent_tiles(cx, cy);
            let mut k: usize = 0;
            while k < adj.len()
                invariant
                    self.wf(),
                    self.w() == w,
                    self.h() == h,
                    c0 == old(self).cells(),
                    v == c0[s as int],
                    v is Player,
                    s == idx(w, x as int, y as int),
                    s < self.cells().len(),
                    self.cells()[s as int] == Tile::Empty,
                    self.removed_only(old(self), v),
                    in_bounds(w, h, cx as int, cy as int),
                    changed(c0, self.cells(), w, cx as int, cy as int),
                    adj@.len() == adjacent(w, h, cx as int, cy as int).len(),
                    k <= adj@.len(),
                    forall|j: int|
                        0 <= j < adj@.len() ==> {
                            let p = adjacent(w, h, cx as int, cy as int)[j];
                            &&& (#[trigger] adj@[j]).0 as int == p.0
                            &&& adj@[j].1 as int == p.1
                            &&& in_bounds(w, h, p.0, p.1)
                        },
                    forall|j: int|
                        0 <= j < k ==> self.cells()[idx(
                            w,
                            (#[trigger] adjacent(w, h, cx as int, cy as int)[j]).0,
                            adjacent(w, h, cx as int, cy as int)[j].1,
                        )] != v,
                    stack@.len() >= base,
                    count_tile(self.cells(), v) + (stack@.len() - base) == count0,
                    forall|j: int|
                        0 <= j < stack@.len() ==> in_bounds(w, h, (#[trigger] stack@[j]).0 as int, stack@[j].1 as int)
                            && changed(c0, self.cells(), w, stack@[j].0 as int, stack@[j].1 as int),
                    forall|dx: int, dy: int|
                        in_bounds(w, h, dx, dy) && #[trigger] changed(c0, self.cells(), w, dx, dy) && !(dx == cx && dy == cy) ==> on_stack(
                            stack@,
                            dx,
                            dy,
                        ) || closed(self.cells(), w, h, dx, dy, v),
                    forall|dx: int, dy: int|
                        in_bounds(w, h, dx, dy) && #[trigger] changed(c0, self.cells(), w, dx, dy) ==> joined(
                            c0,
                            w,
                            h,
                            v,
                            (x as int, y as int),
                            (dx, dy),
                        ),
                decreases adj@.len() - k,
            {
                let (nx, ny, _) = adj[k];
                let j = self.index(nx, ny);
                if self.tiles[j] == v {
                    let ghost cells1 = self.cells();
                    let ghost st1 = stack@;
                    proof {
                        lemma_count_update(cells1, v, j as int, Tile::Empty);
                    }
                    self.uf.reset_node(j);
                    self.tiles.set(j, Tile::Empty);
                    stack.push((nx, ny));
                    proof {
                        assert(self.cells() == cells1.update(j as int, Tile::Empty));
                        assert(j != s);
                        lemma_idx(w, h, cx as int, cy as int);
                        assert(cells1[idx(w, cx as int, cy as int)] == Tile::Empty);
                        assert(j != idx(w, cx as int, cy as int));
                        assert forall|i: int|
                            0 <= i < self.cells().len() && #[trigger] self.cells()[i] != old(self).cells()[i] implies {
                            &&& old(self).cells()[i] == v
                            &&& self.cells()[i] == Tile::Empty
                            &&& self.fresh(i)
                        } by {
                            if i != j {
                                assert(self.cells()[i] == cells1[i]);
                            }
                        }
                        assert forall|i: int|
                            0 <= i < self.cells().len() && #[trigger] self.cells()[i] == old(self).cells()[i] implies {
                            &&& self.groups().parents()[i] == old(self).groups().parents()[i]
                            &&& self.groups().sizes()[i] == old(self).groups().sizes()[i]
                            &&& self.groups().libs()[i] == old(self).groups().libs()[i]
                        } by {
                            assert(i != j);
                            assert(self.cells()[i] == cells1[i]);
                        }
                        assert forall|jj: int| 0 <= jj < stack@.len() implies in_bounds(
                            w,
                            h,
                            (#[trigger] stack@[jj]).0 as int,
                            stack@[jj].1 as int,
                        ) && changed(c0, self.cells(), w, stack@[jj].0 as int, stack@[jj].1 as int) by {
                            if jj < st1.len() {
                                assert(stack@[jj] == st1[jj]);
                                lemma_idx(w, h, st1[jj].0 as int, st1[jj].1 as int);
                            }
                        }
                        assert forall|dx: int, dy: int|
                            in_bounds(w, h, dx, dy) && #[trigger] changed(c0, self.cells(), w, dx, dy) && !(dx == cx && dy == cy) implies on_stack(
                            stack@,
                            dx,
                            dy,
                        ) || closed(self.cells(), w, h, dx, dy, v) by {
                            lemma_on_stack_push(st1, (nx, ny), dx, dy);
                            lemma_idx(w, h, dx, dy);
                            if dx == nx && dy == ny {
                            } else {
                                if idx(w, dx, dy) == j {
                                    lemma_idx_inj(w, h, dx, dy, nx as int, ny as int);
                                }
                                assert(changed(c0, cells1, w, dx, dy));
                                if !on_stack(st1, dx, dy) {
                                    let a = adjacent(w, h, dx, dy);
                                    lemma_adjacent(w, h, dx, dy);
                                    assert forall|kk: int| 0 <= kk < a.len() implies self.cells()[idx(
                                        w,
                                        (#[trigger] a[kk]).0,
                                        a[kk].1,
                                    )] != v by {
                                        lemma_idx(w, h, a[kk].0, a[kk].1);
                                        assert(cells1[idx(w, a[kk].0, a[kk].1)] != v);
                                    }
                                }
                            }
                        }
                        assert forall|dx: int, dy: int|
                            in_bounds(w, h, dx, dy) && #[trigger] changed(c0, self.cells(), w, dx, dy) implies joined(
                            c0,
                            w,
                            h,
                            v,
                            (x as int, y as int),
                            (dx, dy),
                        ) by {
                            lemma_idx(w, h, dx, dy);
                            if dx == nx && dy == ny {
                                assert(changed(c0, cells1, w, cx as int, cy as int));
                                let path = choose|path: Seq<(int, int)>|
                                    #[trigger] is_path(c0, w, h, v, path) && path[0] == (x as int, y as int)
                                        && path.last() == (cx as int, cy as int);
                                assert(adjacent(w, h, cx as int, cy as int)[k as int] == (nx as int, ny as int));
                                assert(cells1[j as int] == c0[j as int]);
                                lemma_path_extend(c0, w, h, v, path, (nx as int, ny as int));
                            } else {
                                if idx(w, dx, dy) == j {
                                    lemma_idx_inj(w, h, dx, dy, nx as int, ny as int);
                                }
                                assert(changed(c0, cells1, w, dx, dy));
                            }
                        }
                        assert forall|jj: int| 0 <= jj < k + 1 implies self.cells()[idx(
                            w,
                            (#[trigger] adjacent(w, h, cx as int, cy as int)[jj]).0,
                            adjacent(w, h, cx as int, cy as int)[jj].1,
                        )] != v by {
                            let p = adjacent(w, h, cx as int, cy as int)[jj];
                            lemma_idx(w, h, p.0, p.1);
                            if jj < k {
                                assert(cells1[idx(w, p.0, p.1)] != v);
                            } else {
                                assert(idx(w, p.0, p.1) == j);
                            }
                        }
                    }
                }
                k = k + 1;
            }
            proof {
                assert(closed(self.cells(), w, h, cx as int, cy as int, v));
            }
        }
        proof {
            assert forall|dx: int, dy: int|
                in_bounds(w, h, dx, dy) && #[trigger] changed(c0, self.cells(), w, dx, dy) implies closed(
                self.cells(),
                w,
                h,
                dx,
                dy,
                v,
            ) by {
                if on_stack(stack@, dx, dy) {
                    let jj = choose|jj: int| 0 <= jj < stack@.len() && stack@[jj].0 == dx && stack@[jj].1 == dy;
                }
            }
            assert forall|cx: int, cy: int|
                #[trigger] joined(c0, w, h, v, (x as int, y as int), (cx, cy)) implies self.cell(cx, cy) == Tile::Empty
                && self.fresh(idx(w, cx, cy)) by {
                let path = choose|path: Seq<(int, int)>|
                    #[trigger] is_path(c0, w, h, v, path) && path[0] == (x as int, y as int) && path.last() == (cx, cy);
                assert forall|ex: int, ey: int|
                    in_bounds(w, h, ex, ey) && #[trigger] changed(c0, self.cells(), w, ex, ey) implies closed(
                    self.cells(),
                    w,
                    h,
                    ex,
                    ey,
                    c0[idx(w, ex, ey)],
                ) by {
                    lemma_idx(w, h, ex, ey);
                    assert(c0[idx(w, ex, ey)] == v);
                }
                lemma_path_all_changed(c0, self.cells(), w, h, v, path, path.len() - 1);
                lemma_idx(w, h, cx, cy);
            }
        }
    }


    /// The stone at flat index `i` belongs to a group with no liberties left.
    pub open spec fn dead(&self, i: int) -> bool {
        self.cells()[i] is Player && self.groups()@.liberties_of(i) == 0
    }

    /// What any sequence of removals may do: each cell that changes held a
    /// stone, is now empty and is a fresh node; every other cell keeps its
    /// tile and its node's counters.
    pub open spec fn removed_stones(&self, before: &Board) -> bool {
        &&& self.w() == before.w()
        &&& self.h() == before.h()
        &&& forall|i: int|
            0 <= i < self.cells().len() && #[trigger] self.cells()[i] != before.cells()[i] ==> {
                &&& before.cells()[i] is Player
                &&& self.cells()[i] == Tile::Empty
                &&& self.fresh(i)
            }
        &&& forall|i: int|
            0 <= i < self.cells().len() && #[trigger] self.cells()[i] == before.cells()[i] ==> {
                &&& self.groups().sizes()[i] == before.groups().sizes()[i]
                &&& self.groups().libs()[i] == before.groups().libs()[i]
            }
    }

    /// What a capture around `(x, y)` (clamped into the board) leaves: only
    /// stones were removed; every neighbouring group that had no liberties
    /// is gone; every removed cell is joined to such a neighbour by a path of
    /// cells holding its tile; no cell still holds the tile of a removed cell
    /// next to it; and when nothing was removed the groups are as before.
    pub open spec fn captured_around(&self, before: &Board, x: int, y: int) -> bool {
        let w = before.w();
        let h = before.h();
        let a = adjacent(w, h, clamp(x, w), clamp(y, h));
        &&& self.removed_stones(before)
        &&& w == 0 || h == 0 ==> self.same_board(before)
        &&& w > 0 && h > 0 ==> {
            &&& forall|k: int|
                0 <= k < a.len() && before.dead(idx(w, (#[trigger] a[k]).0, a[k].1))
                    ==> self.cells()[idx(w, a[k].0, a[k].1)] == Tile::Empty
            &&& forall|i: int|
                0 <= i < before.cells().len() && #[trigger] self.cells()[i] != before.cells()[i]
                    ==> exists|k: int|
                    0 <= k < a.len() && before.dead(idx(w, (#[trigger] a[k]).0, a[k].1))
                        && before.cells()[i] == before.cells()[idx(w, a[k].0, a[k].1)]
            &&& forall|cx: int, cy: int|
                in_bounds(w, h, cx, cy) && #[trigger] changed(before.cells(), self.cells(), w, cx, cy)
                    ==> exists|k: int|
                    0 <= k < a.len() && before.dead(idx(w, (#[trigger] a[k]).0, a[k].1)) && joined(
                        before.cells(),
                        w,
                        h,
                        before.cell(a[k].0, a[k].1),
                        a[k],
                        (cx, cy),
                    )
        }
        &&& self.cells() == before.cells() ==> self.groups()@ == before.groups()@
        &&& forall|cx: int, cy: int|
            in_bounds(w, h, cx, cy) && #[trigger] changed(before.cells(), self.cells(), w, cx, cy)
                ==> closed(self.cells(), w, h, cx, cy, before.cell(cx, cy))
    }

    /// Captures around `(x, y)` (clamped into the board): each neighbouring
    /// group whose liberty count is zero is removed whole. Its cells become
    /// empty and their nodes fresh singletons; a cell never goes unless it
    /// holds the same tile as a captured neighbour, and no cell holding that
    /// tile is left next to a removed one.
    pub fn kill_neighbors(&mut self, x: u16, y: u16)
        requires
            old(self).wf(),
        ensures
            final(self).wf(),
            final(self).captured_around(old(self), x as int, y as int),
    {
        if self.width == 0 || self.height == 0 {
            return;
        }
        let cx = if x < self.width {
            x
        } else {
            self.width - 1
        };
        let cy = if y < self.height {
            y
        } else {
            self.height - 1
        };
        let ghost w = self.w();
        let ghost h = self.h();
        let ghost a = adjacent(w, h, cx as int, cy as int);
        let ghost b0 = *self;
        proof {
            lemma_adjacent(w, h, cx as int, cy as int);
        }
        let adj = self.adjacent_tiles(cx, cy);
        let mut dead: Vec<bool> = Vec::new();
        let mut k: usize = 0;
        while k < adj.len()
            invariant
                self.wf(),
                self.same_board(&b0),
                b0 == *old(self),
                a == adjacent(w, h, cx as int, cy as int),
                w == old(self).w(),
                h == old(self).h(),
                adj@.len() == a.len(),
                k <= adj@.len(),
                dead@.len() == k,
                forall|j: int|
                    0 <= j < adj@.len() ==> {
                        let p = a[j];
                        &&& (#[trigger] adj@[j]).0 as int == p.0
                        &&& adj@[j].1 as int == p.1
                        &&& adj@[j].2 == b0.cell(p.0, p.1)
                        &&& in_bounds(w, h, p.0, p.1)
                    },
                forall|j: int| 0 <= j < k ==> #[trigger] dead@[j] == b0.dead(idx(w, a[j].0, a[j].1)),
            decreases adj@.len() - k,
        {
            let (nx, ny, t) = adj[k];
            let d = match t {
                Tile::Player(_) => {
                    let j = self.index(nx, ny);
                    self.uf.get_liberties(j) == 0
                },
                _ => false,
            };
            dead.push(d);
            k = k + 1;
        }
        let mut k: usize = 0;
        while k < adj.len()
            invariant
                self.wf(),
                self.removed_stones(&b0),
                b0 == *old(self),
                self.w() == w,
                self.h() == h,
                self.cells().len() == b0.cells().len(),
                in_bounds(w, h, cx as int, cy as int),
                a == adjacent(w, h, cx as int, cy as int),
                w == old(self).w(),
                h == old(self).h(),
                adj@.len() == a.len(),
                k <= adj@.len(),
                dead@.len() == adj@.len(),
                forall|j: int|
                    0 <= j < adj@.len() ==> {
                        let p = a[j];
                        &&& (#[trigger] adj@[j]).0 as int == p.0
                        &&& adj@[j].1 as int == p.1
                        &&& in_bounds(w, h, p.0, p.1)
                    },
                forall|j: int| 0 <= j < adj@.len() ==> #[trigger] dead@[j] == b0.dead(idx(w, a[j].0, a[j].1)),
                forall|j: int|
                    0 <= j < k && b0.dead(idx(w, (#[trigger] a[j]).0, a[j].1)) ==> self.cells()[idx(w, a[j].0, a[j].1)]
                        == Tile::Empty,
                forall|i: int|
                    0 <= i < b0.cells().len() && #[trigger] self.cells()[i] != b0.cells()[i] ==> exists|j: int|
                        0 <= j < k && b0.dead(idx(w, (#[trigger] a[j]).0, a[j].1)) && b0.cells()[i]
                            == b0.cells()[idx(w, a[j].0, a[j].1)],
                forall|dx: int, dy: int|
                    in_bounds(w, h, dx, dy) && #[trigger] changed(b0.cells(), self.cells(), w, dx, dy) ==> closed(
                        self.cells(),
                        w,
                        h,
                        dx,
                        dy,
                        b0.cell(dx, dy),
                    ),
                forall|dx: int, dy: int|
                    in_bounds(w, h, dx, dy) && #[trigger] changed(b0.cells(), self.cells(), w, dx, dy) ==> exists|jj: int|
                        0 <= jj < k && b0.dead(idx(w, (#[trigger] a[jj]).0, a[jj].1)) && joined(
                            b0.cells(),
                            w,
                            h,
                            b0.cell(a[jj].0, a[jj].1),
                            a[jj],
                            (dx, dy),
                        ),
                self.cells() == b0.cells() ==> self.groups()@ == b0.groups()@,
            decreases adj@.len() - k,
        {
            let (nx, ny, _) = adj[k];
            let j = self.index(nx, ny);
            proof {
                lemma_idx(w, h, nx as int, ny as int);
            }
            if dead[k] {
                if let Tile::Player(_) = self.tiles[j] {
                    let ghost b1 = *self;
                    proof {
                        assert(self.cells()[j as int] == b0.cells()[j as int]);
                    }
                    self.remove_group(nx, ny);
                    proof {
                        let v = b1.cells()[j as int];
                        lemma_adjacent(w, h, cx as int, cy as int);
                        assert(self.cells().len() == b0.cells().len());
                        assert(b1.cells().len() == b0.cells().len());
                        assert forall|i: int|
                            0 <= i < self.cells().len() && #[trigger] self.cells()[i] != b0.cells()[i] implies {
                            &&& b0.cells()[i] is Player
                            &&& self.cells()[i] == Tile::Empty
                            &&& self.fresh(i)
                        } by {
                            if self.cells()[i] != b1.cells()[i] {
                                assert(b1.cells()[i] == v);
                                assert(b1.cells()[i] == b0.cells()[i]);
                            } else {
                                assert(b1.cells()[i] != b0.cells()[i]);
                            }
                        }
                        assert forall|i: int|
                            0 <= i < self.cells().len() && #[trigger] self.cells()[i] == b0.cells()[i] implies {
                            &&& self.groups().sizes()[i] == b0.groups().sizes()[i]
                            &&& self.groups().libs()[i] == b0.groups().libs()[i]
                        } by {
                            if self.cells()[i] != b1.cells()[i] {
                                assert(b1.cells()[i] == v);
                                assert(b1.cells()[i] == b0.cells()[i]);
                            } else if b1.cells()[i] != b0.cells()[i] {
                                assert(b1.cells()[i] == Tile::Empty);
                            }
                        }
                        assert forall|jj: int|
                            0 <= jj < k + 1 && b0.dead(idx(w, (#[trigger] a[jj]).0, a[jj].1)) implies self.cells()[idx(
                            w,
                            a[jj].0,
                            a[jj].1,
                        )] == Tile::Empty by {
                            lemma_idx(w, h, a[jj].0, a[jj].1);
                            let q = idx(w, a[jj].0, a[jj].1);
                            if jj < k {
                                assert(b1.cells()[q] == Tile::Empty);
                                if self.cells()[q] != b1.cells()[q] {
                                    assert(b1.cells()[q] == v);
                                }
                            }
                        }
                        assert forall|i: int|
                            0 <= i < b0.cells().len() && #[trigger] self.cells()[i] != b0.cells()[i] implies exists|jj: int|
                            0 <= jj < k + 1 && b0.dead(idx(w, (#[trigger] a[jj]).0, a[jj].1)) && b0.cells()[i]
                                == b0.cells()[idx(w, a[jj].0, a[jj].1)] by {
                            if self.cells()[i] != b1.cells()[i] {
                                assert(b1.cells()[i] == v);
                                assert(b1.cells()[i] == b0.cells()[i]);
                                assert(idx(w, a[k as int].0, a[k as int].1) == j);
                                assert(b0.dead(idx(w, a[k as int].0, a[k as int].1)));
                            } else {
                                assert(b1.cells()[i] != b0.cells()[i]);
                                let jj = choose|jj: int|
                                    0 <= jj < k && b0.dead(idx(w, (#[trigger] a[jj]).0, a[jj].1))
                                        && b0.cells()[i] == b0.cells()[idx(w, a[jj].0, a[jj].1)];
                            }
                        }
                        assert forall|dx: int, dy: int|
                            in_bounds(w, h, dx, dy) && #[trigger] changed(b0.cells(), self.cells(), w, dx, dy) implies closed(
                            self.cells(),
                            w,
                            h,
                            dx,
                            dy,
                            b0.cell(dx, dy),
                        ) by {
                            lemma_idx(w, h, dx, dy);
                            let q = idx(w, dx, dy);
                            let aa = adjacent(w, h, dx, dy);
                            lemma_adjacent(w, h, dx, dy);
                            if changed(b1.cells(), self.cells(), w, dx, dy) {
                                assert(b1.cells()[q] == v);
                                assert(b1.cells()[q] == b0.cells()[q]);
                            } else {
                                assert(changed(b0.cells(), b1.cells(), w, dx, dy));
                                assert(b0.cells()[q] is Player);
                                assert forall|kk: int| 0 <= kk < aa.len() implies self.cells()[idx(
                                    w,
                                    (#[trigger] aa[kk]).0,
                                    aa[kk].1,
                                )] != b0.cell(dx, dy) by {
                                    lemma_idx(w, h, aa[kk].0, aa[kk].1);
                                    let r = idx(w, aa[kk].0, aa[kk].1);
                                    assert(b1.cells()[r] != b0.cell(dx, dy));
                                }
                            }
                        }
                        assert(self.cells()[j as int] != b0.cells()[j as int]);
                        assert forall|dx: int, dy: int|
                            in_bounds(w, h, dx, dy) && #[trigger] changed(b0.cells(), self.cells(), w, dx, dy) implies exists|jj: int|
                            0 <= jj < k + 1 && b0.dead(idx(w, (#[trigger] a[jj]).0, a[jj].1)) && joined(
                                b0.cells(),
                                w,
                                h,
                                b0.cell(a[jj].0, a[jj].1),
                                a[jj],
                                (dx, dy),
                            ) by {
                            lemma_idx(w, h, dx, dy);
                            let q = idx(w, dx, dy);
                            if changed(b1.cells(), self.cells(), w, dx, dy) {
                                let path = choose|path: Seq<(int, int)>|
                                    #[trigger] is_path(b1.cells(), w, h, v, path) && path[0] == (nx as int, ny as int)
                                        && path.last() == (dx, dy);
                                assert forall|i: int|
                                    0 <= i < b1.cells().len() && #[trigger] b1.cells()[i] != b0.cells()[i] implies b1.cells()[i]
                                    == Tile::Empty by {}
                                lemma_path_transfer(b1.cells(), b0.cells(), w, h, v, path);
                                assert(a[k as int] == (nx as int, ny as int));
                                assert(idx(w, a[k as int].0, a[k as int].1) == j);
                                assert(b0.dead(idx(w, a[k as int].0, a[k as int].1)));
                                assert(b0.cell(a[k as int].0, a[k as int].1) == v);
                                assert(joined(b0.cells(), w, h, v, a[k as int], (dx, dy)));
                            } else {
                                assert(changed(b0.cells(), b1.cells(), w, dx, dy));
                            }
                        }
                    }
                } else {
                    proof {
                        assert(b0.cells()[j as int] is Player);
                        assert(self.cells()[j as int] != b0.cells()[j as int]);
                    }
                }
            }
            k = k + 1;
        }
    }

    /// Whether no proposal is pending on any cell.
    pub fn is_settled(&self) -> (r: bool)
        ensures
            r == self.settled(),
    {
        let mut i: usize = 0;
        while i < self.tiles.len()
            invariant
                i <= self.tiles@.len(),
                forall|j: int| 0 <= j < i ==> !(#[trigger] self.cells()[j]).is_transient(),
            decreases self.tiles@.len() - i,
        {
            match self.tiles[i] {
                Tile::TryPlace(_) | Tile::Contested => {
                    assert(self.cells()[i as int].is_transient());
                    return false;
                },
                _ => {},
            }
            i = i + 1;
        }
        true
    }

    /// The board as one symbol per cell, row-major: `.` empty, `/` wall, and
    /// each player's id as a character. Only a settled board can be rendered.
    pub fn serialize(&self) -> (r: String)
        requires
            self.settled(),
        ensures
            r@ == self.rendered(),
    {
        let mut s = String::new();
        let mut i: usize = 0;
        while i < self.tiles.len()
            invariant
                i <= self.tiles@.len(),
                self.settled(),
                s@ == self.tiles@.subrange(0, i as int).map_values(|t: Tile| t.symbol()),
            decreases self.tiles@.len() - i,
        {
            assert(!self.cells()[i as int].is_transient());
            let c = self.tiles[i].to_char();
            push_char(&mut s, c);
            i = i + 1;
            assert(s@ =~= self.tiles@.subrange(0, i as int).map_values(|t: Tile| t.symbol()));
        }
        assert(self.tiles@.subrange(0, i as int) =~= self.tiles@);
        s
    }
}

} // verus!

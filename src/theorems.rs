//! Facts about whole ticks, proved from the contracts of the board's
//! operations.
use crate::board::{
    adjacent, changed, clamp, closed, commit_upto, idx, in_bounds, lemma_adjacent, lemma_idx,
    lemma_idx_inj, lemma_touching_is_adjacent, propose_cells, rescues, resolve_cells, resolve_groups, suicide, touches, Board,
    Tile,
};
use crate::uf::Groups;
use vstd::prelude::*;

verus! {

/// A proposal on an empty cell with an empty neighbour is never suicide, so
/// it always lands: the cell takes the proposal and nothing else changes.
pub proof fn lemma_open_cell_takes_proposal(b: Board, x: int, y: int, id: u8)
    requires
        b.wf(),
        in_bounds(b.w(), b.h(), x, y),
        b.cell(x, y) == Tile::Empty,
        exists|k: int|
            0 <= k < adjacent(b.w(), b.h(), x, y).len() && b.cell(
                (#[trigger] adjacent(b.w(), b.h(), x, y)[k]).0,
                adjacent(b.w(), b.h(), x, y)[k].1,
            ) == Tile::Empty,
    ensures
        !b.is_suicide_at(x, y, id),
        b.proposed_cells(x, y, id) == b.cells().update(idx(b.w(), x, y), Tile::TryPlace(id)),
{
    let a = adjacent(b.w(), b.h(), x, y);
    let k = choose|k: int| 0 <= k < a.len() && b.cell((#[trigger] a[k]).0, a[k].1) == Tile::Empty;
    assert(rescues(b.cells(), b.groups()@, idx(b.w(), a[k].0, a[k].1), id));
}

/// Changing the cell at `(x, y)` itself does not change whether a stone
/// there would be suicide: only its neighbours count.
proof fn lemma_suicide_ignores_own_cell(
    cells: Seq<Tile>,
    g: Groups,
    w: int,
    h: int,
    x: int,
    y: int,
    t: Tile,
    id: u8,
)
    requires
        in_bounds(w, h, x, y),
        cells.len() == w * h,
    ensures
        suicide(cells.update(idx(w, x, y), t), g, w, h, x, y, id) == suicide(cells, g, w, h, x, y, id),
{
    let a = adjacent(w, h, x, y);
    let c2 = cells.update(idx(w, x, y), t);
    lemma_adjacent(w, h, x, y);
    lemma_idx(w, h, x, y);
    assert forall|k: int| 0 <= k < a.len() implies rescues(c2, g, idx(w, (#[trigger] a[k]).0, a[k].1), id)
        == rescues(cells, g, idx(w, a[k].0, a[k].1), id) by {
        lemma_idx(w, h, a[k].0, a[k].1);
        if idx(w, a[k].0, a[k].1) == idx(w, x, y) {
            lemma_idx_inj(w, h, a[k].0, a[k].1, x, y);
        }
    }
}

/// Committing a board whose only pending cell is the contested cell `i`
/// empties that cell once the sweep has passed it, and touches nothing else.
proof fn lemma_commit_one_contested(cells: Seq<Tile>, g: Groups, w: int, h: int, i: int, k: int)
    requires
        w > 0,
        h > 0,
        cells.len() == w * h,
        0 <= i < cells.len(),
        cells[i] == Tile::Contested,
        forall|j: int| 0 <= j < cells.len() && j != i ==> !(#[trigger] cells[j]).is_transient(),
        0 <= k <= w * h,
    ensures
        commit_upto(cells, g, w, h, k) == (if k > i {
            cells.update(i, Tile::Empty)
        } else {
            cells
        }, g),
    decreases k,
{
    if k > 0 {
        lemma_commit_one_contested(cells, g, w, h, i, k - 1);
        let c0 = if k - 1 > i {
            cells.update(i, Tile::Empty)
        } else {
            cells
        };
        let n = k - 1;
        vstd::arithmetic::div_mod::lemma_fundamental_div_mod(n, w);
        vstd::arithmetic::div_mod::lemma_mod_bound(n, w);
        assert(0 <= n / w) by {
            vstd::arithmetic::div_mod::lemma_div_pos_is_pos(n, w);
        }
        assert(idx(w, n % w, n / w) == n) by (nonlinear_arith)
            requires
                n == w * (n / w) + n % w,
        ;
        assert(resolve_cells(c0, w, n % w, n / w) == (if k > i {
            cells.update(i, Tile::Empty)
        } else {
            cells
        }));
        assert(resolve_groups(c0, g, w, h, n % w, n / w) == g);
    }
}

/// Committing a board with no pending cell changes nothing.
proof fn lemma_commit_settled(cells: Seq<Tile>, g: Groups, w: int, h: int, k: int)
    requires
        w > 0,
        h > 0,
        cells.len() == w * h,
        forall|j: int| 0 <= j < cells.len() ==> !(#[trigger] cells[j]).is_transient(),
        0 <= k <= w * h,
    ensures
        commit_upto(cells, g, w, h, k) == (cells, g),
    decreases k,
{
    if k > 0 {
        lemma_commit_settled(cells, g, w, h, k - 1);
        let n = k - 1;
        vstd::arithmetic::div_mod::lemma_fundamental_div_mod(n, w);
        vstd::arithmetic::div_mod::lemma_mod_bound(n, w);
        assert(0 <= n / w) by {
            vstd::arithmetic::div_mod::lemma_div_pos_is_pos(n, w);
        }
        assert(idx(w, n % w, n / w) == n) by (nonlinear_arith)
            requires
                n == w * (n / w) + n % w,
        ;
    }
}

/// Two proposals on the same empty cell of a settled board in one tick
/// cancel out: after the commit the board is exactly as before, tiles and
/// groups alike. (This needs the two proposals to be judged alike by the
/// suicide rule; otherwise the one that is not suicide simply lands.)
pub proof fn lemma_contested_cell_stays_empty(b: Board, x: int, y: int, first: u8, second: u8)
    requires
        b.wf(),
        b.settled(),
        in_bounds(b.w(), b.h(), x, y),
        b.cell(x, y) == Tile::Empty,
        b.is_suicide_at(x, y, first) == b.is_suicide_at(x, y, second),
    ensures
        ({
            let (w, h, g) = (b.w(), b.h(), b.groups()@);
            let c1 = propose_cells(b.cells(), g, w, h, x, y, first);
            let c2 = propose_cells(c1, g, w, h, x, y, second);
            commit_upto(c2, g, w, h, w * h) == (b.cells(), g)
        }),
{
    let (w, h, g) = (b.w(), b.h(), b.groups()@);
    let c0 = b.cells();
    let i = idx(w, x, y);
    lemma_idx(w, h, x, y);
    let c1 = propose_cells(c0, g, w, h, x, y, first);
    let c2 = propose_cells(c1, g, w, h, x, y, second);
    if b.is_suicide_at(x, y, first) {
        assert(c1 == c0);
        assert(c2 == c0);
        lemma_commit_settled(c0, g, w, h, w * h);
    } else {
        assert(c1 == c0.update(i, Tile::TryPlace(first)));
        lemma_suicide_ignores_own_cell(c0, g, w, h, x, y, Tile::TryPlace(first), second);
        assert(c2 == c1.update(i, Tile::Contested));
        assert(c2 == c0.update(i, Tile::Contested));
        lemma_commit_one_contested(c2, g, w, h, i, w * h);
        assert(c2.update(i, Tile::Empty) =~= c0);
    }
}

/// A capture takes the whole group: every cell joined to a captured
/// neighbour by a path of cells holding the same stone ends up empty and a
/// fresh node with the default liberty count.
pub proof fn lemma_capture_takes_whole_group(
    b0: Board,
    b1: Board,
    x: int,
    y: int,
    path: Seq<(int, int)>,
)
    requires
        b0.wf(),
        b1.wf(),
        b0.w() > 0,
        b0.h() > 0,
        b1.captured_around(&b0, x, y),
        path.len() > 0,
        exists|k: int|
            0 <= k < adjacent(b0.w(), b0.h(), clamp(x, b0.w()), clamp(y, b0.h())).len()
                && #[trigger] adjacent(b0.w(), b0.h(), clamp(x, b0.w()), clamp(y, b0.h()))[k] == path[0]
                && b0.dead(idx(b0.w(), path[0].0, path[0].1)),
        forall|j: int|
            0 <= j < path.len() ==> in_bounds(b0.w(), b0.h(), (#[trigger] path[j]).0, path[j].1)
                && b0.cell(path[j].0, path[j].1) == b0.cell(path[0].0, path[0].1),
        forall|j: int| 0 <= j < path.len() - 1 ==> touches((#[trigger] path[j]).0, path[j].1, path[j + 1]),
    ensures
        forall|j: int|
            0 <= j < path.len() ==> b1.cell((#[trigger] path[j]).0, path[j].1) == Tile::Empty && b1.fresh(
                idx(b0.w(), path[j].0, path[j].1),
            ),
{
    assert forall|j: int| 0 <= j < path.len() implies b1.cell((#[trigger] path[j]).0, path[j].1)
        == Tile::Empty && b1.fresh(idx(b0.w(), path[j].0, path[j].1)) by {
        lemma_path_removed(b0, b1, x, y, path, j);
    }
}

proof fn lemma_path_removed(b0: Board, b1: Board, x: int, y: int, path: Seq<(int, int)>, j: int)
    requires
        b0.wf(),
        b1.wf(),
        b0.w() > 0,
        b0.h() > 0,
        b1.captured_around(&b0, x, y),
        0 <= j < path.len(),
        exists|k: int|
            0 <= k < adjacent(b0.w(), b0.h(), clamp(x, b0.w()), clamp(y, b0.h())).len()
                && #[trigger] adjacent(b0.w(), b0.h(), clamp(x, b0.w()), clamp(y, b0.h()))[k] == path[0]
                && b0.dead(idx(b0.w(), path[0].0, path[0].1)),
        forall|j: int|
            0 <= j < path.len() ==> in_bounds(b0.w(), b0.h(), (#[trigger] path[j]).0, path[j].1)
                && b0.cell(path[j].0, path[j].1) == b0.cell(path[0].0, path[0].1),
        forall|j: int| 0 <= j < path.len() - 1 ==> touches((#[trigger] path[j]).0, path[j].1, path[j + 1]),
    ensures
        b1.cell(path[j].0, path[j].1) == Tile::Empty,
        b1.fresh(idx(b0.w(), path[j].0, path[j].1)),
    decreases j,
{
    let (w, h) = (b0.w(), b0.h());
    let q = idx(w, path[j].0, path[j].1);
    lemma_idx(w, h, path[j].0, path[j].1);
    assert(b1.cells().len() == b0.cells().len());
    if j == 0 {
        let a = adjacent(w, h, clamp(x, w), clamp(y, h));
        let k = choose|k: int| 0 <= k < a.len() && #[trigger] a[k] == path[0] && b0.dead(idx(w, path[0].0, path[0].1));
        assert(b1.cells()[q] == Tile::Empty);
        assert(b1.cells()[q] != b0.cells()[q]);
    } else {
        lemma_path_removed(b0, b1, x, y, path, j - 1);
        let p = path[j - 1];
        let pi = idx(w, p.0, p.1);
        lemma_idx(w, h, p.0, p.1);
        assert(b0.cells()[pi] is Player);
        assert(changed(b0.cells(), b1.cells(), w, p.0, p.1));
        assert(closed(b1.cells(), w, h, p.0, p.1, b0.cell(p.0, p.1)));
        lemma_touching_is_adjacent(w, h, p, path[j]);
        let a = adjacent(w, h, p.0, p.1);
        let k = choose|k: int| 0 <= k < a.len() && #[trigger] a[k] == path[j];
        assert(b1.cells()[q] != b0.cell(p.0, p.1));
        assert(b1.cells()[q] != b0.cells()[q]);
    }
}

/// Rendering reads the tiles and nothing else, so two renders with no
/// proposal or commit in between give the same text.
pub proof fn lemma_render_is_stable(b1: Board, b2: Board)
    requires
        b1.cells() == b2.cells(),
    ensures
        b1.rendered() == b2.rendered(),
{
}

} // verus!

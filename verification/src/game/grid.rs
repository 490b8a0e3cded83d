//! The geometry of a square grid whose cells are numbered row by row, and
//! the connected sets of cells that pass a test.

use vstd::prelude::*;
use vstd::arithmetic::div_mod::{
    lemma_fundamental_div_mod, lemma_fundamental_div_mod_converse, lemma_mod_multiples_basic,
    lemma_small_mod,
};
use vstd::arithmetic::mul::lemma_mul_is_commutative;

verus! {

/// Cell `b` is directly left of, right of, above or below cell `a` on a grid
/// of `order` rows of `order` cells. Rows do not wrap around.
pub open spec fn adjacent(order: int, a: int, b: int) -> bool {
    &&& 0 <= a < order * order
    &&& 0 <= b < order * order
    &&& (b == a + order || a == b + order || (b == a + 1 && b % order != 0) || (a == b + 1 && a
        % order != 0))
}

/// The index of the cell in column `x` of row `y`.
pub open spec fn index_of(order: int, x: int, y: int) -> int {
    y * order + x
}

/// A cell of row `y` lies inside the grid, and divides back into `x` and `y`.
pub proof fn lemma_index_of(order: int, x: int, y: int)
    requires
        0 <= x < order,
        0 <= y < order,
    ensures
        0 <= index_of(order, x, y) < order * order,
        index_of(order, x, y) % order == x,
        index_of(order, x, y) / order == y,
{
    lemma_mul_is_commutative(y, order);
    lemma_fundamental_div_mod_converse(y * order + x, order, y, x);
    assert(y * order + x < order * order) by (nonlinear_arith)
        requires
            0 <= x < order,
            0 <= y < order,
    ;
    assert(0 <= y * order) by (nonlinear_arith)
        requires
            0 <= y,
            0 < order,
    ;
}

/// A cell inside the grid divides into a column and a row inside the grid.
pub proof fn lemma_index_split(order: int, i: int)
    requires
        0 <= order,
        0 <= i < order * order,
    ensures
        0 < order,
        0 <= i % order < order,
        0 <= i / order < order,
        index_of(order, i % order, i / order) == i,
{
    lemma_fundamental_div_mod(i, order);
    lemma_mul_is_commutative(i / order, order);
    assert(0 <= i / order < order) by (nonlinear_arith)
        requires
            0 <= i < order * order,
            0 < order,
            i == order * (i / order) + i % order,
            0 <= i % order < order,
    ;
}

/// `p` is a walk over the grid: it is not empty, each of its cells passes the
/// mask, and each cell is adjacent to the one before it.
pub open spec fn is_path(mask: Seq<bool>, order: int, p: Seq<int>) -> bool {
    &&& p.len() > 0
    &&& forall|k: int| 0 <= k < p.len() ==> 0 <= #[trigger] p[k] < mask.len() && mask[p[k]]
    &&& forall|k: int| 0 <= k < p.len() - 1 ==> adjacent(order, #[trigger] p[k], p[k + 1])
}

/// Some walk over cells that pass the mask leads from `a` to `b`.
pub open spec fn connected(mask: Seq<bool>, order: int, a: int, b: int) -> bool {
    exists|p: Seq<int>| #[trigger] is_path(mask, order, p) && p[0] == a && p.last() == b
}

/// The cells that can be reached from `a` over cells that pass the mask:
/// the region of `a`. It is empty when `a` itself does not pass.
pub open spec fn component(mask: Seq<bool>, order: int, a: int) -> Set<int> {
    Set::new(|b: int| connected(mask, order, a, b))
}

/// Cell `b` lies next to cell `c` of the region of `a`.
pub open spec fn touches(mask: Seq<bool>, order: int, a: int, c: int, b: int) -> bool {
    connected(mask, order, a, c) && adjacent(order, c, b)
}

/// The cells outside the region of `a` that lie next to one of its cells.
pub open spec fn border(mask: Seq<bool>, order: int, a: int) -> Set<int> {
    Set::new(
        |b: int|
            0 <= b < mask.len() && !mask[b] && exists|c: int|
                #[trigger] touches(mask, order, a, c, b),
    )
}

/// The mask of the cells that hold `value`.
pub open spec fn value_mask<T>(cells: Seq<T>, value: T) -> Seq<bool> {
    Seq::new(cells.len(), |i: int| cells[i] == value)
}

/// Both ends of a walk pass the mask.
pub proof fn lemma_connected_ends(mask: Seq<bool>, order: int, a: int, b: int)
    requires
        connected(mask, order, a, b),
    ensures
        0 <= a < mask.len(),
        0 <= b < mask.len(),
        mask[a],
        mask[b],
{
    let p = choose|p: Seq<int>| #[trigger] is_path(mask, order, p) && p[0] == a && p.last() == b;
    assert(0 <= p[0] < mask.len() && mask[p[0]]);
    assert(0 <= p[p.len() - 1] < mask.len() && mask[p[p.len() - 1]]);
}

/// A cell that passes the mask is connected to itself.
pub proof fn lemma_connected_refl(mask: Seq<bool>, order: int, a: int)
    requires
        0 <= a < mask.len(),
        mask[a],
    ensures
        connected(mask, order, a, a),
{
    let p = seq![a];
    assert(is_path(mask, order, p));
    assert(p[0] == a && p.last() == a);
}

/// A walk can be carried on by one step to an adjacent cell that passes.
pub proof fn lemma_connected_step(mask: Seq<bool>, order: int, a: int, c: int, b: int)
    requires
        connected(mask, order, a, c),
        adjacent(order, c, b),
        0 <= b < mask.len(),
        mask[b],
    ensures
        connected(mask, order, a, b),
{
    let p = choose|p: Seq<int>| #[trigger] is_path(mask, order, p) && p[0] == a && p.last() == c;
    let q = p.push(b);
    assert forall|k: int| 0 <= k < q.len() implies 0 <= #[trigger] q[k] < mask.len()
        && mask[q[k]] by {
        if k < p.len() {
            assert(q[k] == p[k]);
        }
    }
    assert forall|k: int| 0 <= k < q.len() - 1 implies adjacent(order, #[trigger] q[k], q[k + 1]) by {
        if k < p.len() - 1 {
            assert(q[k] == p[k] && q[k + 1] == p[k + 1]);
        } else {
            assert(q[k] == c && q[k + 1] == b);
        }
    }
    assert(is_path(mask, order, q));
    assert(q[0] == p[0] && q.last() == b);
}

/// A walk can be walked backwards.
pub proof fn lemma_connected_sym(mask: Seq<bool>, order: int, a: int, b: int)
    requires
        connected(mask, order, a, b),
    ensures
        connected(mask, order, b, a),
{
    let p = choose|p: Seq<int>| #[trigger] is_path(mask, order, p) && p[0] == a && p.last() == b;
    let n = p.len() as int;
    let q = Seq::new(p.len(), |k: int| p[n - 1 - k]);
    assert forall|k: int| 0 <= k < q.len() implies 0 <= #[trigger] q[k] < mask.len()
        && mask[q[k]] by {
        assert(q[k] == p[n - 1 - k]);
    }
    assert forall|k: int| 0 <= k < q.len() - 1 implies adjacent(order, #[trigger] q[k], q[k + 1]) by {
        let j = n - 2 - k;
        assert(q[k] == p[j + 1] && q[k + 1] == p[j]);
        assert(adjacent(order, p[j], p[j + 1]));
    }
    assert(is_path(mask, order, q));
    assert(q[0] == b && q.last() == a);
}

/// Two walks that meet make one walk.
pub proof fn lemma_connected_trans(mask: Seq<bool>, order: int, a: int, b: int, c: int)
    requires
        connected(mask, order, a, b),
        connected(mask, order, b, c),
    ensures
        connected(mask, order, a, c),
{
    let p = choose|p: Seq<int>| #[trigger] is_path(mask, order, p) && p[0] == a && p.last() == b;
    let r = choose|r: Seq<int>| #[trigger] is_path(mask, order, r) && r[0] == b && r.last() == c;
    let n = p.len() as int;
    let q = p.drop_last() + r;
    assert forall|k: int| 0 <= k < q.len() implies 0 <= #[trigger] q[k] < mask.len()
        && mask[q[k]] by {
        if k < n - 1 {
            assert(q[k] == p[k]);
        } else {
            assert(q[k] == r[k - (n - 1)]);
        }
    }
    assert forall|k: int| 0 <= k < q.len() - 1 implies adjacent(order, #[trigger] q[k], q[k + 1]) by {
        if k < n - 2 {
            assert(q[k] == p[k] && q[k + 1] == p[k + 1]);
        } else if k == n - 2 {
            assert(q[k] == p[k] && q[k + 1] == r[0]);
            assert(r[0] == p[k + 1]);
        } else {
            let j = k - (n - 1);
            assert(q[k] == r[j] && q[k + 1] == r[j + 1]);
        }
    }
    assert(is_path(mask, order, q));
    assert(q[0] == a) by {
        if n == 1 {
            assert(q[0] == r[0]);
        } else {
            assert(q[0] == p[0]);
        }
    }
    assert(q.last() == r.last());
}

/// Two cells of one region have the same region.
pub proof fn lemma_component_shared(mask: Seq<bool>, order: int, a: int, b: int)
    requires
        connected(mask, order, a, b),
    ensures
        component(mask, order, a) == component(mask, order, b),
        border(mask, order, a) == border(mask, order, b),
{
    lemma_connected_sym(mask, order, a, b);
    assert forall|x: int| connected(mask, order, a, x) <==> connected(mask, order, b, x) by {
        if connected(mask, order, a, x) {
            lemma_connected_trans(mask, order, b, a, x);
        }
        if connected(mask, order, b, x) {
            lemma_connected_trans(mask, order, a, b, x);
        }
    }
    assert(component(mask, order, a) =~= component(mask, order, b));
    assert forall|x: int| border(mask, order, a).contains(x) <==> border(mask, order, b).contains(
        x,
    ) by {
        if border(mask, order, a).contains(x) {
            let c = choose|c: int| #[trigger] touches(mask, order, a, c, x);
            assert(touches(mask, order, b, c, x));
        }
        if border(mask, order, b).contains(x) {
            let c = choose|c: int| #[trigger] touches(mask, order, b, c, x);
            assert(touches(mask, order, a, c, x));
        }
    }
    assert(border(mask, order, a) =~= border(mask, order, b));
}

/// Every cell of a walk from `a` is connected to `a`.
pub proof fn lemma_path_prefix(mask: Seq<bool>, order: int, p: Seq<int>, k: int)
    requires
        is_path(mask, order, p),
        0 <= k < p.len(),
    ensures
        connected(mask, order, p[0], p[k]),
{
    let q = p.subrange(0, k + 1);
    assert forall|j: int| 0 <= j < q.len() implies 0 <= #[trigger] q[j] < mask.len()
        && mask[q[j]] by {
        assert(q[j] == p[j]);
    }
    assert forall|j: int| 0 <= j < q.len() - 1 implies adjacent(order, #[trigger] q[j], q[j + 1]) by {
        assert(q[j] == p[j] && q[j + 1] == p[j + 1]);
    }
    assert(is_path(mask, order, q));
    assert(q[0] == p[0] && q.last() == p[k]);
}

/// A set that holds `a` and, with each of its cells, the adjacent cells that
/// pass the mask, holds the whole region of `a`.
pub proof fn lemma_closed_set_holds_component(mask: Seq<bool>, order: int, a: int, s: Set<int>)
    requires
        s.contains(a),
        forall|c: int, j: int|
            s.contains(c) && #[trigger] adjacent(order, c, j) && 0 <= j < mask.len() && mask[j]
                ==> s.contains(j),
    ensures
        forall|b: int| connected(mask, order, a, b) ==> s.contains(b),
{
    assert forall|b: int| connected(mask, order, a, b) implies s.contains(b) by {
        let p = choose|p: Seq<int>| #[trigger]
            is_path(mask, order, p) && p[0] == a && p.last() == b;
        lemma_closed_set_holds_path(mask, order, p, s, p.len() - 1);
    }
}

/// The step of the proof above: by induction along the walk.
proof fn lemma_closed_set_holds_path(mask: Seq<bool>, order: int, p: Seq<int>, s: Set<int>, k: int)
    requires
        is_path(mask, order, p),
        0 <= k < p.len(),
        s.contains(p[0]),
        forall|c: int, j: int|
            s.contains(c) && #[trigger] adjacent(order, c, j) && 0 <= j < mask.len() && mask[j]
                ==> s.contains(j),
    ensures
        s.contains(p[k]),
    decreases k,
{
    if k > 0 {
        lemma_closed_set_holds_path(mask, order, p, s, k - 1);
        assert(adjacent(order, p[k - 1], p[k - 1 + 1]));
        assert(0 <= p[k] < mask.len() && mask[p[k]]);
    }
}

/// The cell left of cell `i`, unless `i` starts a row.
pub open spec fn left_of(order: int, i: int) -> Option<int> {
    if i % order > 0 {
        Some(i - 1)
    } else {
        None
    }
}

/// The cell right of cell `i`, unless `i` ends a row.
pub open spec fn right_of(order: int, i: int) -> Option<int> {
    if (i + 1) % order > 0 {
        Some(i + 1)
    } else {
        None
    }
}

/// The cell one row below cell `i`, unless `i` is in the first row.
pub open spec fn below(order: int, i: int) -> Option<int> {
    if i >= order {
        Some(i - order)
    } else {
        None
    }
}

/// The cell one row above cell `i`, unless `i` is in the last row.
pub open spec fn above(order: int, i: int) -> Option<int> {
    if i + order < order * order {
        Some(i + order)
    } else {
        None
    }
}

/// An optional cell as a list of no cell or one.
pub open spec fn listed(cell: Option<int>) -> Seq<int> {
    match cell {
        Some(i) => seq![i],
        None => Seq::empty(),
    }
}

/// The cells next to cell `i`: left, below, right, above, those that exist.
pub open spec fn neighbors(order: int, i: int) -> Seq<int> {
    listed(left_of(order, i)) + listed(below(order, i)) + listed(right_of(order, i)) + listed(
        above(order, i),
    )
}

/// The neighbours of a cell of the grid are the cells adjacent to it, each
/// listed once.
pub proof fn lemma_neighbors(order: int, i: int)
    requires
        0 <= i < order * order,
        0 < order,
    ensures
        forall|j: int| adjacent(order, i, j) <==> neighbors(order, i).contains(j),
        neighbors(order, i).no_duplicates(),
        neighbors(order, i).len() <= 4,
{
    lemma_mod_multiples_basic(order, order);
    lemma_small_mod(0, order as nat);
    assert(0int % order == 0);
    assert((order * order) % order == 0);
    let l = listed(left_of(order, i));
    let b = listed(below(order, i));
    let r = listed(right_of(order, i));
    let a = listed(above(order, i));
    let n = neighbors(order, i);
    assert(n.len() == l.len() + b.len() + r.len() + a.len());
    assert forall|j: int| adjacent(order, i, j) implies n.contains(j) by {
        if i == j + 1 && i % order != 0 {
            assert(l[0] == j);
            assert(n[0] == j);
        } else if i == j + order {
            assert(b[0] == j);
            assert(n[l.len() as int] == j);
        } else if j == i + 1 && j % order != 0 {
            assert(r[0] == j);
            assert(n[(l.len() + b.len()) as int] == j);
        } else {
            assert(j == i + order);
            assert(a[0] == j);
            assert(n[(l.len() + b.len() + r.len()) as int] == j);
        }
    }
    assert forall|j: int| n.contains(j) implies adjacent(order, i, j) by {
        let k = choose|k: int| 0 <= k < n.len() && n[k] == j;
        if k < l.len() {
            assert(n[k] == l[k]);
            assert(j == i - 1 && i % order > 0);
            assert(i != 0);
        } else if k < l.len() + b.len() {
            assert(n[k] == b[k - l.len()]);
            assert(j == i - order);
        } else if k < l.len() + b.len() + r.len() {
            assert(n[k] == r[k - l.len() - b.len()]);
            assert(j == i + 1 && j % order > 0);
            assert(i + 1 != order * order);
        } else {
            assert(n[k] == a[k - l.len() - b.len() - r.len()]);
            assert(j == i + order);
        }
    }
    assert forall|k1: int, k2: int| 0 <= k1 < n.len() && 0 <= k2 < n.len() && k1 != k2 implies n[k1]
        != n[k2] by {
        lemma_neighbor_at(order, i, k1);
        lemma_neighbor_at(order, i, k2);
    }
}

/// The place of a neighbour in the list tells which neighbour it is.
proof fn lemma_neighbor_at(order: int, i: int, k: int)
    requires
        0 < order,
        0 <= k < neighbors(order, i).len(),
    ensures
        ({
            let l = listed(left_of(order, i)).len();
            let b = listed(below(order, i)).len();
            let r = listed(right_of(order, i)).len();
            let n = neighbors(order, i);
            if k < l {
                n[k] == i - 1
            } else if k < l + b {
                n[k] == i - order
            } else if k < l + b + r {
                n[k] == i + 1
            } else {
                n[k] == i + order
            }
        }),
{
    let l = listed(left_of(order, i));
    let b = listed(below(order, i));
    let r = listed(right_of(order, i));
    let a = listed(above(order, i));
    let n = neighbors(order, i);
    if k < l.len() {
        assert(n[k] == l[k]);
    } else if k < l.len() + b.len() {
        assert(n[k] == b[k - l.len()]);
    } else if k < l.len() + b.len() + r.len() {
        assert(n[k] == r[k - l.len() - b.len()]);
    } else {
        assert(n[k] == a[k - l.len() - b.len() - r.len()]);
    }
}

/// A walk stays a walk under another mask that all of its cells pass.
pub proof fn lemma_path_transfer(from: Seq<bool>, to: Seq<bool>, order: int, p: Seq<int>)
    requires
        is_path(from, order, p),
        to.len() == from.len(),
        forall|k: int| 0 <= k < p.len() ==> to[#[trigger] p[k]],
    ensures
        is_path(to, order, p),
{
}

/// Cells that are connected stay connected when more cells pass the mask.
pub proof fn lemma_connected_mono(from: Seq<bool>, to: Seq<bool>, order: int, a: int, b: int)
    requires
        connected(from, order, a, b),
        to.len() == from.len(),
        forall|i: int| 0 <= i < from.len() && from[i] ==> #[trigger] to[i],
    ensures
        connected(to, order, a, b),
{
    let p = choose|p: Seq<int>| #[trigger] is_path(from, order, p) && p[0] == a && p.last() == b;
    assert forall|k: int| 0 <= k < p.len() implies to[#[trigger] p[k]] by {
        assert(from[p[k]]);
    }
    lemma_path_transfer(from, to, order, p);
}

/// Taking a cell out of the mask leaves a region that did not hold the cell
/// as it was, and its border too.
pub proof fn lemma_mask_shrink(mask: Seq<bool>, order: int, x: int, s: int)
    requires
        0 <= x < mask.len(),
        mask[x],
        !connected(mask, order, s, x),
    ensures
        component(mask.update(x, false), order, s) == component(mask, order, s),
        border(mask.update(x, false), order, s) == border(mask, order, s),
{
    let less = mask.update(x, false);
    assert forall|b: int| connected(less, order, s, b) <==> connected(mask, order, s, b) by {
        if connected(less, order, s, b) {
            lemma_connected_mono(less, mask, order, s, b);
        }
        if connected(mask, order, s, b) {
            let p = choose|p: Seq<int>| #[trigger]
                is_path(mask, order, p) && p[0] == s && p.last() == b;
            assert forall|k: int| 0 <= k < p.len() implies less[#[trigger] p[k]] by {
                lemma_path_prefix(mask, order, p, k);
            }
            lemma_path_transfer(mask, less, order, p);
        }
    }
    assert(component(less, order, s) =~= component(mask, order, s));
    assert forall|b: int| border(less, order, s).contains(b) <==> border(mask, order, s).contains(
        b,
    ) by {
        if border(less, order, s).contains(b) {
            let c = choose|c: int| #[trigger] touches(less, order, s, c, b);
            assert(touches(mask, order, s, c, b));
            if b == x {
                lemma_connected_step(mask, order, s, c, x);
            }
        }
        if border(mask, order, s).contains(b) {
            let c = choose|c: int| #[trigger] touches(mask, order, s, c, b);
            assert(touches(less, order, s, c, b));
        }
    }
    assert(border(less, order, s) =~= border(mask, order, s));
}

/// Along a walk from `p[0]` under the grown mask, no cell is the new cell,
/// and each is connected to `p[0]` under the mask as it was.
proof fn lemma_grow_path(mask: Seq<bool>, order: int, x: int, p: Seq<int>, k: int)
    requires
        0 <= x < mask.len(),
        !mask[x],
        is_path(mask.update(x, true), order, p),
        p[0] != x,
        forall|j: int| #[trigger] adjacent(order, x, j) ==> !connected(mask, order, p[0], j),
        0 <= k < p.len(),
    ensures
        p[k] != x,
        connected(mask, order, p[0], p[k]),
    decreases k,
{
    let more = mask.update(x, true);
    if k == 0 {
        assert(more[p[0]]);
        lemma_connected_refl(mask, order, p[0]);
    } else {
        lemma_grow_path(mask, order, x, p, k - 1);
        assert(adjacent(order, p[k - 1], p[k - 1 + 1]));
        if p[k] == x {
            assert(adjacent(order, x, p[k - 1]));
        }
        assert(more[p[k]]);
        lemma_connected_step(mask, order, p[0], p[k - 1], p[k]);
    }
}

/// Putting a cell into the mask leaves a region that did not touch the cell
/// as it was, and its border too.
pub proof fn lemma_mask_grow(mask: Seq<bool>, order: int, x: int, s: int)
    requires
        0 <= x < mask.len(),
        !mask[x],
        s != x,
        forall|j: int| #[trigger] adjacent(order, x, j) ==> !connected(mask, order, s, j),
    ensures
        component(mask.update(x, true), order, s) == component(mask, order, s),
        border(mask.update(x, true), order, s) == border(mask, order, s),
{
    let more = mask.update(x, true);
    assert forall|b: int| connected(more, order, s, b) implies connected(mask, order, s, b) by {
        let p = choose|p: Seq<int>| #[trigger]
            is_path(more, order, p) && p[0] == s && p.last() == b;
        lemma_grow_path(mask, order, x, p, p.len() - 1);
    }
    assert forall|b: int| connected(mask, order, s, b) implies connected(more, order, s, b) by {
        lemma_connected_mono(mask, more, order, s, b);
    }
    assert(component(more, order, s) =~= component(mask, order, s));
    assert forall|b: int| border(more, order, s).contains(b) <==> border(mask, order, s).contains(
        b,
    ) by {
        if border(more, order, s).contains(b) {
            let c = choose|c: int| #[trigger] touches(more, order, s, c, b);
            assert(touches(mask, order, s, c, b));
        }
        if border(mask, order, s).contains(b) {
            let c = choose|c: int| #[trigger] touches(mask, order, s, c, b);
            assert(touches(more, order, s, c, b));
            if b == x {
                assert(adjacent(order, x, c));
            }
        }
    }
    assert(border(more, order, s) =~= border(mask, order, s));
}

/// A walk from a cell that leaves the mask ends at a cell that, without the
/// first cell, is still connected to one of the first cell's neighbours.
proof fn lemma_escape_path(mask: Seq<bool>, order: int, p: Seq<int>) -> (j: int)
    requires
        is_path(mask, order, p),
        p.last() != p[0],
    ensures
        adjacent(order, p[0], j),
        connected(mask.update(p[0], false), order, j, p.last()),
    decreases p.len(),
{
    let x = p[0];
    let less = mask.update(x, false);
    let n = p.len() as int;
    if exists|k: int| 0 < k < n && p[k] == x {
        let k = choose|k: int| 0 < k < n && p[k] == x;
        let q = p.subrange(k, n);
        assert forall|l: int| 0 <= l < q.len() implies 0 <= #[trigger] q[l] < mask.len()
            && mask[q[l]] by {
            assert(q[l] == p[k + l]);
        }
        assert forall|l: int| 0 <= l < q.len() - 1 implies adjacent(
            order,
            #[trigger] q[l],
            q[l + 1],
        ) by {
            assert(q[l] == p[k + l] && q[l + 1] == p[k + l + 1]);
        }
        assert(q[0] == x && q.last() == p.last());
        lemma_escape_path(mask, order, q)
    } else {
        let q = p.subrange(1, n);
        assert forall|l: int| 0 <= l < q.len() implies 0 <= #[trigger] q[l] < less.len()
            && less[q[l]] by {
            assert(q[l] == p[1 + l]);
        }
        assert forall|l: int| 0 <= l < q.len() - 1 implies adjacent(
            order,
            #[trigger] q[l],
            q[l + 1],
        ) by {
            assert(q[l] == p[1 + l] && q[l + 1] == p[1 + l + 1]);
        }
        assert(is_path(less, order, q));
        assert(q[0] == p[1] && q.last() == p.last());
        assert(adjacent(order, p[0], p[0int + 1]));
        p[1]
    }
}

/// When a cell leaves the mask, every other cell of its region is still
/// connected to one of its neighbours.
pub proof fn lemma_split_cover(mask: Seq<bool>, order: int, x: int, b: int) -> (j: int)
    requires
        connected(mask, order, x, b),
        b != x,
    ensures
        adjacent(order, x, j),
        connected(mask.update(x, false), order, j, b),
{
    let p = choose|p: Seq<int>| #[trigger] is_path(mask, order, p) && p[0] == x && p.last() == b;
    lemma_escape_path(mask, order, p)
}

/// When a cell enters the mask, the regions of its neighbours become part of
/// its region.
pub proof fn lemma_merge_cover(mask: Seq<bool>, order: int, x: int, j: int, b: int)
    requires
        0 <= x < mask.len(),
        adjacent(order, x, j),
        connected(mask, order, j, b),
    ensures
        connected(mask.update(x, true), order, x, b),
{
    let more = mask.update(x, true);
    lemma_connected_ends(mask, order, j, b);
    lemma_connected_mono(mask, more, order, j, b);
    lemma_connected_refl(more, order, x);
    lemma_connected_step(more, order, x, x, j);
    lemma_connected_trans(more, order, x, j, b);
}

/// On a grid where every cell passes the mask, every cell is connected to
/// the first one.
pub proof fn lemma_full_grid(mask: Seq<bool>, order: int, i: int)
    requires
        0 < order,
        mask.len() == order * order,
        forall|k: int| 0 <= k < mask.len() ==> mask[k],
        0 <= i < mask.len(),
    ensures
        connected(mask, order, 0, i),
    decreases i,
{
    if i == 0 {
        lemma_connected_refl(mask, order, 0);
    } else if i % order != 0 {
        lemma_full_grid(mask, order, i - 1);
        lemma_connected_step(mask, order, 0, i - 1, i);
    } else {
        assert(i >= order) by {
            if i < order {
                lemma_small_mod(i as nat, order as nat);
            }
        }
        lemma_full_grid(mask, order, i - order);
        lemma_connected_step(mask, order, 0, i - order, i);
    }
}

} // verus!

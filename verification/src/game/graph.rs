//! A square matrix together with the regions of its cells: the largest
//! connected sets of cells that hold the same value.

use vstd::prelude::*;
use crate::game::error::Error;
use crate::game::grid::{
    adjacent, component, connected, lemma_connected_ends, lemma_connected_refl, lemma_connected_sym,
    lemma_connected_trans, lemma_mask_grow, lemma_mask_shrink, lemma_merge_cover,
    lemma_neighbors, lemma_split_cover, neighbors, value_mask,
};
use crate::game::matrix::{on_board, vertex_index, CellValue, Matrix};
use crate::game::region::{
    grow_region, lemma_member_push, member, pass_mask, region_of, Node, Region,
};
use crate::game::regions::{
    all_track, apart, by_value, covered, has_entry, holds, last_of_value, least_first, lemma_blank_partitions,
    lemma_grown_region, lemma_one_region, lemma_region_cells, lemma_same_lists,
    lemma_same_regions, lemma_tied_covered, partitions, scanned, seed, shifted, shifts, found_in,
    tracks,
};
use crate::game::vertex::Vertex;

verus! {

/// A generic structure that contains a square matrix and tracks all of the regions of cells that
/// are adjacent and contain the same value.
#[derive(Debug)]
pub struct Graph<T> {
    matrix: Matrix<T>,
    blocks: Vec<Region>,
}

impl<T> View for Graph<T> {
    type V = Seq<T>;

    /// The cells of the matrix, row by row from the bottom row up.
    closed spec fn view(&self) -> Seq<T> {
        self.matrix@
    }
}

/// The cell `x` is connected, over cells of its own value, to the cell
/// `node` or to one of the neighbours of `node`.
spec fn tied<T>(cells: Seq<T>, order: int, node: int, x: int) -> bool {
    exists|j: int| #[trigger] tied_by(cells, order, node, j, x)
}

/// The cell `j` is `node` or next to it, and connected to `x`.
spec fn tied_by<T>(cells: Seq<T>, order: int, node: int, j: int, x: int) -> bool {
    &&& 0 <= j < cells.len()
    &&& j == node || adjacent(order, node, j)
    &&& connected(value_mask(cells, cells[j]), order, j, x)
}

/// A region that a change of the cell `node` to `value` leaves as it is: it
/// does not hold the cell, nor, if it has the new value, one of its
/// neighbours.
spec fn kept<T>(cells: Seq<T>, order: int, node: int, value: T, region: Region) -> bool {
    &&& !member(region.node_seq(), node)
    &&& cells[seed(region)] == value ==> forall|j: int| #[trigger]
        adjacent(order, node, j) ==> !member(region.node_seq(), j)
}

/// A region that the change leaves as it is, is a region of the new cells.
proof fn lemma_kept_tracks<T>(cells: Seq<T>, order: int, node: int, value: T, region: Region)
    requires
        0 <= node < cells.len(),
        cells[node] != value,
        tracks(cells, order, region),
        kept(cells, order, node, value, region),
    ensures
        tracks(cells.update(node, value), order, region),
{
    let after = cells.update(node, value);
    let s = seed(region);
    assert(region.node_seq()[0] == s);
    assert(member(region.node_seq(), s));
    assert(s != node);
    let w = cells[s];
    let m0 = value_mask(cells, w);
    let m1 = value_mask(after, w);
    assert(region.node_set() == component(m0, order, s));
    if w == cells[node] {
        assert(m1 =~= m0.update(node, false));
        assert(!connected(m0, order, s, node)) by {
            if connected(m0, order, s, node) {
                assert(component(m0, order, s).contains(node));
                assert(region.node_set().contains(node));
            }
        }
        lemma_mask_shrink(m0, order, node, s);
    } else if w == value {
        assert(m1 =~= m0.update(node, true));
        assert forall|j: int| #[trigger] adjacent(order, node, j) implies !connected(
            m0,
            order,
            s,
            j,
        ) by {
            if connected(m0, order, s, j) {
                assert(component(m0, order, s).contains(j));
                assert(region.node_set().contains(j));
            }
        }
        lemma_mask_grow(m0, order, node, s);
    } else {
        assert(m1 =~= m0);
    }
}

/// The cells of a region that the change does not leave as it is are tied
/// to the changed cell.
proof fn lemma_dropped_tied<T>(
    cells: Seq<T>,
    order: int,
    node: int,
    value: T,
    region: Region,
    x: int,
)
    requires
        0 <= node < cells.len(),
        cells[node] != value,
        tracks(cells, order, region),
        !kept(cells, order, node, value, region),
        member(region.node_seq(), x),
    ensures
        tied(cells.update(node, value), order, node, x),
{
    let after = cells.update(node, value);
    let s = seed(region);
    let w = cells[s];
    let m0 = value_mask(cells, w);
    assert(region.node_set() == component(m0, order, s));
    assert(region.node_set().contains(x));
    assert(connected(m0, order, s, x));
    lemma_connected_ends(m0, order, s, x);
    if member(region.node_seq(), node) {
        assert(region.node_set().contains(node));
        assert(connected(m0, order, s, node));
        lemma_connected_ends(m0, order, s, node);
        assert(w == cells[node]);
        lemma_connected_sym(m0, order, s, node);
        lemma_connected_trans(m0, order, node, s, x);
        if x == node {
            lemma_connected_refl(value_mask(after, after[node]), order, node);
            assert(tied_by(after, order, node, node, x));
        } else {
            let j = lemma_split_cover(m0, order, node, x);
            let m1 = m0.update(node, false);
            lemma_connected_ends(m1, order, j, x);
            assert(after[j] == w);
            assert(value_mask(after, after[j]) =~= m1);
            assert(tied_by(after, order, node, j, x));
        }
    } else {
        let j = choose|j: int| #[trigger] adjacent(order, node, j) && member(region.node_seq(), j);
        assert(region.node_set().contains(j));
        assert(connected(m0, order, s, j));
        lemma_connected_sym(m0, order, s, j);
        lemma_connected_trans(m0, order, j, s, x);
        lemma_merge_cover(m0, order, node, j, x);
        assert(value_mask(after, after[node]) =~= m0.update(node, true));
        assert(tied_by(after, order, node, node, x));
    }
}

/// A region grown from a cell that no region holds is none of the regions.
proof fn lemma_new_region_apart<T>(
    cells: Seq<T>,
    order: int,
    regions: Seq<Region>,
    region: Region,
)
    requires
        all_track(cells, order, regions),
        apart(regions),
        tracks(cells, order, region),
        !covered(regions, seed(region)),
    ensures
        apart(regions.push(region)),
        all_track(cells, order, regions.push(region)),
{
    let longer = regions.push(region);
    let n = regions.len() as int;
    assert forall|i: int, j: int|
        0 <= i < longer.len() && 0 <= j < longer.len() && i != j implies !#[trigger] holds(
        longer,
        j,
        seed(longer[i]),
    ) by {
        if i < n && j < n {
            assert(longer[i] == regions[i] && longer[j] == regions[j]);
            assert(!holds(regions, j, seed(regions[i])));
        } else if i == n {
            assert(longer[j] == regions[j]);
            assert(!holds(regions, j, seed(region)));
        } else {
            assert(longer[i] == regions[i]);
            let s = seed(regions[i]);
            if member(region.node_seq(), s) {
                let t = seed(region);
                let m = value_mask(cells, cells[t]);
                assert(region.node_set().contains(s));
                assert(connected(m, order, t, s));
                lemma_connected_ends(m, order, t, s);
                lemma_connected_sym(m, order, t, s);
                assert(tracks(cells, order, regions[i]));
                assert(regions[i].node_seq()[0] == s);
                assert(member(regions[i].node_seq(), s));
                assert(cells[s] == cells[t]);
                lemma_tied_covered(cells, order, regions[i], s, t);
                assert(holds(regions, i, t));
            }
        }
    }
    assert forall|i: int| 0 <= i < longer.len() implies tracks(cells, order, #[trigger] longer[i]) by {
        if i < n {
            assert(longer[i] == regions[i]);
        }
    }
}

/// The index of a region that holds the cell, if there is one.
fn find_block(blocks: &Vec<Region>, x: usize) -> (r: Option<usize>)
    ensures
        r matches Some(i) ==> holds(blocks@, i as int, x as int),
        r is None ==> !covered(blocks@, x as int),
{
    let mut i: usize = 0;
    while i < blocks.len()
        invariant
            i <= blocks@.len(),
            forall|k: int| 0 <= k < i ==> !holds(blocks@, k, x as int),
        decreases blocks@.len() - i,
    {
        if blocks[i].contains(Node(x)) {
            return Some(i);
        }
        i += 1;
    }
    None
}

/// Whether the region holds one of the listed cells.
fn holds_any(region: &Region, list: &Vec<usize>) -> (r: bool)
    ensures
        r == exists|k: int| 0 <= k < list@.len() && member(region.node_seq(), #[trigger] list@[k] as int),
{
    let mut k: usize = 0;
    while k < list.len()
        invariant
            k <= list@.len(),
            forall|l: int| 0 <= l < k ==> !member(region.node_seq(), #[trigger] list@[l] as int),
        decreases list@.len() - k,
    {
        if region.contains(Node(list[k])) {
            return true;
        }
        k += 1;
    }
    false
}

/// Takes out of the list the regions that a change of the cell `node` to
/// `value` does not leave as they are. `matrix` holds the cells after the
/// change, `before` those before it.
fn drop_stale<T: CellValue>(
    matrix: &Matrix<T>,
    blocks: &mut Vec<Region>,
    node: usize,
    around: &Vec<usize>,
    value: T,
    Ghost(before): Ghost<Seq<T>>,
)
    requires
        matrix.wf(),
        0 < matrix.spec_order(),
        node < before.len(),
        before[node as int] != value,
        matrix@ == before.update(node as int, value),
        partitions(before, matrix.spec_order() as int, old(blocks)@),
        around@.map_values(|i: usize| i as int) == neighbors(
            matrix.spec_order() as int,
            node as int,
        ),
    ensures
        all_track(matrix@, matrix.spec_order() as int, final(blocks)@),
        apart(final(blocks)@),
        forall|x: int|
            0 <= x < before.len() ==> covered(final(blocks)@, x) || tied(
                matrix@,
                matrix.spec_order() as int,
                node as int,
                x,
            ),
{
    let ghost order = matrix.spec_order() as int;
    let ghost at = node as int;
    let ghost near = neighbors(order, at);
    proof {
        lemma_neighbors(order, at);
    }
    let mut i: usize = 0;
    while i < blocks.len()
        invariant
            matrix.wf(),
            0 < order == matrix.spec_order(),
            0 <= at == node < before.len(),
            before[at] != value,
            matrix@ == before.update(at, value),
            near == neighbors(order, at),
            around@.map_values(|i: usize| i as int) == near,
            forall|j: int| adjacent(order, at, j) <==> near.contains(j),
            i <= blocks@.len(),
            all_track(before, order, blocks@),
            apart(blocks@),
            forall|k: int| 0 <= k < i ==> kept(before, order, at, value, #[trigger] blocks@[k]),
            forall|x: int|
                0 <= x < before.len() ==> covered(blocks@, x) || tied(matrix@, order, at, x),
        decreases blocks@.len() - i,
    {
        let ghost region = blocks@[i as int];
        assert(tracks(before, order, region));
        let first = blocks[i].node_at(0);
        let mut stale = blocks[i].contains(Node(node));
        if !stale && matrix.value_at(first).same(&value) {
            stale = holds_any(&blocks[i], around);
            proof {
                if stale {
                    let k = choose|k: int|
                        0 <= k < around@.len() && member(region.node_seq(), #[trigger] around@[k] as int);
                    assert(near[k] == around@[k] as int);
                    assert(near.contains(around@[k] as int));
                    assert(adjacent(order, at, around@[k] as int));
                } else {
                    assert forall|j: int| #[trigger] adjacent(order, at, j) implies !member(
                        region.node_seq(),
                        j,
                    ) by {
                        assert(near.contains(j));
                        let k = choose|k: int| 0 <= k < near.len() && near[k] == j;
                        assert(around@[k] as int == j);
                    }
                }
            }
        }
        proof {
            assert(member(region.node_seq(), first as int));
            if !member(region.node_seq(), at) {
                assert(first != node);
                assert(matrix@[first as int] == before[first as int]);
            }
            assert(stale == !kept(before, order, at, value, region));
        }
        if stale {
            let ghost blocks0 = blocks@;
            blocks.remove(i);
            proof {
                assert forall|k: int| 0 <= k < blocks@.len() implies tracks(
                    before,
                    order,
                    #[trigger] blocks@[k],
                ) by {
                    if k < i {
                        assert(blocks@[k] == blocks0[k]);
                    } else {
                        assert(blocks@[k] == blocks0[k + 1]);
                    }
                }
                assert forall|k: int, l: int|
                    0 <= k < blocks@.len() && 0 <= l < blocks@.len() && k != l implies !#[trigger] holds(
                    blocks@,
                    l,
                    seed(blocks@[k]),
                ) by {
                    let k0 = if k < i { k } else { k + 1 };
                    let l0 = if l < i { l } else { l + 1 };
                    assert(blocks@[k] == blocks0[k0] && blocks@[l] == blocks0[l0]);
                    assert(!holds(blocks0, l0, seed(blocks0[k0])));
                }
                assert forall|k: int| 0 <= k < i implies kept(
                    before,
                    order,
                    at,
                    value,
                    #[trigger] blocks@[k],
                ) by {
                    assert(blocks@[k] == blocks0[k]);
                }
                assert forall|x: int| 0 <= x < before.len() implies covered(blocks@, x) || tied(
                    matrix@,
                    order,
                    at,
                    x,
                ) by {
                    if !tied(matrix@, order, at, x) {
                        assert(covered(blocks0, x));
                        let k0 = choose|k0: int| holds(blocks0, k0, x);
                        if k0 == i {
                            lemma_dropped_tied(before, order, at, value, region, x);
                        } else {
                            let k = if k0 < i { k0 } else { k0 - 1 };
                            assert(blocks@[k] == blocks0[k0]);
                            assert(holds(blocks@, k, x));
                        }
                    }
                }
            }
        } else {
            i += 1;
        }
    }
    proof {
        assert forall|k: int| 0 <= k < blocks@.len() implies tracks(
            matrix@,
            order,
            #[trigger] blocks@[k],
        ) by {
            assert(kept(before, order, at, value, blocks@[k]));
            lemma_kept_tracks(before, order, at, value, blocks@[k]);
        }
    }
}

/// Grows the region of the cell from cells of the same value, and adds it to
/// the list, unless a region of the list holds the cell already.
fn cover_cell<T: CellValue>(matrix: &Matrix<T>, blocks: &mut Vec<Region>, cell: usize)
    requires
        matrix.wf(),
        cell < matrix@.len(),
        all_track(matrix@, matrix.spec_order() as int, old(blocks)@),
        apart(old(blocks)@),
    ensures
        all_track(matrix@, matrix.spec_order() as int, final(blocks)@),
        apart(final(blocks)@),
        covered(final(blocks)@, cell as int),
        forall|x: int| covered(old(blocks)@, x) ==> covered(final(blocks)@, x),
{
    let ghost order = matrix.spec_order() as int;
    let ghost blocks0 = blocks@;
    match find_block(blocks, cell) {
        Some(i) => {},
        None => {
            let value = matrix.value_at(cell);
            let test = |c: &T| -> (r: bool)
                ensures
                    r == (*c == value),
                { c.same(&value) };
            let ghost pass = |c: T| c == value;
            let region = grow_region(matrix, cell, &test, Ghost(pass));
            proof {
                assert(pass_mask(matrix@, pass) =~= value_mask(matrix@, value));
                assert(value_mask(matrix@, value)[cell as int]);
                assert(tracks(matrix@, order, region));
                lemma_new_region_apart(matrix@, order, blocks0, region);
            }
            blocks.push(region);
            proof {
                assert(member(region.node_seq(), cell as int));
                assert(holds(blocks@, blocks0.len() as int, cell as int));
                assert forall|x: int| covered(blocks0, x) implies covered(blocks@, x) by {
                    let i = choose|i: int| holds(blocks0, i, x);
                    assert(blocks@[i] == blocks0[i]);
                    assert(holds(blocks@, i, x));
                }
            }
        },
    }
}

/// Whether one of the cells next to the region holds the value.
fn region_touches<T: CellValue>(matrix: &Matrix<T>, region: &Region, value: T) -> (r: bool)
    requires
        forall|l: int|
            0 <= l < region.adjacency_seq().len() ==> #[trigger] region.adjacency_seq()[l]
                < matrix@.len(),
    ensures
        r == exists|l: int|
            0 <= l < region.adjacency_seq().len() && matrix@[#[trigger] region.adjacency_seq()[l] as int]
                == value,
{
    let mut l: usize = 0;
    while l < region.adjacency_len()
        invariant
            l <= region.adjacency_seq().len(),
            forall|k: int|
                0 <= k < region.adjacency_seq().len() ==> #[trigger] region.adjacency_seq()[k]
                    < matrix@.len(),
            forall|k: int|
                0 <= k < l ==> matrix@[#[trigger] region.adjacency_seq()[k] as int] != value,
        decreases region.adjacency_seq().len() - l,
    {
        if matrix.value_at(region.adjacency_at(l)).same(&value) {
            return true;
        }
        l += 1;
    }
    false
}

/// Marks the nodes of the region in the list of the cells that were seen.
fn mark_seen(visited: &mut Vec<bool>, region: &Region)
    requires
        forall|k: int|
            0 <= k < region.node_seq().len() ==> #[trigger] region.node_seq()[k] < old(
                visited,
            )@.len(),
    ensures
        final(visited)@.len() == old(visited)@.len(),
        forall|x: int|
            0 <= x < old(visited)@.len() ==> final(visited)@[x] == (old(visited)@[x] || member(
                region.node_seq(),
                x,
            )),
{
    let mut k: usize = 0;
    while k < region.len()
        invariant
            k <= region.node_seq().len(),
            visited@.len() == old(visited)@.len(),
            forall|l: int|
                0 <= l < region.node_seq().len() ==> #[trigger] region.node_seq()[l]
                    < visited@.len(),
            forall|x: int|
                0 <= x < visited@.len() ==> visited@[x] == (old(visited)@[x] || exists|l: int|
                    0 <= l < k && #[trigger] region.node_seq()[l] == x),
        decreases region.node_seq().len() - k,
    {
        let node = region.node_at(k);
        let ghost before = visited@;
        visited.set(node, true);
        proof {
            assert forall|x: int| 0 <= x < visited@.len() implies visited@[x] == (old(
                visited,
            )@[x] || exists|l: int| 0 <= l < k + 1 && #[trigger] region.node_seq()[l] == x) by {
                if x == node {
                    assert(region.node_seq()[k as int] == x);
                } else if before[x] && !old(visited)@[x] {
                    let l = choose|l: int| 0 <= l < k && #[trigger] region.node_seq()[l] == x;
                    assert(l < k + 1);
                }
            }
        }
        k += 1;
    }
}

/// The test gives each value one answer, and can be put to every value.
pub open spec fn decides<T, F: Fn(&T) -> bool>(test: F) -> bool {
    &&& forall|v: T| #[trigger] call_requires(test, (&v,))
    &&& forall|v: T|
        !(#[trigger] call_ensures(test, (&v,), true) && #[trigger] call_ensures(test, (&v,), false))
}

/// The mask of the cells on which the test answers yes.
pub open spec fn test_mask<T, F: Fn(&T) -> bool>(cells: Seq<T>, test: F) -> Seq<bool> {
    Seq::new(cells.len(), |i: int| call_ensures(test, (&cells[i],), true))
}

impl<T: CellValue> Graph<T> {
    /// The number of rows, which is the number of columns.
    pub closed spec fn spec_order(&self) -> usize {
        self.matrix.spec_order()
    }

    /// The regions that the structure keeps, in the order in which it keeps
    /// them.
    pub closed spec fn region_seq(&self) -> Seq<Region> {
        self.blocks@
    }

    /// The matrix holds one cell for each vertex, and the regions kept are
    /// the regions of its cells.
    pub open spec fn wf(&self) -> bool {
        &&& self@.len() == self.spec_order() * self.spec_order()
        &&& partitions(self@, self.spec_order() as int, self.region_seq())
    }

    /// Creates a new graph with all default values backed by a square matrix of order `order`.
    pub fn with_matrix_order(order: usize) -> (r: Self)
        requires
            order * order <= usize::MAX,
        ensures
            r.wf(),
            r.spec_order() == order,
            forall|i: int| 0 <= i < r@.len() ==> r@[i] == T::blank_value(),
    {
        let matrix = Matrix::with_order(order);
        let mut blocks: Vec<Region> = Vec::new();
        if order > 0 {
            let region = Region::with_matrix_order(order);
            proof {
                lemma_blank_partitions(matrix@, order as int, region, T::blank_value());
            }
            blocks.push(region);
            assert(blocks@ =~= seq![region]);
        }
        Graph { matrix, blocks }
    }

    /// Updates the graph to its default initial state.
    pub fn reset(&mut self)
        requires
            old(self).wf(),
        ensures
            final(self).wf(),
            final(self).spec_order() == old(self).spec_order(),
            final(self)@.len() == old(self)@.len(),
            forall|i: int| 0 <= i < final(self)@.len() ==> final(self)@[i] == T::blank_value(),
    {
        self.matrix.reset();
        self.blocks.clear();
        let order = self.matrix.order();
        if order > 0 {
            let n = self.matrix.len();
            assert(n == order * order);
            let region = Region::with_matrix_order(order);
            proof {
                lemma_blank_partitions(self.matrix@, order as int, region, T::blank_value());
            }
            self.blocks.push(region);
            assert(self.blocks@ =~= seq![region]);
            assert(partitions(self.matrix@, order as int, self.blocks@));
        } else {
            assert(self.matrix@.len() == 0) by (nonlinear_arith)
                requires
                    self.matrix@.len() == order * order,
                    order == 0,
            ;
        }
    }

    /// Returns the largest connected region of nodes for which the test function applied to
    /// each node returns true starting at `node`.
    pub fn get_region<F: Fn(&T) -> bool>(&self, node: Node, test: F) -> (region: Region)
        requires
            self.wf(),
            node.0 < self@.len(),
            decides::<T, F>(test),
        ensures
            region_of(region, test_mask(self@, test), self.spec_order() as int, node.0 as int),
    {
        let ghost pass = |v: T| call_ensures(test, (&v,), true);
        assert(pass_mask(self@, pass) =~= test_mask(self@, test));
        grow_region(&self.matrix, node.0, &test, Ghost(pass))
    }

    /// Returns all of the largest connected regions of vertices for which the test function
    /// applied to each vertex returns true.
    pub fn get_regions<F: Fn(&T) -> bool>(&self, test: F) -> (regions: Vec<Region>)
        requires
            self.wf(),
            decides::<T, F>(test),
        ensures
            scanned(regions@, test_mask(self@, test), self.spec_order() as int),
    {
        let n = self.matrix.len();
        let ghost order = self.matrix.spec_order() as int;
        let ghost pass = |v: T| call_ensures(test, (&v,), true);
        let ghost mask = test_mask(self@, test);
        assert(pass_mask(self@, pass) =~= mask);
        let mut visited: Vec<bool> = vec![false; n];
        let mut regions: Vec<Region> = Vec::new();
        let mut i: usize = 0;
        while i < n
            invariant
                self.wf(),
                n == self.matrix@.len(),
                order == self.matrix.spec_order(),
                decides::<T, F>(test),
                pass == (|v: T| call_ensures(test, (&v,), true)),
                mask == test_mask(self@, test),
                pass_mask(self@, pass) == mask,
                i <= n,
                visited@.len() == n,
                forall|x: int| 0 <= x < n ==> visited@[x] == covered(regions@, x),
                forall|x: int| 0 <= x < i && mask[x] ==> covered(regions@, x),
                forall|k: int|
                    0 <= k < regions@.len() ==> seed(#[trigger] regions@[k]) < i && found_in(
                        regions@[k],
                        mask,
                        order,
                    ),
                forall|k: int, l: int|
                    0 <= k < l < regions@.len() ==> seed(#[trigger] regions@[k]) < seed(
                        #[trigger] regions@[l],
                    ),
            decreases n - i,
        {
            assert(visited@[i as int] == covered(regions@, i as int));
            if !visited[i] {
                let value = self.matrix.value_at(i);
                let passes = test(&value);
                assert(passes == mask[i as int]);
                if passes {
                    let region = grow_region(&self.matrix, i, &test, Ghost(pass));
                    let ghost before = regions@;
                    proof {
                        assert(mask[i as int]);
                        assert forall|k: int| 0 <= k < before.len() implies region_of(
                            #[trigger] before[k],
                            mask,
                            order,
                            seed(before[k]),
                        ) && mask[seed(before[k])] by {
                            assert(found_in(before[k], mask, order));
                        }
                        lemma_grown_region(before, region, mask, order, i as int);
                    }
                    mark_seen(&mut visited, &region);
                    regions.push(region);
                    proof {
                        let last = before.len() as int;
                        assert(regions@[last] == region);
                        assert forall|k: int| 0 <= k < regions@.len() implies seed(
                            #[trigger] regions@[k],
                        ) < i + 1 && found_in(regions@[k], mask, order) by {
                            if k < last {
                                assert(regions@[k] == before[k]);
                                assert(found_in(before[k], mask, order));
                            } else {
                                assert(regions@[k] == region);
                                assert(region.node_seq()[0] == i);
                                assert(seed(region) == i);
                                assert(least_first(region));
                                assert(region_of(region, mask, order, seed(region)));
                            }
                        }
                        assert forall|k: int, l: int| 0 <= k < l < regions@.len() implies seed(
                            #[trigger] regions@[k],
                        ) < seed(#[trigger] regions@[l]) by {
                            assert(regions@[k] == before[k]);
                            assert(found_in(before[k], mask, order));
                            if l < last {
                                assert(regions@[l] == before[l]);
                            }
                        }
                        assert forall|x: int| 0 <= x < n implies visited@[x] == covered(
                            regions@,
                            x,
                        ) by {
                            if covered(before, x) {
                                let k = choose|k: int| holds(before, k, x);
                                assert(regions@[k] == before[k]);
                                assert(holds(regions@, k, x));
                            }
                            if member(region.node_seq(), x) {
                                assert(holds(regions@, last, x));
                            }
                            if covered(regions@, x) {
                                let k = choose|k: int| holds(regions@, k, x);
                                if k < last {
                                    assert(regions@[k] == before[k]);
                                    assert(holds(before, k, x));
                                }
                            }
                        }
                        assert(member(region.node_seq(), i as int));
                        assert(holds(regions@, last, i as int));
                        assert forall|x: int| 0 <= x < i + 1 && mask[x] implies covered(
                            regions@,
                            x,
                        ) by {
                            if x < i {
                                assert(covered(before, x));
                                let k = choose|k: int| holds(before, k, x);
                                assert(regions@[k] == before[k]);
                                assert(holds(regions@, k, x));
                            }
                        }
                    }
                }
            }
            i += 1;
        }
        regions
    }

    /// Returns, for each value that a cell holds, the largest connected
    /// region of vertices of that value whose least node comes last.
    pub fn get_regions_by_value(&self) -> (entries: Vec<(T, Region)>)
        requires
            self.wf(),
        ensures
            by_value(self@, self.spec_order() as int, entries@),
    {
        let n = self.matrix.len();
        let ghost order = self.matrix.spec_order() as int;
        let ghost cells = self.matrix@;
        let mut visited: Vec<bool> = vec![false; n];
        let mut entries: Vec<(T, Region)> = Vec::new();
        let ghost mut all: Seq<Region> = Seq::empty();
        let mut i: usize = 0;
        while i < n
            invariant
                self.wf(),
                n == self.matrix@.len(),
                cells == self.matrix@,
                order == self.matrix.spec_order(),
                i <= n,
                visited@.len() == n,
                forall|x: int| 0 <= x < n ==> visited@[x] == covered(all, x),
                forall|x: int| 0 <= x < i ==> covered(all, x),
                forall|k: int|
                    0 <= k < all.len() ==> tracks(cells, order, #[trigger] all[k]) && least_first(
                        all[k],
                    ) && seed(all[k]) < i,
                forall|e: int|
                    0 <= e < entries@.len() ==> tracks(cells, order, (#[trigger] entries@[e]).1)
                        && cells[seed(entries@[e].1)] == entries@[e].0 && least_first(
                        entries@[e].1,
                    ),
                forall|e: int, f: int|
                    0 <= e < f < entries@.len() ==> (#[trigger] entries@[e]).0
                        != (#[trigger] entries@[f]).0,
                forall|k: int, e: int|
                    0 <= k < all.len() && 0 <= e < entries@.len() && cells[seed(
                        #[trigger] all[k],
                    )] == (#[trigger] entries@[e]).0 ==> seed(all[k]) <= seed(entries@[e].1),
                forall|k: int|
                    0 <= k < all.len() ==> exists|e: int|
                        0 <= e < entries@.len() && (#[trigger] entries@[e]).0 == cells[seed(
                            #[trigger] all[k],
                        )],
            decreases n - i,
        {
            assert(visited@[i as int] == covered(all, i as int));
            if !visited[i] {
                let value = self.matrix.value_at(i);
                let test = |c: &T| -> (r: bool)
                    ensures
                        r == (*c == value),
                    { c.same(&value) };
                let ghost pass = |c: T| c == value;
                let region = grow_region(&self.matrix, i, &test, Ghost(pass));
                let ghost mask = value_mask(cells, value);
                let ghost all0 = all;
                let ghost entries0 = entries@;
                proof {
                    assert(pass_mask(cells, pass) =~= mask);
                    assert(mask[i as int]);
                    assert(tracks(cells, order, region));
                    assert forall|x: int| member(region.node_seq(), x) implies i <= x by {
                        assert(region.node_set().contains(x));
                        lemma_connected_ends(mask, order, i as int, x);
                        if x < i {
                            assert(covered(all0, x));
                            let k = choose|k: int| holds(all0, k, x);
                            assert(tracks(cells, order, all0[k]));
                            lemma_connected_sym(mask, order, i as int, x);
                            assert(cells[x] == cells[i as int]);
                            lemma_tied_covered(cells, order, all0[k], x, i as int);
                            assert(holds(all0, k, i as int));
                        }
                    }
                    assert forall|k: int| 0 <= k < region.node_seq().len() implies #[trigger] region.node_seq()[k]
                        < n by {
                        let x = region.node_seq()[k] as int;
                        assert(member(region.node_seq(), x));
                        assert(region.node_set().contains(x));
                        lemma_connected_ends(mask, order, i as int, x);
                    }
                    all = all.push(region);
                }
                mark_seen(&mut visited, &region);
                let mut e: usize = 0;
                let mut at: Option<usize> = None;
                while e < entries.len()
                    invariant_except_break
                        at is None,
                        forall|f: int| 0 <= f < e ==> (#[trigger] entries@[f]).0 != value,
                    invariant
                        e <= entries@.len(),
                    ensures
                        match at {
                            Some(f) => f < entries@.len() && entries@[f as int].0 == value,
                            None => forall|f: int|
                                0 <= f < entries@.len() ==> (#[trigger] entries@[f]).0 != value,
                        },
                    decreases entries@.len() - e,
                {
                    if entries[e].0.same(&value) {
                        at = Some(e);
                        break ;
                    }
                    e += 1;
                }
                match at {
                    Some(f) => {
                        entries.set(f, (value, region));
                    },
                    None => {
                        entries.push((value, region));
                    },
                }
                proof {
                    let last = all0.len() as int;
                    let spot = match at {
                        Some(f) => f as int,
                        None => entries0.len() as int,
                    };
                    assert(entries@[spot] == (value, region));
                    assert forall|f: int| 0 <= f < entries@.len() && f != spot implies entries@[f]
                        == entries0[f] && entries0[f].0 != value by {}
                    assert forall|x: int| 0 <= x < n implies visited@[x] == covered(all, x) by {
                        if covered(all0, x) {
                            let k = choose|k: int| holds(all0, k, x);
                            assert(all[k] == all0[k]);
                            assert(holds(all, k, x));
                        }
                        if member(region.node_seq(), x) {
                            assert(holds(all, last, x));
                        }
                        if covered(all, x) {
                            let k = choose|k: int| holds(all, k, x);
                            if k < last {
                                assert(all[k] == all0[k]);
                                assert(holds(all0, k, x));
                            }
                        }
                    }
                    assert(member(region.node_seq(), i as int));
                    assert(holds(all, last, i as int));
                    assert forall|x: int| 0 <= x < i + 1 implies covered(all, x) by {
                        if x < i {
                            assert(covered(all0, x));
                            let k = choose|k: int| holds(all0, k, x);
                            assert(all[k] == all0[k]);
                            assert(holds(all, k, x));
                        }
                    }
                    assert forall|k: int| 0 <= k < all.len() implies tracks(
                        cells,
                        order,
                        #[trigger] all[k],
                    ) && least_first(all[k]) && seed(all[k]) < i + 1 by {
                        if k < last {
                            assert(all[k] == all0[k]);
                        }
                    }
                    assert forall|k: int, f: int|
                        0 <= k < all.len() && 0 <= f < entries@.len() && cells[seed(
                            #[trigger] all[k],
                        )] == (#[trigger] entries@[f]).0 implies seed(all[k]) <= seed(
                        entries@[f].1,
                    ) by {
                        if k < last {
                            assert(all[k] == all0[k]);
                            if f != spot {
                                assert(entries@[f] == entries0[f]);
                            }
                        } else {
                            if f != spot {
                                assert(entries@[f] == entries0[f]);
                            }
                        }
                    }
                    assert forall|k: int| 0 <= k < all.len() implies exists|f: int|
                        0 <= f < entries@.len() && (#[trigger] entries@[f]).0 == cells[seed(
                            #[trigger] all[k],
                        )] by {
                        if k < last {
                            assert(all[k] == all0[k]);
                            let f = choose|f: int|
                                0 <= f < entries0.len() && (#[trigger] entries0[f]).0 == cells[seed(
                                    all0[k],
                                )];
                            if f == spot {
                                assert(entries@[f].0 == value);
                            } else {
                                assert(entries@[f] == entries0[f]);
                            }
                        } else {
                            assert(entries@[spot].0 == value);
                        }
                    }
                }
            }
            i += 1;
        }
        proof {
            assert forall|e: int| 0 <= e < entries@.len() implies #[trigger] last_of_value(
                cells,
                order,
                entries@,
                e,
            ) by {
                let value = entries@[e].0;
                let region = entries@[e].1;
                assert(tracks(cells, order, region));
                assert forall|x: int|
                    0 <= x < cells.len() && #[trigger] cells[x] == value implies member(
                    region.node_seq(),
                    x,
                ) || exists|y: int|
                    0 <= y < seed(region) && #[trigger] connected(
                        value_mask(cells, value),
                        order,
                        y,
                        x,
                    ) by {
                    assert(covered(all, x));
                    let k = choose|k: int| holds(all, k, x);
                    assert(tracks(cells, order, all[k]));
                    lemma_region_cells(cells, order, all[k], x, value);
                    let s = seed(all[k]);
                    assert(cells[s] == entries@[e].0);
                    assert(s <= seed(region));
                    assert(all[k].node_set().contains(x));
                    assert(connected(value_mask(cells, value), order, s, x));
                    if s == seed(region) {
                        assert(region.node_set().contains(x));
                    }
                }
            }
            assert forall|x: int| 0 <= x < cells.len() implies has_entry(
                entries@,
                #[trigger] cells[x],
            ) by {
                assert(covered(all, x));
                let k = choose|k: int| holds(all, k, x);
                assert(tracks(cells, order, all[k]));
                lemma_region_cells(cells, order, all[k], x, cells[x]);
                let e = choose|e: int|
                    0 <= e < entries@.len() && (#[trigger] entries@[e]).0 == cells[seed(all[k])];
                assert(entries@[e].0 == cells[x]);
            }
        }
        entries
    }

    /// Set all regions of value _from_ to _to_ where the region does not touch any regions with
    /// value _to_. Returns true if any regions are shifted.
    pub fn shift_regions(&mut self, from: T, to: T) -> (was_shifted: bool)
        requires
            old(self).wf(),
        ensures
            final(self).wf(),
            final(self).spec_order() == old(self).spec_order(),
            final(self)@ == shifted(old(self)@, old(self).spec_order() as int, from, to),
            was_shifted == exists|i: int|
                shifts(old(self)@, old(self).spec_order() as int, from, to, i),
    {
        let ghost cells = self.matrix@;
        let ghost order = self.matrix.spec_order() as int;
        let n = self.matrix.len();
        let mut moved: Vec<usize> = Vec::new();
        let mut i: usize = 0;
        while i < self.blocks.len()
            invariant
                *self == *old(self),
                self.wf(),
                cells == self.matrix@,
                order == self.matrix.spec_order(),
                n == cells.len(),
                cells == old(self)@,
                i <= self.blocks@.len(),
                forall|l: int|
                    0 <= l < moved@.len() ==> shifts(cells, order, from, to, #[trigger] moved@[l] as int),
                forall|k: int, x: int|
                    0 <= k < i && #[trigger] holds(self.blocks@, k, x) && shifts(
                        cells,
                        order,
                        from,
                        to,
                        x,
                    ) ==> member(moved@, x),
            decreases self.blocks@.len() - i,
        {
            let region = &self.blocks[i];
            assert(tracks(cells, order, *region));
            proof {
                assert(region.node_seq()[0] == seed(*region));
                assert(member(region.node_seq(), seed(*region)));
                lemma_region_cells(cells, order, *region, seed(*region), to);
            }
            let first = region.node_at(0);
            if self.matrix.value_at(first).same(&from) && !region_touches(
                &self.matrix,
                region,
                to,
            ) {
                let ghost moved0 = moved@;
                let mut k: usize = 0;
                while k < region.len()
                    invariant
                        k <= region.node_seq().len(),
                        tracks(cells, order, *region),
                        shifts(cells, order, from, to, seed(*region)),
                        forall|l: int|
                            0 <= l < moved@.len() ==> shifts(
                                cells,
                                order,
                                from,
                                to,
                                #[trigger] moved@[l] as int,
                            ),
                        forall|x: int| member(moved0, x) ==> member(moved@, x),
                        forall|l: int|
                            0 <= l < k ==> member(moved@, #[trigger] region.node_seq()[l] as int),
                    decreases region.node_seq().len() - k,
                {
                    let cell = region.node_at(k);
                    let ghost moved1 = moved@;
                    proof {
                        assert(member(region.node_seq(), cell as int));
                        lemma_region_cells(cells, order, *region, cell as int, to);
                        lemma_region_cells(cells, order, *region, seed(*region), to);
                    }
                    moved.push(cell);
                    proof {
                        assert forall|x: int| member(moved1, x) implies member(moved@, x) by {
                            lemma_member_push(moved1, cell, x);
                        }
                        lemma_member_push(moved1, cell, cell as int);
                    }
                    k += 1;
                }
                proof {
                    assert forall|x: int| #[trigger]
                        holds(self.blocks@, i as int, x) implies member(moved@, x) by {
                        let l = choose|l: int|
                            0 <= l < region.node_seq().len() && #[trigger] region.node_seq()[l]
                                == x;
                        assert(member(moved@, region.node_seq()[l] as int));
                    }
                }
            } else {
                proof {
                    assert forall|x: int| #[trigger]
                        holds(self.blocks@, i as int, x) implies !shifts(
                        cells,
                        order,
                        from,
                        to,
                        x,
                    ) by {
                        lemma_region_cells(cells, order, *region, x, to);
                    }
                }
            }
            i += 1;
        }
        proof {
            assert forall|x: int| shifts(cells, order, from, to, x) implies member(moved@, x) by {
                assert(covered(self.blocks@, x));
                let k = choose|k: int| holds(self.blocks@, k, x);
                assert(holds(self.blocks@, k, x));
            }
        }
        let mut l: usize = 0;
        while l < moved.len()
            invariant
                self.wf(),
                order == self.spec_order() == old(self).spec_order(),
                cells.len() == self@.len(),
                cells == old(self)@,
                l <= moved@.len(),
                forall|x: int| shifts(cells, order, from, to, x) ==> member(moved@, x),
                forall|k: int|
                    0 <= k < moved@.len() ==> shifts(cells, order, from, to, #[trigger] moved@[k] as int),
                forall|x: int|
                    0 <= x < cells.len() ==> self@[x] == if exists|k: int|
                        0 <= k < l && #[trigger] moved@[k] == x {
                        to
                    } else {
                        cells[x]
                    },
            decreases moved@.len() - l,
        {
            let cell = moved[l];
            assert(shifts(cells, order, from, to, cell as int));
            let ghost cells1 = self@;
            self.set_node(Node(cell), to);
            proof {
                assert forall|x: int| 0 <= x < cells.len() implies self@[x] == if exists|k: int|
                    0 <= k < l + 1 && #[trigger] moved@[k] == x {
                    to
                } else {
                    cells[x]
                } by {
                    if x == cell {
                        assert(moved@[l as int] == x);
                    } else {
                        if exists|k: int| 0 <= k < l + 1 && #[trigger] moved@[k] == x {
                            let k = choose|k: int| 0 <= k < l + 1 && #[trigger] moved@[k] == x;
                            assert(k < l);
                        }
                    }
                }
            }
            l += 1;
        }
        proof {
            let target = shifted(cells, order, from, to);
            assert forall|x: int| 0 <= x < cells.len() implies self@[x] == target[x] by {
                if shifts(cells, order, from, to, x) {
                    assert(member(moved@, x));
                    let k = choose|k: int| 0 <= k < moved@.len() && #[trigger] moved@[k] == x;
                    assert(moved@[k] == x);
                } else {
                    if exists|k: int| 0 <= k < moved@.len() && #[trigger] moved@[k] == x {
                        let k = choose|k: int| 0 <= k < moved@.len() && #[trigger] moved@[k] == x;
                        assert(shifts(cells, order, from, to, moved@[k] as int));
                    }
                }
            }
            assert(self@ =~= target);
            if moved@.len() > 0 {
                assert(shifts(cells, order, from, to, moved@[0] as int));
            } else {
                assert forall|i: int| !shifts(cells, order, from, to, i) by {
                    if shifts(cells, order, from, to, i) {
                        assert(member(moved@, i));
                    }
                }
            }
        }
        moved.len() > 0
    }

    /// Returns all regions with value `value`, in the order in which the
    /// graph keeps them.
    pub fn regions(&self, value: T) -> (r: Vec<Region>)
        requires
            self.wf(),
        ensures
            forall|k: int|
                0 <= k < r@.len() ==> tracks(self@, self.spec_order() as int, #[trigger] r@[k])
                    && self@[seed(r@[k])] == value,
            forall|x: int|
                0 <= x < self@.len() && self@[x] == value ==> covered(r@, x),
            forall|k: int, l: int|
                0 <= k < r@.len() && 0 <= l < r@.len() && k != l ==> !#[trigger] holds(
                    r@,
                    l,
                    seed(r@[k]),
                ),
    {
        let ghost cells = self.matrix@;
        let ghost order = self.matrix.spec_order() as int;
        let mut found: Vec<Region> = Vec::new();
        let ghost mut origin: Seq<int> = Seq::empty();
        let mut i: usize = 0;
        while i < self.blocks.len()
            invariant
                self.wf(),
                cells == self.matrix@,
                order == self.matrix.spec_order(),
                i <= self.blocks@.len(),
                origin.len() == found@.len(),
                forall|k: int|
                    0 <= k < found@.len() ==> 0 <= #[trigger] origin[k] < i && found@[k].node_seq()
                        == self.blocks@[origin[k]].node_seq() && tracks(cells, order, found@[k])
                        && cells[seed(found@[k])] == value,
                forall|k: int, l: int| 0 <= k < l < found@.len() ==> origin[k] < origin[l],
                forall|j: int|
                    0 <= j < i && cells[seed(#[trigger] self.blocks@[j])] == value
                        ==> exists|k: int| 0 <= k < found@.len() && #[trigger] origin[k] == j,
            decreases self.blocks@.len() - i,
        {
            let region = &self.blocks[i];
            assert(tracks(cells, order, *region));
            let first = region.node_at(0);
            if self.matrix.value_at(first).same(&value) {
                let copy = region.clone();
                proof {
                    lemma_same_lists(cells, order, *region, copy);
                    let ghost origin0 = origin;
                    origin = origin.push(i as int);
                    assert forall|k: int| 0 <= k < origin0.len() implies origin[k] == origin0[k] by {}
                    assert forall|j: int|
                        0 <= j < i + 1 && cells[seed(#[trigger] self.blocks@[j])] == value
                        implies exists|k: int| 0 <= k < origin.len() && #[trigger] origin[k] == j by {
                        if j < i {
                            let k = choose|k: int| 0 <= k < origin0.len() && #[trigger] origin0[k] == j;
                            assert(origin[k] == j);
                        } else {
                            assert(origin[origin0.len() as int] == j);
                        }
                    }
                }
                let ghost found0 = found@;
                found.push(copy);
                proof {
                    assert forall|k: int| 0 <= k < found@.len() implies 0 <= #[trigger] origin[k]
                        < i + 1 && found@[k].node_seq() == self.blocks@[origin[k]].node_seq()
                        && tracks(cells, order, found@[k]) && cells[seed(found@[k])] == value by {
                        if k < found0.len() {
                            assert(found@[k] == found0[k]);
                        } else {
                            assert(found@[k] == copy);
                            assert(origin[k] == i);
                        }
                    }
                }
            }
            i += 1;
        }
        proof {
            assert forall|k: int| 0 <= k < found@.len() implies tracks(
                cells,
                order,
                #[trigger] found@[k],
            ) && cells[seed(found@[k])] == value by {
                assert(0 <= origin[k] < i);
            }
            assert forall|x: int| 0 <= x < cells.len() && cells[x] == value implies covered(
                found@,
                x,
            ) by {
                assert(covered(self.blocks@, x));
                let j = choose|j: int| holds(self.blocks@, j, x);
                assert(tracks(cells, order, self.blocks@[j]));
                lemma_region_cells(cells, order, self.blocks@[j], x, value);
                let k = choose|k: int| 0 <= k < found@.len() && #[trigger] origin[k] == j;
                assert(holds(found@, k, x));
            }
            assert forall|k: int, l: int|
                0 <= k < found@.len() && 0 <= l < found@.len() && k != l implies !#[trigger] holds(
                found@,
                l,
                seed(found@[k]),
            ) by {
                assert(origin[k] != origin[l]);
                assert(!holds(self.blocks@, origin[l], seed(self.blocks@[origin[k]])));
            }
        }
        found
    }

    /// Returns all of the vertices in the graph, in the order of their cells.
    pub fn vertices(&self) -> (r: Vec<Vertex>)
        requires
            self.wf(),
        ensures
            r@.len() == self@.len(),
            forall|i: int|
                0 <= i < r@.len() ==> on_board(self.spec_order() as int, #[trigger] r@[i])
                    && vertex_index(self.spec_order() as int, r@[i]) == i,
    {
        self.matrix.vertices()
    }

    /// Returns the values in the graph, in the order of their cells.
    pub fn values(&self) -> (r: &Vec<T>)
        ensures
            r@ == self@,
    {
        self.matrix.values()
    }

    /// The matrix that the graph is backed by.
    pub fn matrix(&self) -> (r: &Matrix<T>)
        ensures
            r@ == self@,
            r.spec_order() == self.spec_order(),
    {
        &self.matrix
    }

    /// Every cell of the graph is in exactly one of its regions.
    pub proof fn lemma_regions_partition(&self, x: int)
        requires
            self.wf(),
            0 <= x < self@.len(),
        ensures
            covered(self.region_seq(), x),
            forall|i: int, j: int|
                holds(self.region_seq(), i, x) && holds(self.region_seq(), j, x) ==> i == j,
    {
        lemma_one_region(self@, self.spec_order() as int, self.region_seq(), x);
    }

    /// Returns the value at a given vertex or none if the vertex is not in the graph.
    pub fn get(&self, vertex: Vertex) -> (r: Option<&T>)
        requires
            self.wf(),
        ensures
            r is Some <==> on_board(self.spec_order() as int, vertex),
            r matches Some(value) ==> *value == self@[vertex_index(
                self.spec_order() as int,
                vertex,
            )],
    {
        self.matrix.get(vertex)
    }

    /// Returns the underlying matrix order.
    pub fn grid_length(&self) -> (r: usize)
        ensures
            r == self.spec_order(),
    {
        self.matrix.order()
    }

    /// Sets the node in the graph to the new value.
    ///
    /// A vertex that is not in the graph is turned down, and a value that the
    /// node holds already changes nothing. Otherwise the region that held
    /// the node is taken apart into the regions that remain of it, and the
    /// node is joined with the regions of the new value next to it.
    pub fn set(&mut self, vertex: Vertex, value: T) -> (r: Result<(), Error>)
        requires
            old(self).wf(),
        ensures
            final(self).wf(),
            final(self).spec_order() == old(self).spec_order(),
            r is Ok <==> on_board(old(self).spec_order() as int, vertex),
            r is Ok ==> final(self)@ == old(self)@.update(
                vertex_index(old(self).spec_order() as int, vertex),
                value,
            ),
            r is Ok && old(self)@[vertex_index(old(self).spec_order() as int, vertex)] == value
                ==> *final(self) == *old(self),
            r is Err ==> r == Err::<(), Error>(Error::OutOfBounds) && *final(self) == *old(self),
    {
        match self.matrix.index_from_vertex(vertex) {
            Some(node) => {
                self.set_node(Node(node), value);
                Ok(())
            },
            None => Err(Error::OutOfBounds),
        }
    }

    /// Sets the node with the given index to the new value, as `set` does.
    pub fn set_node(&mut self, node: Node, value: T)
        requires
            old(self).wf(),
            node.0 < old(self)@.len(),
        ensures
            final(self).wf(),
            final(self).spec_order() == old(self).spec_order(),
            final(self)@ == old(self)@.update(node.0 as int, value),
            old(self)@[node.0 as int] == value ==> *final(self) == *old(self),
    {
        let node = node.0;
        let old_value = self.matrix.value_at(node);
        if value.same(&old_value) {
            assert(self@ =~= old(self)@.update(node as int, value));
            return ;
        }
        let ghost before = self.matrix@;
        let ghost order = self.matrix.spec_order() as int;
        let ghost at = node as int;
        proof {
            assert(0 < order) by (nonlinear_arith)
                requires
                    0 <= order,
                    0 < order * order,
            ;
        }
        let n = self.matrix.len();
        assert(node < n);
        self.matrix.put(node, value);
        let around = self.matrix.adjacencies(node);
        drop_stale(&self.matrix, &mut self.blocks, node, &around, value, Ghost(before));

        // The node first, then its neighbours: taken from the end, the
        // pieces of the old region come before the region of the node.
        let mut todo: Vec<usize> = Vec::new();
        todo.push(node);
        let mut k: usize = 0;
        while k < around.len()
            invariant
                k <= around@.len(),
                todo@.len() == k + 1,
                todo@[0] == node,
                forall|l: int| 0 <= l < k ==> todo@[l + 1] == around@[l],
            decreases around@.len() - k,
        {
            todo.push(around[k]);
            k += 1;
        }
        let ghost near = neighbors(order, at);
        proof {
            lemma_neighbors(order, at);
            assert forall|j: int| j == at || adjacent(order, at, j) implies member(todo@, j) by {
                if j == at {
                    assert(todo@[0] == j);
                } else {
                    assert(near.contains(j));
                    let l = choose|l: int| 0 <= l < near.len() && near[l] == j;
                    assert(around@[l] as int == near[l]);
                    assert(todo@[l + 1] == j);
                }
            }
            assert forall|l: int| 0 <= l < todo@.len() implies #[trigger] todo@[l] < before.len() by {
                if l > 0 {
                    assert(around@[l - 1] as int == near[l - 1]);
                    assert(near.contains(near[l - 1]));
                    assert(adjacent(order, at, near[l - 1]));
                }
            }
        }
        while todo.len() > 0
            invariant
                self.matrix.wf(),
                self.matrix.spec_order() == order,
                0 <= at < before.len(),
                self.matrix@ == before.update(at, value),
                all_track(self.matrix@, order, self.blocks@),
                apart(self.blocks@),
                forall|l: int| 0 <= l < todo@.len() ==> #[trigger] todo@[l] < before.len(),
                forall|j: int|
                    0 <= j < before.len() && (j == at || adjacent(order, at, j)) ==> member(todo@, j)
                        || covered(self.blocks@, j),
                forall|x: int|
                    0 <= x < before.len() ==> covered(self.blocks@, x) || tied(
                        self.matrix@,
                        order,
                        at,
                        x,
                    ),
            decreases todo@.len(),
        {
            let ghost todo0 = todo@;
            let ghost blocks0 = self.blocks@;
            let cell = todo.pop().unwrap();
            cover_cell(&self.matrix, &mut self.blocks, cell);
            proof {
                assert forall|j: int|
                    0 <= j < before.len() && (j == at || adjacent(order, at, j)) implies member(
                    todo@,
                    j,
                ) || covered(self.blocks@, j) by {
                    if member(todo0, j) {
                        let l = choose|l: int| 0 <= l < todo0.len() && #[trigger] todo0[l] == j;
                        if l < todo@.len() {
                            assert(todo@[l] == j);
                        }
                    }
                }
            }
        }
        proof {
            let cells = self.matrix@;
            assert forall|x: int| 0 <= x < cells.len() implies covered(self.blocks@, x) by {
                if !covered(self.blocks@, x) {
                    let j = choose|j: int| #[trigger] tied_by(cells, order, at, j, x);
                    assert(!member(todo@, j));
                    assert(covered(self.blocks@, j));
                    let i = choose|i: int| holds(self.blocks@, i, j);
                    assert(tracks(cells, order, self.blocks@[i]));
                    lemma_tied_covered(cells, order, self.blocks@[i], j, x);
                    assert(holds(self.blocks@, i, x));
                }
            }
        }
    }
}

impl<T: CellValue> PartialEq for Graph<T> {
    /// Two graphs are equal if their matrices are: the regions follow from
    /// the values.
    fn eq(&self, other: &Graph<T>) -> (r: bool) {
        self.matrix.same(&other.matrix)
    }
}

impl<T: CellValue> vstd::std_specs::cmp::PartialEqSpecImpl for Graph<T> {
    open spec fn obeys_eq_spec() -> bool {
        true
    }

    open spec fn eq_spec(&self, other: &Graph<T>) -> bool {
        self.spec_order() == other.spec_order() && self@ == other@
    }
}

impl<T: CellValue> Clone for Graph<T> {
    /// A copy of the graph, with regions of its own.
    fn clone(&self) -> (r: Self)
        ensures
            r@ == self@,
            r.spec_order() == self.spec_order(),
            self.wf() ==> r.wf(),
    {
        let matrix = self.matrix.clone();
        let mut blocks: Vec<Region> = Vec::new();
        let mut i: usize = 0;
        while i < self.blocks.len()
            invariant
                i <= self.blocks@.len(),
                blocks@.len() == i,
                forall|k: int|
                    0 <= k < i ==> (#[trigger] self.blocks@[k]).node_seq() == blocks@[k].node_seq()
                        && self.blocks@[k].adjacency_seq() == blocks@[k].adjacency_seq(),
            decreases self.blocks@.len() - i,
        {
            blocks.push(self.blocks[i].clone());
            i += 1;
        }
        proof {
            if self.wf() {
                lemma_same_regions(self@, self.spec_order() as int, self.blocks@, blocks@);
            }
        }
        Graph { matrix, blocks }
    }
}

} // verus!

//! The regions of a matrix: a region is a set of connected cells, and the
//! cells that lie next to it. A region is grown from one cell over the
//! cells that pass a test.

use vstd::prelude::*;
use vstd::set_lib::{lemma_int_range, set_int_range};
use crate::game::grid::{
    adjacent, border, component, connected, lemma_closed_set_holds_component,
    lemma_connected_ends, lemma_connected_refl, lemma_connected_step, lemma_neighbors, neighbors,
    touches,
};
use crate::game::matrix::{CellValue, Matrix};

verus! {

/// A reference to a node in the graph: the index of its cell.
#[derive(Clone, Copy, Debug, PartialEq, Eq, Hash, Structural)]
pub struct Node(pub usize);

/// A set of connected nodes in the matrix and their adjacencies.
#[derive(Debug)]
pub struct Region {
    nodes: Vec<usize>,
    adjacencies: Vec<usize>,
}

/// The list holds the cell `x`.
pub open spec fn member(list: Seq<usize>, x: int) -> bool {
    exists|k: int| 0 <= k < list.len() && #[trigger] list[k] == x
}

/// No cell is listed twice.
pub open spec fn distinct(list: Seq<usize>) -> bool {
    forall|k: int, l: int| 0 <= k < l < list.len() ==> #[trigger] list[k] != #[trigger] list[l]
}

/// A list with one more cell holds that cell and what it held before.
pub proof fn lemma_member_push(list: Seq<usize>, a: usize, x: int)
    ensures
        member(list.push(a), x) <==> member(list, x) || x == a,
{
    let longer = list.push(a);
    if member(list, x) {
        let k = choose|k: int| 0 <= k < list.len() && #[trigger] list[k] == x;
        assert(longer[k] == x);
    }
    if x == a {
        assert(longer[list.len() as int] == x);
    }
    if member(longer, x) {
        let k = choose|k: int| 0 <= k < longer.len() && #[trigger] longer[k] == x;
        if k < list.len() {
            assert(list[k] == x);
        }
    }
}

impl Region {
    /// The nodes of the region, in the order in which they were found. The
    /// first one is the node the region was grown from.
    pub closed spec fn node_seq(&self) -> Seq<usize> {
        self.nodes@
    }

    /// The nodes next to the region, in the order in which they were found.
    pub closed spec fn adjacency_seq(&self) -> Seq<usize> {
        self.adjacencies@
    }

    /// The nodes of the region.
    pub open spec fn node_set(&self) -> Set<int> {
        Set::new(|x: int| member(self.node_seq(), x))
    }

    /// The nodes outside the region that lie next to one of its nodes.
    pub open spec fn adjacency_set(&self) -> Set<int> {
        Set::new(|x: int| member(self.adjacency_seq(), x))
    }

    /// No node is held twice.
    pub open spec fn wf(&self) -> bool {
        distinct(self.node_seq()) && distinct(self.adjacency_seq())
    }

    /// Returns all of the nodes in the region.
    pub fn nodes(&self) -> (r: Vec<Node>)
        ensures
            r@.len() == self.node_seq().len(),
            forall|k: int| 0 <= k < r@.len() ==> (#[trigger] r@[k]).0 == self.node_seq()[k],
    {
        wrap_nodes(&self.nodes)
    }

    /// Returns all of the nodes next to the region.
    pub fn adjacencies(&self) -> (r: Vec<Node>)
        ensures
            r@.len() == self.adjacency_seq().len(),
            forall|k: int| 0 <= k < r@.len() ==> (#[trigger] r@[k]).0 == self.adjacency_seq()[k],
    {
        wrap_nodes(&self.adjacencies)
    }

    /// Whether the node belongs to the region.
    pub fn contains(&self, node: Node) -> (r: bool)
        ensures
            r == member(self.node_seq(), node.0 as int),
    {
        listed_in(&self.nodes, node.0)
    }

    /// The number of nodes in the region.
    pub fn len(&self) -> (r: usize)
        ensures
            r == self.node_seq().len(),
    {
        self.nodes.len()
    }

    /// The node with the given place in the region.
    pub fn node_at(&self, k: usize) -> (r: usize)
        requires
            k < self.node_seq().len(),
        ensures
            r == self.node_seq()[k as int],
    {
        self.nodes[k]
    }

    /// The number of nodes next to the region.
    pub fn adjacency_len(&self) -> (r: usize)
        ensures
            r == self.adjacency_seq().len(),
    {
        self.adjacencies.len()
    }

    /// The node with the given place among those next to the region.
    pub fn adjacency_at(&self, k: usize) -> (r: usize)
        requires
            k < self.adjacency_seq().len(),
        ensures
            r == self.adjacency_seq()[k as int],
    {
        self.adjacencies[k]
    }

    /// Returns a square region anchored at the origin with no adjacencies.
    pub(crate) fn with_matrix_order(order: usize) -> (r: Self)
        requires
            order * order <= usize::MAX,
        ensures
            r.node_seq().len() == order * order,
            forall|k: int| 0 <= k < order * order ==> r.node_seq()[k] == k,
            r.adjacency_seq().len() == 0,
    {
        let n: usize = order * order;
        let mut nodes: Vec<usize> = Vec::new();
        let mut i: usize = 0;
        while i < n
            invariant
                i <= n,
                nodes@.len() == i,
                forall|k: int| 0 <= k < i ==> nodes@[k] == k,
            decreases n - i,
        {
            nodes.push(i);
            i += 1;
        }
        Region { nodes, adjacencies: Vec::new() }
    }
}

impl Clone for Region {
    /// A copy of the region.
    fn clone(&self) -> (r: Self)
        ensures
            r.node_seq() == self.node_seq(),
            r.adjacency_seq() == self.adjacency_seq(),
    {
        Region { nodes: copy_list(&self.nodes), adjacencies: copy_list(&self.adjacencies) }
    }
}

/// The list as nodes.
fn wrap_nodes(list: &Vec<usize>) -> (r: Vec<Node>)
    ensures
        r@.len() == list@.len(),
        forall|k: int| 0 <= k < r@.len() ==> (#[trigger] r@[k]).0 == list@[k],
{
    let mut nodes: Vec<Node> = Vec::new();
    let mut i: usize = 0;
    while i < list.len()
        invariant
            i <= list@.len(),
            nodes@.len() == i,
            forall|k: int| 0 <= k < i ==> (#[trigger] nodes@[k]).0 == list@[k],
        decreases list@.len() - i,
    {
        nodes.push(Node(list[i]));
        i += 1;
    }
    nodes
}

/// A copy of the list.
fn copy_list(list: &Vec<usize>) -> (r: Vec<usize>)
    ensures
        r@ == list@,
{
    let mut copy: Vec<usize> = Vec::new();
    let mut i: usize = 0;
    while i < list.len()
        invariant
            i <= list@.len(),
            copy@.len() == i,
            forall|k: int| 0 <= k < i ==> copy@[k] == list@[k],
        decreases list@.len() - i,
    {
        copy.push(list[i]);
        i += 1;
    }
    assert(copy@ =~= list@);
    copy
}

/// Whether the list holds the cell.
fn listed_in(list: &Vec<usize>, x: usize) -> (r: bool)
    ensures
        r == member(list@, x as int),
{
    let mut i: usize = 0;
    while i < list.len()
        invariant
            i <= list@.len(),
            forall|k: int| 0 <= k < i ==> list@[k] != x,
        decreases list@.len() - i,
    {
        if list[i] == x {
            return true;
        }
        i += 1;
    }
    false
}

/// The mask of the cells whose value passes.
pub open spec fn pass_mask<T>(cells: Seq<T>, pass: spec_fn(T) -> bool) -> Seq<bool> {
    Seq::new(cells.len(), |i: int| pass(cells[i]))
}

/// The test can be put to every value, and its answer is what `pass` says.
pub open spec fn answers<T, F: Fn(&T) -> bool>(test: F, pass: spec_fn(T) -> bool) -> bool {
    &&& forall|v: T| #[trigger] call_requires(test, (&v,))
    &&& forall|v: T, r: bool| #[trigger] call_ensures(test, (&v,), r) ==> r == pass(v)
}

/// `region` is the region of `start` among the cells that pass the mask: it
/// holds the cells connected to `start`, `start` first, and next to it lie
/// the cells of its border. Where `start` does not pass, the region is empty
/// and has no adjacencies.
pub open spec fn region_of(region: Region, mask: Seq<bool>, order: int, start: int) -> bool {
    &&& region.wf()
    &&& if mask[start] {
        &&& region.node_seq().len() > 0
        &&& region.node_seq()[0] == start
        &&& region.node_set() == component(mask, order, start)
        &&& region.adjacency_set() == border(mask, order, start)
    } else {
        &&& region.node_seq().len() == 0
        &&& region.adjacency_seq().len() == 0
    }
}

/// While a region is grown, each cell is marked: not seen yet, waiting to be
/// tested, in the region, or next to the region.
const FRESH: u8 = 0;

/// The mark of a cell that waits to be tested.
const QUEUED: u8 = 1;

/// The mark of a cell of the region.
const INSIDE: u8 = 2;

/// The mark of a cell next to the region.
const BESIDE: u8 = 3;

/// What the marks say of each cell: a cell inside passes the mask and is
/// connected to the start, a cell beside does not pass, and a cell that was
/// seen is the start or was seen from a cell inside (`parent`).
spec fn marks_ok(mask: Seq<bool>, order: int, start: int, marks: Seq<u8>, parent: Seq<int>) -> bool {
    &&& marks.len() == mask.len()
    &&& parent.len() == mask.len()
    &&& 0 <= start < mask.len()
    &&& marks[start] != FRESH
    &&& forall|x: int| 0 <= x < mask.len() ==> #[trigger] marks[x] <= BESIDE
    &&& forall|x: int|
        0 <= x < mask.len() && #[trigger] marks[x] == INSIDE ==> mask[x] && connected(
            mask,
            order,
            start,
            x,
        )
    &&& forall|x: int| 0 <= x < mask.len() && #[trigger] marks[x] == BESIDE ==> !mask[x]
    &&& forall|x: int|
        0 <= x < mask.len() && (#[trigger] marks[x] == QUEUED || marks[x] == BESIDE) ==> x == start
            || (0 <= parent[x] < mask.len() && marks[parent[x]] == INSIDE && adjacent(
            order,
            parent[x],
            x,
        ))
}

/// Each list holds the cells with its mark, each once.
spec fn list_ok(marks: Seq<u8>, list: Seq<usize>, mark: u8) -> bool {
    &&& forall|k: int| 0 <= k < list.len() ==> #[trigger] list[k] < marks.len() && marks[list[k] as int] == mark
    &&& distinct(list)
    &&& forall|x: int| 0 <= x < marks.len() && #[trigger] marks[x] == mark ==> member(list, x)
}

/// Every cell next to a cell inside was seen, but for the cell `pending`
/// whose neighbours are being looked at.
spec fn closed_ok(order: int, marks: Seq<u8>, pending: int) -> bool {
    forall|c: int, j: int|
        0 <= c < marks.len() && marks[c] == INSIDE && c != pending && #[trigger] adjacent(
            order,
            c,
            j,
        ) ==> marks[j] != FRESH
}

/// The set still holds every cell that was not seen.
spec fn fresh_ok(marks: Seq<u8>, fresh: Set<int>) -> bool {
    &&& fresh.finite()
    &&& forall|x: int| 0 <= x < marks.len() && #[trigger] marks[x] == FRESH ==> fresh.contains(x)
}

/// Grows the region of `start` among the cells on which `test` answers yes.
///
/// The cells are looked at one by one, `start` first; from each cell that
/// passes, its neighbours are looked at in turn. Cells that pass make the
/// region, the others that were looked at lie next to it.
pub(crate) fn grow_region<T: CellValue, F: Fn(&T) -> bool>(
    matrix: &Matrix<T>,
    start: usize,
    test: &F,
    Ghost(pass): Ghost<spec_fn(T) -> bool>,
) -> (region: Region)
    requires
        matrix.wf(),
        start < matrix@.len(),
        answers::<T, F>(*test, pass),
    ensures
        region_of(region, pass_mask(matrix@, pass), matrix.spec_order() as int, start as int),
{
    let n = matrix.len();
    let ghost order = matrix.spec_order() as int;
    let ghost mask = pass_mask(matrix@, pass);
    let ghost from = start as int;
    let mut passed: Vec<usize> = Vec::new();
    let mut beside: Vec<usize> = Vec::new();
    let mut queue: Vec<usize> = Vec::new();
    let mut marks: Vec<u8> = vec![FRESH; n];
    let ghost mut parent: Seq<int> = Seq::new(n as nat, |i: int| from);
    let ghost mut fresh: Set<int> = set_int_range(0, n as int);
    proof {
        lemma_int_range(0, n as int);
        assert(0 < order) by (nonlinear_arith)
            requires
                0 <= order,
                0 < order * order,
        ;
    }
    queue.push(start);
    marks.set(start, QUEUED);
    assert(queue@[0] == start);

    while queue.len() > 0
        invariant
            matrix.wf(),
            n == matrix@.len(),
            n == order * order,
            0 < order == matrix.spec_order(),
            from == start,
            mask == pass_mask(matrix@, pass),
            answers::<T, F>(*test, pass),
            marks_ok(mask, order, from, marks@, parent),
            list_ok(marks@, queue@, QUEUED),
            list_ok(marks@, passed@, INSIDE),
            list_ok(marks@, beside@, BESIDE),
            closed_ok(order, marks@, -1),
            fresh_ok(marks@, fresh),
            passed@.len() > 0 ==> passed@[0] == start,
        decreases 2 * fresh.len() + queue@.len(),
    {
        let ghost marks0 = marks@;
        let ghost queue0 = queue@;
        let ghost passed0 = passed@;
        let ghost beside0 = beside@;
        let ghost measure = 2 * fresh.len() + queue0.len();
        let index = queue.pop().unwrap();
        let ghost at = index as int;
        assert(queue0[queue0.len() - 1] == index);
        assert(marks0[at] == QUEUED);
        assert forall|k: int| 0 <= k < queue@.len() implies #[trigger] queue@[k] != index by {
            assert(queue@[k] == queue0[k]);
        }
        let value = matrix.value_at(index);
        let passes = test(&value);
        assert(passes == mask[at]);
        if passes {
            proof {
                if at == from {
                    lemma_connected_refl(mask, order, from);
                } else {
                    lemma_connected_step(mask, order, from, parent[at], at);
                }
                lemma_neighbors(order, at);
            }
            passed.push(index);
            marks.set(index, INSIDE);
            assert(passed@[passed0.len() as int] == index);
            proof {
                assert forall|x: int|
                    0 <= x < marks@.len() && #[trigger] marks@[x] == INSIDE implies member(
                    passed@,
                    x,
                ) by {
                    lemma_member_push(passed0, index, x);
                }
                assert forall|x: int|
                    0 <= x < marks@.len() && #[trigger] marks@[x] == QUEUED implies member(
                    queue@,
                    x,
                ) by {
                    let k = choose|k: int| 0 <= k < queue0.len() && #[trigger] queue0[k] == x;
                    assert(queue@[k] == x);
                }
            }
            let around = matrix.adjacencies(index);
            let ghost near = neighbors(order, at);
            assert(around@.len() == near.len());
            let mut k: usize = 0;
            while k < around.len()
                invariant
                    matrix.wf(),
                    n == matrix@.len(),
                    n == order * order,
                    0 < order == matrix.spec_order(),
                    0 <= at < n,
                    mask.len() == n,
                    k <= around@.len(),
                    near == neighbors(order, at),
                    around@.map_values(|i: usize| i as int) == near,
                    forall|j: int| adjacent(order, at, j) <==> near.contains(j),
                    marks_ok(mask, order, from, marks@, parent),
                    marks@[at] == INSIDE,
                    list_ok(marks@, queue@, QUEUED),
                    list_ok(marks@, passed@, INSIDE),
                    list_ok(marks@, beside@, BESIDE),
                    closed_ok(order, marks@, at),
                    forall|l: int| 0 <= l < k ==> marks@[#[trigger] near[l]] != FRESH,
                    fresh_ok(marks@, fresh),
                    passed@.len() > 0 ==> passed@[0] == start,
                    2 * fresh.len() + queue@.len() < measure,
                decreases around@.len() - k,
            {
                let i = around[k];
                assert(near[k as int] == i);
                assert(near.contains(i as int));
                assert(adjacent(order, at, i as int));
                if marks[i] == FRESH {
                    let ghost marks1 = marks@;
                    let ghost queue1 = queue@;
                    queue.push(i);
                    marks.set(i, QUEUED);
                    proof {
                        parent = parent.update(i as int, at);
                        fresh = fresh.remove(i as int);
                        assert(queue@[queue1.len() as int] == i);
                        assert forall|x: int|
                            0 <= x < marks@.len() && #[trigger] marks@[x] == QUEUED implies member(
                            queue@,
                            x,
                        ) by {
                            lemma_member_push(queue1, i, x);
                        }
                    }
                }
                k += 1;
            }
            proof {
                assert forall|c: int, j: int|
                    0 <= c < marks@.len() && marks@[c] == INSIDE && #[trigger] adjacent(
                        order,
                        c,
                        j,
                    ) implies marks@[j] != FRESH by {
                    if c == at {
                        assert(near.contains(j));
                        let l = choose|l: int| 0 <= l < near.len() && near[l] == j;
                        assert(marks@[near[l]] != FRESH);
                    }
                }
            }
        } else {
            beside.push(index);
            marks.set(index, BESIDE);
            assert(beside@[beside0.len() as int] == index);
            proof {
                assert forall|x: int|
                    0 <= x < marks@.len() && #[trigger] marks@[x] == BESIDE implies member(
                    beside@,
                    x,
                ) by {
                    lemma_member_push(beside0, index, x);
                }
                assert forall|x: int|
                    0 <= x < marks@.len() && #[trigger] marks@[x] == QUEUED implies member(
                    queue@,
                    x,
                ) by {
                    let k = choose|k: int| 0 <= k < queue0.len() && #[trigger] queue0[k] == x;
                    assert(queue@[k] == x);
                }
            }
        }
    }

    if passed.len() == 0 {
        beside.clear();
    }
    let region = Region { nodes: passed, adjacencies: beside };
    proof {
        assert forall|x: int| 0 <= x < n implies marks@[x] != QUEUED by {
            if marks@[x] == QUEUED {
                assert(member(queue@, x));
            }
        }
        if mask[from] {
            assert(marks@[from] == INSIDE);
            assert(member(passed@, from));
            let inside = region.node_set();
            assert forall|c: int, j: int|
                inside.contains(c) && #[trigger] adjacent(order, c, j) && 0 <= j < mask.len()
                    && mask[j] implies inside.contains(j) by {
                assert(marks@[j] != FRESH);
                assert(marks@[j] == INSIDE);
            }
            lemma_closed_set_holds_component(mask, order, from, inside);
            assert(inside =~= component(mask, order, from));
            assert forall|b: int| region.adjacency_set().contains(b) <==> border(
                mask,
                order,
                from,
            ).contains(b) by {
                if region.adjacency_set().contains(b) {
                    assert(marks@[b] == BESIDE);
                    assert(touches(mask, order, from, parent[b], b));
                }
                if border(mask, order, from).contains(b) {
                    let c = choose|c: int| #[trigger] touches(mask, order, from, c, b);
                    assert(inside.contains(c));
                    assert(marks@[c] == INSIDE);
                    assert(marks@[b] != FRESH);
                    assert(marks@[b] == BESIDE);
                }
            }
            assert(region.adjacency_set() =~= border(mask, order, from));
        } else {
            if passed@.len() > 0 {
                assert(marks@[passed@[0] as int] == INSIDE);
                lemma_connected_ends(mask, order, from, passed@[0] as int);
            }
        }
    }
    region
}

} // verus!

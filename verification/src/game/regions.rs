//! What it means that a list of regions divides the cells of a matrix
//! among them, and what follows from it.

use vstd::prelude::*;
use crate::game::grid::{
    border, component, connected, is_path, lemma_component_shared, lemma_connected_ends,
    lemma_connected_mono, lemma_connected_sym, lemma_connected_trans, lemma_full_grid,
    lemma_path_prefix, lemma_path_transfer, touches, value_mask,
};
use crate::game::region::{member, region_of, Region};

verus! {

/// The node that a region was grown from.
pub open spec fn seed(region: Region) -> int {
    region.node_seq()[0] as int
}

/// The region is a region of the cells: it holds the cells that are
/// connected to its first node over cells of the same value, and next to it
/// lie the cells of its border.
pub open spec fn tracks<T>(cells: Seq<T>, order: int, region: Region) -> bool {
    &&& region.node_seq().len() > 0
    &&& seed(region) < cells.len()
    &&& region_of(region, value_mask(cells, cells[seed(region)]), order, seed(region))
}

/// Region `i` of the list holds the cell `x`.
pub open spec fn holds(regions: Seq<Region>, i: int, x: int) -> bool {
    0 <= i < regions.len() && member(regions[i].node_seq(), x)
}

/// Some region of the list holds the cell `x`.
pub open spec fn covered(regions: Seq<Region>, x: int) -> bool {
    exists|i: int| holds(regions, i, x)
}

/// No region holds the first node of another.
pub open spec fn apart(regions: Seq<Region>) -> bool {
    forall|i: int, j: int|
        0 <= i < regions.len() && 0 <= j < regions.len() && i != j ==> !#[trigger] holds(
            regions,
            j,
            seed(regions[i]),
        )
}

/// Each region of the list is a region of the cells.
pub open spec fn all_track<T>(cells: Seq<T>, order: int, regions: Seq<Region>) -> bool {
    forall|i: int| 0 <= i < regions.len() ==> tracks(cells, order, #[trigger] regions[i])
}

/// The regions divide the cells among them: each is a region of the cells,
/// no two are the same region, and every cell is in one.
pub open spec fn partitions<T>(cells: Seq<T>, order: int, regions: Seq<Region>) -> bool {
    &&& all_track(cells, order, regions)
    &&& apart(regions)
    &&& forall|x: int| 0 <= x < cells.len() ==> covered(regions, x)
}

/// A cell that is tied to a cell of a region is a cell of that region.
pub proof fn lemma_tied_covered<T>(cells: Seq<T>, order: int, region: Region, j: int, x: int)
    requires
        tracks(cells, order, region),
        member(region.node_seq(), j),
        0 <= j < cells.len(),
        connected(value_mask(cells, cells[j]), order, j, x),
    ensures
        member(region.node_seq(), x),
{
    let s = seed(region);
    let m = value_mask(cells, cells[s]);
    assert(region.node_set().contains(j));
    assert(connected(m, order, s, j));
    lemma_connected_ends(m, order, s, j);
    assert(cells[j] == cells[s]);
    lemma_connected_trans(m, order, s, j, x);
    assert(component(m, order, s).contains(x));
    assert(region.node_set().contains(x));
}

/// The cell `i` holds `from`, and its region touches no cell of value `to`.
pub open spec fn shifts<T>(cells: Seq<T>, order: int, from: T, to: T, i: int) -> bool {
    0 <= i < cells.len() && cells[i] == from && !touches_value(cells, order, i, to)
}

/// A region with the same nodes and adjacencies as a region of the cells is
/// a region of the cells.
pub proof fn lemma_same_lists<T>(cells: Seq<T>, order: int, a: Region, b: Region)
    requires
        tracks(cells, order, a),
        a.node_seq() == b.node_seq(),
        a.adjacency_seq() == b.adjacency_seq(),
    ensures
        tracks(cells, order, b),
{
    assert(a.node_set() =~= b.node_set());
    assert(a.adjacency_set() =~= b.adjacency_set());
}

/// Regions with the same nodes and adjacencies as regions that divide the
/// cells among them do so too.
pub proof fn lemma_same_regions<T>(cells: Seq<T>, order: int, a: Seq<Region>, b: Seq<Region>)
    requires
        partitions(cells, order, a),
        a.len() == b.len(),
        forall|i: int|
            0 <= i < a.len() ==> (#[trigger] a[i]).node_seq() == b[i].node_seq()
                && a[i].adjacency_seq() == b[i].adjacency_seq(),
    ensures
        partitions(cells, order, b),
{
    assert forall|i: int| 0 <= i < b.len() implies tracks(cells, order, #[trigger] b[i]) by {
        assert(a[i].node_seq() == b[i].node_seq());
        lemma_same_lists(cells, order, a[i], b[i]);
    }
    assert forall|i: int, j: int|
        0 <= i < b.len() && 0 <= j < b.len() && i != j implies !#[trigger] holds(
        b,
        j,
        seed(b[i]),
    ) by {
        assert(a[i].node_seq() == b[i].node_seq());
        assert(a[j].node_seq() == b[j].node_seq());
        assert(!holds(a, j, seed(a[i])));
    }
    assert forall|x: int| 0 <= x < cells.len() implies covered(b, x) by {
        assert(covered(a, x));
        let i = choose|i: int| holds(a, i, x);
        assert(a[i].node_seq() == b[i].node_seq());
        assert(holds(b, i, x));
    }
}

/// Every cell is in exactly one of the regions that divide the cells among
/// them.
pub proof fn lemma_one_region<T>(cells: Seq<T>, order: int, regions: Seq<Region>, x: int)
    requires
        partitions(cells, order, regions),
        0 <= x < cells.len(),
    ensures
        covered(regions, x),
        forall|i: int, j: int| holds(regions, i, x) && holds(regions, j, x) ==> i == j,
{
    assert forall|i: int, j: int| holds(regions, i, x) && holds(regions, j, x) implies i == j by {
        if i != j {
            let si = seed(regions[i]);
            let sj = seed(regions[j]);
            assert(tracks(cells, order, regions[i]));
            assert(tracks(cells, order, regions[j]));
            let mi = value_mask(cells, cells[si]);
            let mj = value_mask(cells, cells[sj]);
            assert(regions[i].node_set().contains(x));
            assert(regions[j].node_set().contains(x));
            assert(connected(mi, order, si, x));
            assert(connected(mj, order, sj, x));
            lemma_connected_ends(mi, order, si, x);
            lemma_connected_ends(mj, order, sj, x);
            assert(mi =~= mj);
            lemma_connected_sym(mi, order, si, x);
            lemma_connected_trans(mi, order, sj, x, si);
            assert(component(mj, order, sj).contains(si));
            assert(regions[j].node_set().contains(si));
            assert(holds(regions, j, si));
        }
    }
}

/// What a region of the cells says of each of its cells: the cell holds the
/// value of the first node, and its region touches a value where the
/// region lists a cell of that value next to it.
pub proof fn lemma_region_cells<T>(cells: Seq<T>, order: int, region: Region, x: int, value: T)
    requires
        tracks(cells, order, region),
        member(region.node_seq(), x),
    ensures
        0 <= x < cells.len(),
        cells[x] == cells[seed(region)],
        touches_value(cells, order, x, value) == exists|l: int|
            0 <= l < region.adjacency_seq().len() && cells[#[trigger] region.adjacency_seq()[l] as int]
                == value,
        forall|l: int|
            0 <= l < region.adjacency_seq().len() ==> #[trigger] region.adjacency_seq()[l]
                < cells.len(),
{
    let s = seed(region);
    let m = value_mask(cells, cells[s]);
    assert(region.node_set().contains(x));
    assert(connected(m, order, s, x));
    lemma_touch_shared(cells, order, s, x, value);
    assert(value_mask(cells, cells[x]) == m);
    lemma_component_shared(m, order, s, x);
    assert forall|l: int| 0 <= l < region.adjacency_seq().len() implies #[trigger] region.adjacency_seq()[l]
        < cells.len() by {
        assert(member(region.adjacency_seq(), region.adjacency_seq()[l] as int));
        assert(region.adjacency_set().contains(region.adjacency_seq()[l] as int));
    }
    if touches_value(cells, order, x, value) {
        let b = choose|b: int| #[trigger] border(m, order, x).contains(b) && cells[b] == value;
        assert(region.adjacency_set().contains(b));
        let l = choose|l: int|
            0 <= l < region.adjacency_seq().len() && #[trigger] region.adjacency_seq()[l] == b;
        assert(cells[region.adjacency_seq()[l] as int] == value);
    }
    if exists|l: int|
        0 <= l < region.adjacency_seq().len() && cells[#[trigger] region.adjacency_seq()[l] as int]
            == value {
        let l = choose|l: int|
            0 <= l < region.adjacency_seq().len() && cells[#[trigger] region.adjacency_seq()[l] as int]
                == value;
        let b = region.adjacency_seq()[l] as int;
        assert(member(region.adjacency_seq(), b));
        assert(region.adjacency_set().contains(b));
        assert(border(m, order, x).contains(b));
    }
}

/// The first node of the region is the least of its nodes.
pub open spec fn least_first(region: Region) -> bool {
    forall|x: int| member(region.node_seq(), x) ==> seed(region) <= x
}

/// The region is the region of its first node among the cells that pass the
/// mask, and its first node is the least of its nodes.
pub open spec fn found_in(region: Region, mask: Seq<bool>, order: int) -> bool {
    &&& region.node_seq().len() > 0
    &&& 0 <= seed(region) < mask.len()
    &&& mask[seed(region)]
    &&& region_of(region, mask, order, seed(region))
    &&& least_first(region)
}

/// The list holds the regions of the cells that pass the mask, each once,
/// in the order of their least nodes.
pub open spec fn scanned(regions: Seq<Region>, mask: Seq<bool>, order: int) -> bool {
    &&& forall|k: int| 0 <= k < regions.len() ==> found_in(#[trigger] regions[k], mask, order)
    &&& forall|k: int, l: int|
        0 <= k < l < regions.len() ==> seed(#[trigger] regions[k]) < seed(#[trigger] regions[l])
    &&& forall|x: int| 0 <= x < mask.len() && mask[x] ==> covered(regions, x)
}

/// Entry `e` of the list holds a value, and the region of that value whose
/// least node comes last: every cell of that value is in the region, or
/// connected to a cell before the first node of the region.
pub open spec fn last_of_value<T>(cells: Seq<T>, order: int, entries: Seq<(T, Region)>, e: int) -> bool {
    let value = entries[e].0;
    let region = entries[e].1;
    &&& tracks(cells, order, region)
    &&& cells[seed(region)] == value
    &&& least_first(region)
    &&& forall|x: int|
        0 <= x < cells.len() && #[trigger] cells[x] == value ==> member(region.node_seq(), x)
            || exists|y: int|
            0 <= y < seed(region) && #[trigger] connected(value_mask(cells, value), order, y, x)
}

/// The list holds one entry for each value that a cell holds, with the
/// region of that value whose least node comes last.
pub open spec fn by_value<T>(cells: Seq<T>, order: int, entries: Seq<(T, Region)>) -> bool {
    &&& forall|e: int| 0 <= e < entries.len() ==> #[trigger] last_of_value(cells, order, entries, e)
    &&& forall|e: int, f: int|
        0 <= e < f < entries.len() ==> (#[trigger] entries[e]).0 != (#[trigger] entries[f]).0
    &&& forall|x: int| 0 <= x < cells.len() ==> has_entry(entries, #[trigger] cells[x])
}

/// The list has an entry for the value.
pub open spec fn has_entry<T>(entries: Seq<(T, Region)>, value: T) -> bool {
    exists|e: int| 0 <= e < entries.len() && (#[trigger] entries[e]).0 == value
}

/// The nodes of a region grown from a cell are cells of the matrix, and
/// where none of them was in a region found before, no node before the cell
/// is among them.
pub proof fn lemma_grown_region(
    regions: Seq<Region>,
    region: Region,
    mask: Seq<bool>,
    order: int,
    i: int,
)
    requires
        0 <= i < mask.len(),
        mask[i],
        region_of(region, mask, order, i),
        forall|k: int| 0 <= k < regions.len() ==> region_of(
            #[trigger] regions[k],
            mask,
            order,
            seed(regions[k]),
        ) && mask[seed(regions[k])],
        forall|x: int| 0 <= x < i && mask[x] ==> covered(regions, x),
        !covered(regions, i),
    ensures
        least_first(region),
        forall|k: int| 0 <= k < region.node_seq().len() ==> #[trigger] region.node_seq()[k] < mask.len(),
{
    assert forall|k: int| 0 <= k < region.node_seq().len() implies #[trigger] region.node_seq()[k]
        < mask.len() by {
        let x = region.node_seq()[k] as int;
        assert(member(region.node_seq(), x));
        assert(region.node_set().contains(x));
        lemma_connected_ends(mask, order, i, x);
    }
    assert forall|x: int| member(region.node_seq(), x) implies i <= x by {
        assert(region.node_set().contains(x));
        assert(connected(mask, order, i, x));
        lemma_connected_ends(mask, order, i, x);
        if x < i {
            assert(covered(regions, x));
            let k = choose|k: int| holds(regions, k, x);
            let s = seed(regions[k]);
            assert(region_of(regions[k], mask, order, s));
            assert(regions[k].node_set().contains(x));
            assert(connected(mask, order, s, x));
            lemma_connected_sym(mask, order, i, x);
            lemma_connected_trans(mask, order, s, x, i);
            assert(component(mask, order, s).contains(i));
            assert(regions[k].node_set().contains(i));
            assert(holds(regions, k, i));
        }
    }
}

/// The region of the cell `i` touches a cell that holds `value`.
pub open spec fn touches_value<T>(cells: Seq<T>, order: int, i: int, value: T) -> bool {
    exists|b: int| #[trigger]
        border(value_mask(cells, cells[i]), order, i).contains(b) && cells[b] == value
}

/// The cells after every region of value `from` that touches no cell of
/// value `to` has been given the value `to`.
pub open spec fn shifted<T>(cells: Seq<T>, order: int, from: T, to: T) -> Seq<T> {
    Seq::new(
        cells.len(),
        |i: int|
            if shifts(cells, order, from, to, i) {
                to
            } else {
                cells[i]
            },
    )
}

/// Two cells of one region touch the same values.
pub proof fn lemma_touch_shared<T>(cells: Seq<T>, order: int, a: int, b: int, value: T)
    requires
        connected(value_mask(cells, cells[a]), order, a, b),
    ensures
        cells[a] == cells[b],
        touches_value(cells, order, a, value) == touches_value(cells, order, b, value),
{
    let m = value_mask(cells, cells[a]);
    lemma_connected_ends(m, order, a, b);
    lemma_component_shared(m, order, a, b);
}

/// After a shift, every cell that still holds `from` is in a region that
/// touches a cell of value `to`.
pub proof fn lemma_shift_settles<T>(cells: Seq<T>, order: int, from: T, to: T, i: int)
    requires
        from != to,
        0 <= i < cells.len(),
        shifted(cells, order, from, to)[i] == from,
    ensures
        touches_value(shifted(cells, order, from, to), order, i, to),
{
    let after = shifted(cells, order, from, to);
    let m0 = value_mask(cells, from);
    let m1 = value_mask(after, from);
    assert(cells[i] == from);
    assert(touches_value(cells, order, i, to));
    let b = choose|b: int| #[trigger]
        border(value_mask(cells, cells[i]), order, i).contains(b) && cells[b] == to;
    let c = choose|c: int| #[trigger] touches(m0, order, i, c, b);
    let p = choose|p: Seq<int>| #[trigger]
        is_path(m0, order, p) && p[0] == i && p.last() == c;
    assert forall|k: int| 0 <= k < p.len() implies m1[#[trigger] p[k]] by {
        lemma_path_prefix(m0, order, p, k);
        lemma_touch_shared(cells, order, i, p[k], to);
    }
    lemma_path_transfer(m0, m1, order, p);
    assert(connected(m1, order, i, c));
    assert(touches(m1, order, i, c, b));
    assert(after[b] == to);
    assert(border(value_mask(after, after[i]), order, i).contains(b));
}

/// A shift leaves the regions of other values as they are: a cell of
/// another value whose region touched a cell of value `to` still does.
pub proof fn lemma_shift_spares<T>(cells: Seq<T>, order: int, from: T, to: T, i: int)
    requires
        0 <= i < cells.len(),
        cells[i] != from,
        touches_value(cells, order, i, to),
    ensures
        shifted(cells, order, from, to)[i] == cells[i],
        touches_value(shifted(cells, order, from, to), order, i, to),
{
    let after = shifted(cells, order, from, to);
    let w = cells[i];
    let m0 = value_mask(cells, w);
    let m1 = value_mask(after, w);
    let b = choose|b: int| #[trigger] border(m0, order, i).contains(b) && cells[b] == to;
    let c = choose|c: int| #[trigger] touches(m0, order, i, c, b);
    assert forall|k: int| 0 <= k < m0.len() && m0[k] implies #[trigger] m1[k] by {
        assert(after[k] == cells[k]);
    }
    lemma_connected_mono(m0, m1, order, i, c);
    assert(touches(m1, order, i, c, b));
    assert(after[b] == to);
    assert(w != to);
    assert(border(m1, order, i).contains(b));
}

/// The one region of a matrix whose cells all hold the same value.
pub proof fn lemma_blank_partitions<T>(cells: Seq<T>, order: int, region: Region, value: T)
    requires
        0 < order,
        cells.len() == order * order,
        forall|i: int| 0 <= i < cells.len() ==> #[trigger] cells[i] == value,
        region.node_seq().len() == cells.len(),
        forall|k: int| 0 <= k < cells.len() ==> region.node_seq()[k] == k,
        region.adjacency_seq().len() == 0,
    ensures
        partitions(cells, order, seq![region]),
{
    let n = cells.len() as int;
    assert(0 < order * order) by (nonlinear_arith)
        requires
            0 < order,
    ;
    let m = value_mask(cells, cells[0]);
    assert forall|x: int| region.node_set().contains(x) <==> component(m, order, 0).contains(x) by {
        if region.node_set().contains(x) {
            lemma_full_grid(m, order, x);
        }
        if connected(m, order, 0, x) {
            lemma_connected_ends(m, order, 0, x);
            assert(region.node_seq()[x] == x);
        }
    }
    assert(region.node_set() =~= component(m, order, 0));
    assert(region.adjacency_set() =~= border(m, order, 0));
    let regions = seq![region];
    assert(regions[0] == region);
    assert(tracks(cells, order, region));
    assert forall|x: int| 0 <= x < cells.len() implies covered(regions, x) by {
        assert(region.node_seq()[x] == x);
        assert(holds(regions, 0, x));
    }
}

} // verus!

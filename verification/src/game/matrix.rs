//! A square matrix that holds one value for each vertex of the board.

use vstd::prelude::*;
use crate::game::error::Error;
use crate::game::grid::{
    above, below, index_of, left_of, lemma_index_of, lemma_index_split, listed, neighbors,
    right_of,
};
use crate::game::vertex::Vertex;
use vstd::arithmetic::div_mod::lemma_small_mod;

verus! {

/// What a cell of the matrix can hold: a plain value that can be copied and
/// compared, with one value that stands for "nothing here".
pub trait CellValue: Copy {
    /// The value of a cell that nothing was written to.
    spec fn blank_value() -> Self;

    /// The value of a cell that nothing was written to.
    fn blank() -> (r: Self)
        ensures
            r == Self::blank_value(),
    ;

    /// Whether two values are the same.
    fn same(&self, other: &Self) -> (r: bool)
        ensures
            r == (*self == *other),
    ;
}

impl CellValue for i32 {
    open spec fn blank_value() -> i32 {
        0
    }

    fn blank() -> (r: i32) {
        0
    }

    fn same(&self, other: &i32) -> (r: bool) {
        *self == *other
    }
}

/// A matrix holding the state of type T for each vertex on the board.
#[derive(Debug)]
pub struct Matrix<T> {
    order: usize,
    cells: Vec<T>,
}

impl<T> View for Matrix<T> {
    type V = Seq<T>;

    /// The cells, row by row from the bottom row up.
    closed spec fn view(&self) -> Seq<T> {
        self.cells@
    }
}

/// The vertex is on a board of the given order.
pub open spec fn on_board(order: int, vertex: Vertex) -> bool {
    vertex.x < order && vertex.y < order
}

/// The index of the cell of a vertex.
pub open spec fn vertex_index(order: int, vertex: Vertex) -> int {
    index_of(order, vertex.x as int, vertex.y as int)
}

/// An optional index as an optional whole number.
pub open spec fn as_cell(index: Option<usize>) -> Option<int> {
    match index {
        Some(i) => Some(i as int),
        None => None,
    }
}

impl<T: CellValue> Matrix<T> {
    /// The number of rows, which is the number of columns.
    pub closed spec fn spec_order(&self) -> usize {
        self.order
    }

    /// The matrix holds one cell for each vertex.
    pub open spec fn wf(&self) -> bool {
        self@.len() == self.spec_order() * self.spec_order()
    }

    /// Returns a new empty matrix.
    pub fn with_order(order: usize) -> (r: Self)
        requires
            order * order <= usize::MAX,
        ensures
            r.wf(),
            r.spec_order() == order,
            forall|i: int| 0 <= i < r@.len() ==> r@[i] == T::blank_value(),
    {
        let n: usize = order * order;
        let mut cells: Vec<T> = Vec::new();
        let mut i: usize = 0;
        while i < n
            invariant
                i <= n,
                cells@.len() == i,
                forall|k: int| 0 <= k < i ==> cells@[k] == T::blank_value(),
            decreases n - i,
        {
            cells.push(T::blank());
            i += 1;
        }
        Matrix { order, cells }
    }

    /// Returns a matrix of the given order that holds the given cells, row
    /// by row, if they are as many as it has cells.
    pub fn with_cells(order: usize, cells: Vec<T>) -> (r: Option<Self>)
        ensures
            r is Some <==> cells@.len() == order * order,
            r matches Some(matrix) ==> matrix.wf() && matrix.spec_order() == order && matrix@
                == cells@,
    {
        let len = cells.len();
        match order.checked_mul(order) {
            Some(n) => {
                if len == n {
                    Some(Matrix { order, cells })
                } else {
                    None
                }
            },
            None => None,
        }
    }

    /// Returns the order the matrix.
    #[verifier::when_used_as_spec(spec_order)]
    pub fn order(&self) -> (r: usize)
        ensures
            r == self.spec_order(),
    {
        self.order
    }

    /// Returns the index above _index_ if it exists.
    pub fn above(&self, index: usize) -> (r: Option<usize>)
        requires
            self.wf(),
        ensures
            as_cell(r) == above(self.spec_order() as int, index as int),
    {
        let n = self.cells.len();
        if index < n && self.order < n - index {
            Some(index + self.order)
        } else {
            None
        }
    }

    /// Returns the index below _index_ if it exists.
    pub fn below(&self, index: usize) -> (r: Option<usize>)
        ensures
            as_cell(r) == below(self.spec_order() as int, index as int),
    {
        if index >= self.order {
            Some(index - self.order)
        } else {
            None
        }
    }

    /// Returns the index left of _index_ if it exists.
    pub fn left_of(&self, index: usize) -> (r: Option<usize>)
        requires
            self.spec_order() > 0,
        ensures
            as_cell(r) == left_of(self.spec_order() as int, index as int),
    {
        if index % self.order > 0 {
            proof {
                if index == 0 {
                    lemma_small_mod(0, self.order as nat);
                }
            }
            Some(index - 1)
        } else {
            None
        }
    }

    /// Returns the index right of _index_ if it exists.
    pub fn right_of(&self, index: usize) -> (r: Option<usize>)
        requires
            self.spec_order() > 0,
            index < usize::MAX,
        ensures
            as_cell(r) == right_of(self.spec_order() as int, index as int),
    {
        if (index + 1) % self.order > 0 {
            Some(index + 1)
        } else {
            None
        }
    }

    /// Returns all indicies adjacent to index.
    pub fn adjacencies(&self, index: usize) -> (r: Vec<usize>)
        requires
            self.wf(),
            self.spec_order() > 0,
            index < usize::MAX,
        ensures
            r@.map_values(|i: usize| i as int) == neighbors(self.spec_order() as int, index as int),
    {
        let mut adjacencies: Vec<usize> = Vec::with_capacity(4);
        let ghost order = self.order as int;
        let ghost at = index as int;
        if let Some(index) = self.left_of(index) {
            adjacencies.push(index);
        }
        assert(adjacencies@.map_values(|i: usize| i as int) =~= listed(left_of(order, at)));
        if let Some(index) = self.below(index) {
            adjacencies.push(index);
        }
        assert(adjacencies@.map_values(|i: usize| i as int) =~= listed(left_of(order, at)) + listed(
            below(order, at),
        ));
        if let Some(index) = self.right_of(index) {
            adjacencies.push(index);
        }
        assert(adjacencies@.map_values(|i: usize| i as int) =~= listed(left_of(order, at)) + listed(
            below(order, at),
        ) + listed(right_of(order, at)));
        if let Some(index) = self.above(index) {
            adjacencies.push(index);
        }
        assert(adjacencies@.map_values(|i: usize| i as int) =~= neighbors(order, at));
        adjacencies
    }

    /// Converts a vertex into index in the matrix. Returns None if the vertex is not in the matrix.
    pub fn index_from_vertex(&self, vertex: Vertex) -> (r: Option<usize>)
        requires
            self.wf(),
        ensures
            r is Some <==> on_board(self.spec_order() as int, vertex),
            r matches Some(i) ==> i == vertex_index(self.spec_order() as int, vertex) && i
                < self@.len(),
    {
        let n = self.cells.len();
        if vertex.x < self.order && vertex.y < self.order {
            proof {
                lemma_index_of(self.order as int, vertex.x as int, vertex.y as int);
                assert(0 <= vertex.y * self.order) by (nonlinear_arith);
                assert(vertex.y * self.order + vertex.x < n);
            }
            Some(vertex.y * self.order + vertex.x)
        } else {
            None
        }
    }

    /// Returns the vertex of a index.
    pub fn vertex_from_index(&self, index: usize) -> (r: Vertex)
        requires
            self.spec_order() > 0,
        ensures
            r.x == index % self.spec_order(),
            r.y == index / self.spec_order(),
    {
        Vertex { x: index % self.order, y: index / self.order }
    }

    /// Returns all of the vertices that hold `in_state`, in the order of
    /// their cells.
    pub fn verts_in_state(&self, in_state: T) -> (r: Vec<Vertex>)
        requires
            self.wf(),
        ensures
            forall|k: int|
                0 <= k < r@.len() ==> on_board(self.spec_order() as int, #[trigger] r@[k])
                    && self@[vertex_index(self.spec_order() as int, r@[k])] == in_state,
            forall|k: int, l: int|
                0 <= k < l < r@.len() ==> vertex_index(self.spec_order() as int, r@[k])
                    < vertex_index(self.spec_order() as int, r@[l]),
            forall|i: int|
                0 <= i < self@.len() && self@[i] == in_state ==> exists|k: int|
                    0 <= k < r@.len() && #[trigger] vertex_index(self.spec_order() as int, r@[k])
                        == i,
    {
        let mut verts: Vec<Vertex> = Vec::new();
        let n = self.cells.len();
        let ghost order = self.order as int;
        let mut i: usize = 0;
        while i < n
            invariant
                self.wf(),
                n == self@.len(),
                order == self.spec_order(),
                i <= n,
                forall|k: int|
                    0 <= k < verts@.len() ==> on_board(order, #[trigger] verts@[k])
                        && self@[vertex_index(order, verts@[k])] == in_state && vertex_index(
                        order,
                        verts@[k],
                    ) < i,
                forall|k: int, l: int|
                    0 <= k < l < verts@.len() ==> vertex_index(order, verts@[k]) < vertex_index(
                        order,
                        verts@[l],
                    ),
                forall|j: int|
                    0 <= j < i && self@[j] == in_state ==> exists|k: int|
                        0 <= k < verts@.len() && #[trigger] vertex_index(order, verts@[k]) == j,
            decreases n - i,
        {
            if self.cells[i].same(&in_state) {
                proof {
                    lemma_index_split(order, i as int);
                }
                let vertex = self.vertex_from_index(i);
                let ghost before = verts@;
                verts.push(vertex);
                assert(vertex_index(order, verts@[before.len() as int]) == i);
                assert forall|j: int| 0 <= j < i + 1 && self@[j] == in_state implies exists|k: int|
                    0 <= k < verts@.len() && #[trigger] vertex_index(order, verts@[k]) == j by {
                    if j < i {
                        let k = choose|k: int|
                            0 <= k < before.len() && #[trigger] vertex_index(order, before[k])
                                == j;
                        assert(verts@[k] == before[k]);
                    }
                }
            }
            i += 1;
        }
        verts
    }

    /// Returns the cell state at a given vertex or none if the vertex is not in the matrix.
    pub fn get(&self, vertex: Vertex) -> (r: Option<&T>)
        requires
            self.wf(),
        ensures
            r is Some <==> on_board(self.spec_order() as int, vertex),
            r matches Some(value) ==> *value == self@[vertex_index(
                self.spec_order() as int,
                vertex,
            )],
    {
        match self.index_from_vertex(vertex) {
            Some(index) => Some(&self.cells[index]),
            None => None,
        }
    }

    /// Writes the state of the cell at a given vertex. A vertex that is not
    /// in the matrix is turned down and nothing is written.
    pub fn set(&mut self, vertex: Vertex, value: T) -> (r: Result<(), Error>)
        requires
            old(self).wf(),
        ensures
            final(self).wf(),
            final(self).spec_order() == old(self).spec_order(),
            r is Ok <==> on_board(old(self).spec_order() as int, vertex),
            r is Ok ==> final(self)@ == old(self)@.update(
                vertex_index(old(self).spec_order() as int, vertex),
                value,
            ),
            r is Err ==> r == Err::<(), Error>(Error::OutOfBounds) && final(self)@ == old(self)@,
    {
        match self.index_from_vertex(vertex) {
            Some(index) => {
                self.cells[index] = value;
                Ok(())
            },
            None => Err(Error::OutOfBounds),
        }
    }

    /// The value of the cell with the given index.
    pub fn value_at(&self, index: usize) -> (r: T)
        requires
            index < self@.len(),
        ensures
            r == self@[index as int],
    {
        self.cells[index]
    }

    /// Writes the cell with the given index.
    pub fn put(&mut self, index: usize, value: T)
        requires
            index < old(self)@.len(),
        ensures
            final(self)@ == old(self)@.update(index as int, value),
            final(self).spec_order() == old(self).spec_order(),
    {
        self.cells[index] = value;
    }

    /// The number of cells.
    pub fn len(&self) -> (r: usize)
        ensures
            r == self@.len(),
    {
        self.cells.len()
    }

    /// Returns the matrix to all default values.
    pub fn reset(&mut self)
        ensures
            final(self).spec_order() == old(self).spec_order(),
            final(self)@.len() == old(self)@.len(),
            forall|i: int| 0 <= i < final(self)@.len() ==> final(self)@[i] == T::blank_value(),
    {
        let n = self.cells.len();
        let mut i: usize = 0;
        while i < n
            invariant
                i <= n,
                n == self.cells@.len(),
                self.order == old(self).order,
                forall|k: int| 0 <= k < i ==> self.cells@[k] == T::blank_value(),
            decreases n - i,
        {
            self.cells[i] = T::blank();
            i += 1;
        }
    }

    /// Returns all of the values stored in the matrix.
    pub fn values(&self) -> (r: &Vec<T>)
        ensures
            r@ == self@,
    {
        &self.cells
    }

    /// Returns all of the vertices in the matrix, in the order of their cells.
    pub fn vertices(&self) -> (r: Vec<Vertex>)
        requires
            self.wf(),
        ensures
            r@.len() == self@.len(),
            forall|i: int|
                0 <= i < r@.len() ==> on_board(self.spec_order() as int, #[trigger] r@[i])
                    && vertex_index(self.spec_order() as int, r@[i]) == i,
    {
        let mut verts: Vec<Vertex> = Vec::new();
        let n = self.cells.len();
        let ghost order = self.order as int;
        let mut i: usize = 0;
        while i < n
            invariant
                self.wf(),
                n == self@.len(),
                order == self.spec_order(),
                i <= n,
                verts@.len() == i,
                forall|k: int|
                    0 <= k < i ==> on_board(order, #[trigger] verts@[k]) && vertex_index(
                        order,
                        verts@[k],
                    ) == k,
            decreases n - i,
        {
            proof {
                lemma_index_split(order, i as int);
            }
            verts.push(self.vertex_from_index(i));
            i += 1;
        }
        verts
    }

    /// Whether two matrices have the same order and hold the same values.
    pub fn same(&self, other: &Self) -> (r: bool)
        ensures
            r == (self.spec_order() == other.spec_order() && self@ == other@),
    {
        if self.order != other.order || self.cells.len() != other.cells.len() {
            return false;
        }
        let n = self.cells.len();
        let mut i: usize = 0;
        while i < n
            invariant
                i <= n,
                n == self.cells@.len(),
                n == other.cells@.len(),
                forall|k: int| 0 <= k < i ==> self.cells@[k] == other.cells@[k],
            decreases n - i,
        {
            if !self.cells[i].same(&other.cells[i]) {
                return false;
            }
            i += 1;
        }
        assert(self.cells@ =~= other.cells@);
        true
    }
}

impl<T: CellValue> PartialEq for Matrix<T> {
    /// Two matrices are equal if they have the same order and hold the same
    /// values.
    fn eq(&self, other: &Matrix<T>) -> (r: bool) {
        self.same(other)
    }
}

impl<T: CellValue> vstd::std_specs::cmp::PartialEqSpecImpl for Matrix<T> {
    open spec fn obeys_eq_spec() -> bool {
        true
    }

    open spec fn eq_spec(&self, other: &Matrix<T>) -> bool {
        self.spec_order() == other.spec_order() && self@ == other@
    }
}

impl<T: CellValue> Clone for Matrix<T> {
    /// A copy of the matrix.
    fn clone(&self) -> (r: Self)
        ensures
            r@ == self@,
            r.spec_order() == self.spec_order(),
    {
        let mut cells: Vec<T> = Vec::new();
        let n = self.cells.len();
        let mut i: usize = 0;
        while i < n
            invariant
                i <= n,
                n == self.cells@.len(),
                cells@.len() == i,
                forall|k: int| 0 <= k < i ==> cells@[k] == self.cells@[k],
            decreases n - i,
        {
            cells.push(self.cells[i]);
            i += 1;
        }
        assert(cells@ =~= self.cells@);
        Matrix { order: self.order, cells }
    }
}

} // verus!

//! The Moore curve: a closed space-filling loop over a
//! `2^order x 2^order` grid, stitched from four transformed copies of
//! the Hilbert curve of the previous order, together with the
//! bounds-checked mapping utilities between step indices and grid
//! coordinates.

use vstd::prelude::*;

use crate::curve::{
    adjacent, cells_of, covers_grid, in_grid, is_chain, inverse_table_wf, invert_forward,
    lemma_side_len_bound, lemma_side_len_pos, pairwise_distinct, side_len, within_grid,
    CurveError,
};
use crate::hilbert::{hilbert_cells, lemma_assemble, lemma_hilbert_cells, Hilbert};

verus! {

/// Where quadrant `q` of the Moore curve sends a cell of the
/// underlying half-size Hilbert curve.  Quadrants 0 and 1 are
/// translations; quadrants 2 and 3 reflect both axes.
pub open spec fn quad_map(c: (int, int), q: int, half: int) -> (int, int) {
    if q == 0 {
        (half + c.0, c.1)
    } else if q == 1 {
        (half + c.0, half + c.1)
    } else if q == 2 {
        (half - 1 - c.0, 2 * half - 1 - c.1)
    } else {
        (half - 1 - c.0, half - 1 - c.1)
    }
}

/// The quarter of the full grid that quadrant `q` occupies.
pub open spec fn quad_region(c: (int, int), q: int, half: int) -> bool {
    if q == 0 {
        half <= c.0 < 2 * half && 0 <= c.1 < half
    } else if q == 1 {
        half <= c.0 < 2 * half && half <= c.1 < 2 * half
    } else if q == 2 {
        0 <= c.0 < half && half <= c.1 < 2 * half
    } else {
        0 <= c.0 < half && 0 <= c.1 < half
    }
}

/// One transformed quadrant of the Moore curve's visiting sequence.
pub open spec fn quad_cells(order: nat, q: int) -> Seq<(int, int)> {
    let half = side_len((order - 1) as nat) as int;
    hilbert_cells((order - 1) as nat).map_values(|c: (int, int)| quad_map(c, q, half))
}

/// The visiting sequence of the Moore curve of a given order: the four
/// quadrant blocks, each a contiguous run of step indices.
pub open spec fn moore_cells(order: nat) -> Seq<(int, int)> {
    quad_cells(order, 0) + quad_cells(order, 1) + quad_cells(order, 2) + quad_cells(order, 3)
}

/// A sequence mapped through one quadrant transform stays
/// duplicate-free: the transform is injective.
proof fn lemma_quad_distinct(h: Seq<(int, int)>, f: Seq<(int, int)>, q: int, half: int)
    requires
        0 <= q < 4,
        f.len() == h.len(),
        forall|j: int| 0 <= j < h.len() ==> #[trigger] f[j] == quad_map(h[j], q, half),
        pairwise_distinct(h),
    ensures
        pairwise_distinct(f),
{
    assert forall|j1: int, j2: int| 0 <= j1 < j2 < f.len() implies f[j1] != f[j2] by {
        assert(h[j1] != h[j2]);
        assert(f[j1] == quad_map(h[j1], q, half));
        assert(f[j2] == quad_map(h[j2], q, half));
    }
}

/// The quadrant transforms preserve grid adjacency: they are
/// compositions of translations and axis reflections.
proof fn lemma_quad_chain(h: Seq<(int, int)>, f: Seq<(int, int)>, q: int, half: int)
    requires
        0 <= q < 4,
        f.len() == h.len(),
        forall|j: int| 0 <= j < h.len() ==> #[trigger] f[j] == quad_map(h[j], q, half),
        is_chain(h),
    ensures
        is_chain(f),
{
    assert forall|j: int| 0 <= j < f.len() - 1 implies adjacent(#[trigger] f[j], f[j + 1]) by {
        assert(adjacent(h[j], h[j + 1]));
        assert(f[j] == quad_map(h[j], q, half));
        assert(f[j + 1] == quad_map(h[j + 1], q, half));
    }
}

/// The image of a full traversal of the half grid under quadrant `q`'s
/// transform is exactly quadrant `q`'s region.
proof fn lemma_quad_contains(h: Seq<(int, int)>, f: Seq<(int, int)>, q: int, half: int)
    requires
        0 <= q < 4,
        half >= 1,
        f.len() == h.len(),
        forall|j: int| 0 <= j < h.len() ==> #[trigger] f[j] == quad_map(h[j], q, half),
        within_grid(h, half),
        covers_grid(h, half),
    ensures
        forall|c: (int, int)| #![trigger f.contains(c)] f.contains(c) <==> quad_region(c, q, half),
{
    assert forall|c: (int, int)| f.contains(c) <==> quad_region(c, q, half) by {
        if f.contains(c) {
            let j = choose|j: int| 0 <= j < f.len() && f[j] == c;
            assert(f[j] == quad_map(h[j], q, half));
            assert(in_grid(h[j], half));
        }
        if quad_region(c, q, half) {
            let p = if q == 0 {
                (c.0 - half, c.1)
            } else if q == 1 {
                (c.0 - half, c.1 - half)
            } else if q == 2 {
                (half - 1 - c.0, 2 * half - 1 - c.1)
            } else {
                (half - 1 - c.0, half - 1 - c.1)
            };
            assert(in_grid(p, half));
            assert(h.contains(p));
            let j = choose|j: int| 0 <= j < h.len() && h[j] == p;
            assert(f[j] == quad_map(h[j], q, half));
            assert(f[j] == c);
            assert(f.contains(c));
        }
    }
}

/// Each quadrant transform carries the Hilbert curve's structure over:
/// the image visits the quadrant's region exactly once, in
/// grid-adjacent steps.
proof fn lemma_quadrant_seq(order: nat, q: int)
    requires
        order >= 1,
        0 <= q < 4,
    ensures
        ({
            let half = side_len((order - 1) as nat) as int;
            let f = quad_cells(order, q);
            &&& f.len() == half * half
            &&& pairwise_distinct(f)
            &&& is_chain(f)
            &&& forall|c: (int, int)| #![trigger f.contains(c)]
                f.contains(c) <==> quad_region(c, q, half)
            &&& f[0] == quad_map((0, 0), q, half)
            &&& f.last() == quad_map((0, half - 1), q, half)
        }),
{
    let om1 = (order - 1) as nat;
    let half = side_len(om1) as int;
    let h = hilbert_cells(om1);
    let f = quad_cells(order, q);
    lemma_hilbert_cells(om1);
    lemma_side_len_pos(om1);
    assert(h.len() >= 1) by (nonlinear_arith)
        requires
            h.len() == half * half,
            half >= 1,
    ;
    assert(f.len() == h.len());
    assert forall|j: int| 0 <= j < h.len() implies #[trigger] f[j] == quad_map(h[j], q, half) by {
    }
    lemma_quad_distinct(h, f, q, half);
    lemma_quad_chain(h, f, q, half);
    lemma_quad_contains(h, f, q, half);
    assert(f[0] == quad_map(h[0], q, half));
    assert(f.last() == quad_map(h.last(), q, half));
}

/// The Moore curve's visiting sequence is a closed loop that visits
/// every cell of its grid exactly once in grid-adjacent steps,
/// starting on the right half's bottom edge.
#[verifier::rlimit(100)]
#[verifier::spinoff_prover]
pub proof fn lemma_moore_cells(order: nat)
    requires
        order >= 2,
    ensures
        ({
            let s = moore_cells(order);
            let n = side_len(order) as int;
            let half = side_len((order - 1) as nat) as int;
            &&& s.len() == n * n
            &&& s[0] == (half, 0int)
            &&& s.last() == (half - 1, 0int)
            &&& is_chain(s)
            &&& adjacent(s.last(), s[0])
            &&& pairwise_distinct(s)
            &&& within_grid(s, n)
            &&& covers_grid(s, n)
        }),
{
    let om1 = (order - 1) as nat;
    let half = side_len(om1) as int;
    let n = side_len(order) as int;
    lemma_side_len_pos(om1);
    assert(n == 2 * half);
    let s = moore_cells(order);
    let f0 = quad_cells(order, 0);
    let f1 = quad_cells(order, 1);
    let f2 = quad_cells(order, 2);
    let f3 = quad_cells(order, 3);
    lemma_quadrant_seq(order, 0);
    lemma_quadrant_seq(order, 1);
    lemma_quadrant_seq(order, 2);
    lemma_quadrant_seq(order, 3);
    let b0 = Set::new(|c: (int, int)| quad_region(c, 0, half));
    let b1 = Set::new(|c: (int, int)| quad_region(c, 1, half));
    let b2 = Set::new(|c: (int, int)| quad_region(c, 2, half));
    let b3 = Set::new(|c: (int, int)| quad_region(c, 3, half));
    let big = Set::new(|c: (int, int)| in_grid(c, n));
    assert(b0.union(b1).union(b2).union(b3) =~= big);
    lemma_assemble(f0, f1, f2, f3, b0, b1, b2, b3, big);
    assert(s == f0 + f1 + f2 + f3);
    assert(s[0] == f0[0]);
    assert(s.len() == 4 * (half * half));
    assert(n * n == 4 * (half * half)) by (nonlinear_arith)
        requires
            n == 2 * half,
    ;
    assert forall|j: int| 0 <= j < s.len() implies in_grid(#[trigger] s[j], n) by {
        assert(s.contains(s[j]));
    }
    assert forall|c: (int, int)| in_grid(c, n) implies s.contains(c) by {
        assert(big.contains(c));
        assert(s.contains(c) <==> big.contains(c));
    }
}

} // verus!

verus! {

/// A built Moore curve: the forward visiting sequence, its inverse
/// table, and the grid metadata.  Immutable once constructed.
#[derive(Debug)]
pub struct Moore {
    /// `forward[i]` is the cell visited at step `i`.
    pub forward: Vec<(usize, usize)>,
    /// `backward[x][y]` is the step at which cell `(x, y)` is visited.
    pub backward: Vec<Vec<usize>>,
    /// The recursion depth the curve was built with.
    pub iterations: u32,
    /// Grid side length: `2^iterations`.
    pub dim_size: usize,
    /// Number of cells: `dim_size * dim_size`.
    pub total_size: usize,
}

impl Moore {
    /// The visiting sequence as unbounded integers.
    pub open spec fn cells(self) -> Seq<(int, int)> {
        cells_of(self.forward@)
    }

    /// Structural soundness: consistent metadata, a forward sequence
    /// that visits every grid cell exactly once in grid-adjacent steps
    /// and closes back onto its first cell, and a backward table that
    /// is its exact inverse.
    pub open spec fn wf(self) -> bool {
        &&& self.iterations >= 2
        &&& self.iterations <= 15
        &&& self.dim_size == side_len(self.iterations as nat)
        &&& self.total_size == self.dim_size * self.dim_size
        &&& self.forward@.len() == self.total_size
        &&& within_grid(self.cells(), self.dim_size as int)
        &&& pairwise_distinct(self.cells())
        &&& covers_grid(self.cells(), self.dim_size as int)
        &&& is_chain(self.cells())
        &&& adjacent(self.cells().last(), self.cells()[0])
        &&& inverse_table_wf(
            self.forward@,
            self.backward@,
            self.dim_size as int,
            self.total_size as int,
        )
    }

    /// Builds the Moore curve of the given order from one Hilbert
    /// curve of the previous order, or reports the precondition
    /// violation for orders below two.  The upper bound keeps
    /// `total_size = 4^iterations` within 32-bit index arithmetic.
    #[verifier::rlimit(100)]
    #[verifier::spinoff_prover]
    pub fn new(iterations: u32) -> (r: Result<Moore, CurveError>)
        requires
            iterations <= 15,
        ensures
            r is Ok <==> iterations >= 2,
            (r matches Ok(c) ==> {
                &&& c.wf()
                &&& c.iterations == iterations
                &&& c.cells() == moore_cells(iterations as nat)
            }),
            (r matches Err(e) ==> e == CurveError::OrderTooSmall),
    {
        if iterations <= 1 {
            return Err(CurveError::OrderTooSmall);
        }
        let ghost order = iterations as nat;
        proof {
            lemma_side_len_bound(order);
            lemma_side_len_pos((order - 1) as nat);
            lemma_moore_cells(order);
            lemma_hilbert_cells((order - 1) as nat);
        }
        let hilbert = Hilbert::new(iterations - 1);
        let half = hilbert.dim_size;
        let dim_size = 2 * half;
        proof {
            assert(dim_size == side_len(order));
            assert(dim_size * dim_size <= 0x4000_0000) by (nonlinear_arith)
                requires
                    dim_size <= 0x8000,
            ;
        }
        let total_size = dim_size * dim_size;
        let hsize = hilbert.total_size;
        let ghost hc = hilbert_cells((order - 1) as nat);
        let ghost halfi = half as int;
        let ghost f0 = quad_cells(order, 0);
        let ghost f1 = quad_cells(order, 1);
        let ghost f2 = quad_cells(order, 2);
        let ghost f3 = quad_cells(order, 3);

        let mut forward: Vec<(usize, usize)> = Vec::new();

        let mut i: usize = 0;
        while i < hsize
            invariant
                i <= hsize,
                hilbert.wf(),
                hilbert.cells() == hc,
                hsize == hilbert.total_size,
                halfi == half as int,
                halfi == side_len((order - 1) as nat) as int,
                half == hilbert.dim_size,
                f0 == quad_cells(order, 0),
                hc == hilbert_cells((order - 1) as nat),
                f0.len() == hc.len(),
                hc.len() == hsize,
                forward@.len() == i,
                half <= 0x8000,
                forall|j: int| 0 <= j < i ==> cells_of(forward@)[j] == f0[j],
            decreases hsize - i,
        {
            proof {
                assert(in_grid(hc[i as int], halfi));
                assert(hc[i as int] == (hilbert.forward@[i as int].0 as int, hilbert.forward@[
                    i as int
                ].1 as int));
                assert(f0[i as int] == quad_map(hc[i as int], 0, halfi));
            }
            let c = hilbert.forward[i];
            forward.push((half + c.0, c.1));
            proof {
                assert(cells_of(forward@)[i as int] == ((half + c.0) as int, c.1 as int));
            }
            i = i + 1;
        }

        let mut i: usize = 0;
        while i < hsize
            invariant
                i <= hsize,
                hilbert.wf(),
                hilbert.cells() == hc,
                hsize == hilbert.total_size,
                halfi == half as int,
                halfi == side_len((order - 1) as nat) as int,
                half == hilbert.dim_size,
                f1 == quad_cells(order, 1),
                hc == hilbert_cells((order - 1) as nat),
                f1.len() == hc.len(),
                hc.len() == hsize,
                forward@.len() == hsize + i,
                half <= 0x8000,
                forall|j: int| 0 <= j < hsize ==> cells_of(forward@)[j] == f0[j],
                forall|j: int| 0 <= j < i ==> cells_of(forward@)[hsize + j] == f1[j],
            decreases hsize - i,
        {
            proof {
                assert(in_grid(hc[i as int], halfi));
                assert(hc[i as int] == (hilbert.forward@[i as int].0 as int, hilbert.forward@[
                    i as int
                ].1 as int));
                assert(f1[i as int] == quad_map(hc[i as int], 1, halfi));
            }
            let c = hilbert.forward[i];
            forward.push((half + c.0, half + c.1));
            proof {
                assert(cells_of(forward@)[hsize + i as int] == ((half + c.0) as int, (half
                    + c.1) as int));
            }
            i = i + 1;
        }

        let mut i: usize = 0;
        while i < hsize
            invariant
                i <= hsize,
                hilbert.wf(),
                hilbert.cells() == hc,
                hsize == hilbert.total_size,
                halfi == half as int,
                halfi == side_len((order - 1) as nat) as int,
                half == hilbert.dim_size,
                f2 == quad_cells(order, 2),
                hc == hilbert_cells((order - 1) as nat),
                f2.len() == hc.len(),
                hc.len() == hsize,
                forward@.len() == 2 * hsize + i,
                half <= 0x8000,
                half >= 1,
                forall|j: int| 0 <= j < hsize ==> cells_of(forward@)[j] == f0[j],
                forall|j: int| 0 <= j < hsize ==> cells_of(forward@)[hsize + j] == f1[j],
                forall|j: int| 0 <= j < i ==> cells_of(forward@)[2 * hsize + j] == f2[j],
            decreases hsize - i,
        {
            proof {
                assert(in_grid(hc[i as int], halfi));
                assert(hc[i as int] == (hilbert.forward@[i as int].0 as int, hilbert.forward@[
                    i as int
                ].1 as int));
                assert(f2[i as int] == quad_map(hc[i as int], 2, halfi));
            }
            let c = hilbert.forward[i];
            forward.push((half - 1 - c.0, 2 * half - 1 - c.1));
            proof {
                assert(cells_of(forward@)[2 * hsize + i as int] == ((half - 1 - c.0) as int, (2
                    * half - 1 - c.1) as int));
            }
            i = i + 1;
        }

        let mut i: usize = 0;
        while i < hsize
            invariant
                i <= hsize,
                hilbert.wf(),
                hilbert.cells() == hc,
                hsize == hilbert.total_size,
                halfi == half as int,
                halfi == side_len((order - 1) as nat) as int,
                half == hilbert.dim_size,
                f3 == quad_cells(order, 3),
                hc == hilbert_cells((order - 1) as nat),
                f3.len() == hc.len(),
                hc.len() == hsize,
                forward@.len() == 3 * hsize + i,
                half <= 0x8000,
                half >= 1,
                forall|j: int| 0 <= j < hsize ==> cells_of(forward@)[j] == f0[j],
                forall|j: int| 0 <= j < hsize ==> cells_of(forward@)[hsize + j] == f1[j],
                forall|j: int| 0 <= j < hsize ==> cells_of(forward@)[2 * hsize + j] == f2[j],
                forall|j: int| 0 <= j < i ==> cells_of(forward@)[3 * hsize + j] == f3[j],
            decreases hsize - i,
        {
            proof {
                assert(in_grid(hc[i as int], halfi));
                assert(hc[i as int] == (hilbert.forward@[i as int].0 as int, hilbert.forward@[
                    i as int
                ].1 as int));
                assert(f3[i as int] == quad_map(hc[i as int], 3, halfi));
            }
            let c = hilbert.forward[i];
            forward.push((half - 1 - c.0, half - 1 - c.1));
            proof {
                assert(cells_of(forward@)[3 * hsize + i as int] == ((half - 1 - c.0) as int, (
                half - 1 - c.1) as int));
            }
            i = i + 1;
        }

        proof {
            assert(4 * hsize == total_size) by (nonlinear_arith)
                requires
                    hsize == half * half,
                    total_size == dim_size * dim_size,
                    dim_size == 2 * half,
            ;
            assert(f0.len() == hsize && f1.len() == hsize && f2.len() == hsize && f3.len()
                == hsize);
            assert(moore_cells(order) == f0 + f1 + f2 + f3);
            assert forall|j: int| 0 <= j < 4 * hsize implies cells_of(forward@)[j] == (f0 + f1
                + f2 + f3)[j] by {
                if j < hsize {
                } else if j < 2 * hsize {
                    assert(cells_of(forward@)[hsize + (j - hsize)] == f1[j - hsize]);
                } else if j < 3 * hsize {
                    assert(cells_of(forward@)[2 * hsize + (j - 2 * hsize)] == f2[j - 2 * hsize]);
                } else {
                    assert(cells_of(forward@)[3 * hsize + (j - 3 * hsize)] == f3[j - 3 * hsize]);
                }
            }
            assert(cells_of(forward@) =~= moore_cells(order));
        }
        let backward = invert_forward(&forward, dim_size);
        Ok(Moore { forward, backward, iterations, dim_size, total_size })
    }
}

} // verus!

verus! {

impl Moore {
    /// The coordinate at step `i`, absent beyond the end of the curve.
    pub open spec fn spec_forward(self, i: int) -> Option<(usize, usize)> {
        if 0 <= i < self.total_size {
            Some(self.forward@[i])
        } else {
            None
        }
    }

    /// The step index of cell `(x, y)`, absent off the grid.
    pub open spec fn spec_backward(self, x: int, y: int) -> Option<usize> {
        if 0 <= x < self.dim_size && 0 <= y < self.dim_size {
            Some(self.backward@[x]@[y])
        } else {
            None
        }
    }

    /// The coordinate at step `i` taken modulo the curve's size, the
    /// index wrapped into `[0, total_size)` by a true mathematical
    /// modulo.
    pub open spec fn spec_forward_circular(self, i: int) -> (usize, usize) {
        self.forward@[i % (self.total_size as int)]
    }

    /// The coordinate visited at the given step, or `None` when the
    /// step index lies beyond the curve.
    pub fn forward(&self, index: usize) -> (r: Option<(usize, usize)>)
        requires
            self.wf(),
        ensures
            r == self.spec_forward(index as int),
            index < self.total_size <==> r is Some,
    {
        if index < self.total_size {
            Some(self.forward[index])
        } else {
            None
        }
    }

    /// Elementwise [`Self::forward`], preserving order and absences.
    pub fn forward_slice(&self, indices: &[usize]) -> (r: Vec<Option<(usize, usize)>>)
        requires
            self.wf(),
        ensures
            r@.len() == indices@.len(),
            forall|j: int|
                0 <= j < indices@.len() ==> r@[j] == self.spec_forward(#[trigger] indices@[j] as int),
    {
        let mut r: Vec<Option<(usize, usize)>> = Vec::new();
        let mut j: usize = 0;
        while j < indices.len()
            invariant
                j <= indices@.len(),
                self.wf(),
                r@.len() == j,
                forall|k: int|
                    0 <= k < j ==> r@[k] == self.spec_forward(#[trigger] indices@[k] as int),
            decreases indices@.len() - j,
        {
            r.push(self.forward(indices[j]));
            j = j + 1;
        }
        r
    }

    /// The coordinate at the given step of the endless circular walk
    /// along the loop: the index is wrapped into `[0, total_size)`
    /// with a true mathematical modulo, so negative steps walk
    /// backwards from the start.  Never absent.
    #[verifier::rlimit(100)]
    pub fn forward_circular(&self, index: isize) -> (r: (usize, usize))
        requires
            self.wf(),
        ensures
            r == self.spec_forward_circular(index as int),
    {
        proof {
            lemma_side_len_bound(self.iterations as nat);
            lemma_side_len_pos(self.iterations as nat);
            assert(1 <= self.total_size <= 0x4000_0000) by (nonlinear_arith)
                requires
                    1 <= self.dim_size <= 0x8000,
                    self.total_size == self.dim_size * self.dim_size,
            ;
        }
        let total = self.total_size;
        let index_circ = if index >= 0 {
            (index as usize) % total
        } else {
            let k = ((-(index + 1)) as usize) % total;
            proof {
                let ts_i = total as int;
                let idx = index as int;
                let a = -idx - 1;
                vstd::arithmetic::div_mod::lemma_mod_bound(a, ts_i);
                vstd::arithmetic::div_mod::lemma_fundamental_div_mod(a, ts_i);
                vstd::arithmetic::div_mod::lemma_mod_multiples_vanish(a / ts_i + 1, idx, ts_i);
                assert(ts_i * (a / ts_i + 1) + idx == ts_i - 1 - a % ts_i) by (nonlinear_arith)
                    requires
                        a == ts_i * (a / ts_i) + a % ts_i,
                        idx == -a - 1,
                ;
                vstd::arithmetic::div_mod::lemma_small_mod((ts_i - 1 - a % ts_i) as nat, ts_i as nat);
            }
            total - 1 - k
        };
        self.forward[index_circ]
    }

    /// Elementwise [`Self::forward_circular`], preserving order.
    pub fn forward_circular_slice(&self, indices: &[isize]) -> (r: Vec<(usize, usize)>)
        requires
            self.wf(),
        ensures
            r@.len() == indices@.len(),
            forall|j: int|
                0 <= j < indices@.len() ==> r@[j] == self.spec_forward_circular(
                    #[trigger] indices@[j] as int,
                ),
    {
        let mut r: Vec<(usize, usize)> = Vec::new();
        let mut j: usize = 0;
        while j < indices.len()
            invariant
                j <= indices@.len(),
                self.wf(),
                r@.len() == j,
                forall|k: int|
                    0 <= k < j ==> r@[k] == self.spec_forward_circular(
                        #[trigger] indices@[k] as int,
                    ),
            decreases indices@.len() - j,
        {
            r.push(self.forward_circular(indices[j]));
            j = j + 1;
        }
        r
    }

    /// The step at which the given cell is visited, or `None` when the
    /// cell lies off the grid.
    pub fn backward(&self, index_x: usize, index_y: usize) -> (r: Option<usize>)
        requires
            self.wf(),
        ensures
            r == self.spec_backward(index_x as int, index_y as int),
            (index_x < self.dim_size && index_y < self.dim_size) <==> r is Some,
    {
        if index_x < self.dim_size && index_y < self.dim_size {
            Some(self.backward[index_x][index_y])
        } else {
            None
        }
    }

    /// Elementwise [`Self::backward`], preserving order and absences.
    pub fn backward_slice(&self, indices: &[(usize, usize)]) -> (r: Vec<Option<usize>>)
        requires
            self.wf(),
        ensures
            r@.len() == indices@.len(),
            forall|j: int|
                0 <= j < indices@.len() ==> r@[j] == self.spec_backward(
                    (#[trigger] indices@[j]).0 as int,
                    indices@[j].1 as int,
                ),
    {
        let mut r: Vec<Option<usize>> = Vec::new();
        let mut j: usize = 0;
        while j < indices.len()
            invariant
                j <= indices@.len(),
                self.wf(),
                r@.len() == j,
                forall|k: int|
                    0 <= k < j ==> r@[k] == self.spec_backward(
                        (#[trigger] indices@[k]).0 as int,
                        indices@[k].1 as int,
                    ),
            decreases indices@.len() - j,
        {
            let (x, y) = indices[j];
            r.push(self.backward(x, y));
            j = j + 1;
        }
        r
    }
}

} // verus!

verus! {

/// A run of `n` empty slots.
fn none_slots<T>(n: usize) -> (r: Vec<Option<T>>)
    ensures
        r@.len() == n,
        forall|k: int| 0 <= k < n ==> (#[trigger] r@[k]) is None,
{
    let mut r: Vec<Option<T>> = Vec::new();
    let mut i: usize = 0;
    while i < n
        invariant
            i <= n,
            r@.len() == i,
            forall|k: int| 0 <= k < i ==> (#[trigger] r@[k]) is None,
        decreases n - i,
    {
        r.push(None);
        i = i + 1;
    }
    r
}

/// Moves the content of slot `j` out, leaving the slot empty.
fn take_at<T>(v: &mut Vec<Option<T>>, j: usize) -> (r: Option<T>)
    requires
        j < old(v)@.len(),
    ensures
        r == old(v)@[j as int],
        final(v)@ == old(v)@.update(j as int, None::<T>),
{
    let r = v.remove(j);
    v.insert(j, None);
    proof {
        assert(final(v)@ =~= old(v)@.update(j as int, None::<T>));
    }
    r
}

impl Moore {
    /// Spreads a step-indexed sequence of values over the grid: cell
    /// `(x, y)` receives the value whose step index visits it.
    /// Absent when the input length is not exactly the curve's size.
    #[verifier::rlimit(100)]
    #[verifier::spinoff_prover]
    pub fn forward_field<T>(&self, field: Vec<T>) -> (r: Option<Vec<Vec<T>>>)
        requires
            self.wf(),
        ensures
            r is Some <==> field@.len() == self.total_size,
            (r matches Some(g) ==> {
                &&& g@.len() == self.dim_size
                &&& forall|x: int|
                    0 <= x < self.dim_size ==> (#[trigger] g@[x])@.len() == self.dim_size
                &&& forall|i: int|
                    0 <= i < self.total_size ==> g@[(#[trigger] self.forward@[i]).0 as int]@[
                        self.forward@[i].1 as int
                    ] == field@[i]
            }),
    {
        if field.len() != self.total_size {
            return None;
        }
        let total = self.total_size;
        let dim = self.dim_size;
        let ghost field0 = field@;
        let mut field = field;
        let mut slots: Vec<Option<T>> = none_slots(total);
        let mut i: usize = total;
        while i > 0
            invariant
                i <= total,
                field@ == field0.subrange(0, i as int),
                field0.len() == total,
                slots@.len() == total,
                forall|k: int| 0 <= k < i ==> (#[trigger] slots@[k]) is None,
                forall|k: int| i <= k < total ==> (#[trigger] slots@[k]) == Some(field0[k]),
            decreases i,
        {
            i = i - 1;
            let v = match field.pop() {
                Some(v) => v,
                None => vstd::pervasive::unreached(),
            };
            slots[i] = Some(v);
            proof {
                assert(field@ =~= field0.subrange(0, i as int));
            }
        }
        let mut grid: Vec<Vec<T>> = Vec::new();
        let mut x: usize = 0;
        while x < dim
            invariant
                x <= dim,
                self.forward@.len() == total,
                within_grid(cells_of(self.forward@), dim as int),
                inverse_table_wf(self.forward@, self.backward@, dim as int, total as int),
                dim == self.dim_size,
                total == self.total_size,
                field0.len() == total,
                slots@.len() == total,
                grid@.len() == x,
                forall|x2: int| 0 <= x2 < x ==> (#[trigger] grid@[x2])@.len() == dim,
                forall|x2: int, y2: int|
                    0 <= x2 < x && 0 <= y2 < dim ==> #[trigger] grid@[x2]@[y2] == field0[
                        self.backward@[x2]@[y2] as int
                    ],
                forall|k: int|
                    0 <= k < total ==> (#[trigger] slots@[k]) == if (self.forward@[k].0 as int)
                        < x {
                        None
                    } else {
                        Some(field0[k])
                    },
            decreases dim - x,
        {
            let mut row: Vec<T> = Vec::new();
            let mut y: usize = 0;
            while y < dim
                invariant
                    y <= dim,
                    x < dim,
                    self.forward@.len() == total,
                    within_grid(cells_of(self.forward@), dim as int),
                    inverse_table_wf(self.forward@, self.backward@, dim as int, total as int),
                    dim == self.dim_size,
                    total == self.total_size,
                    field0.len() == total,
                    slots@.len() == total,
                    row@.len() == y,
                    forall|y2: int|
                        0 <= y2 < y ==> #[trigger] row@[y2] == field0[self.backward@[
                            x as int
                        ]@[y2] as int],
                    forall|k: int|
                        0 <= k < total ==> (#[trigger] slots@[k]) == if ((self.forward@[k].0
                            as int) < x || (self.forward@[k].0 == x && (self.forward@[k].1
                            as int) < y)) {
                            None
                        } else {
                            Some(field0[k])
                        },
                decreases dim - y,
            {
                let j = self.backward[x][y];
                proof {
                    assert(self.forward@[j as int] == (x as usize, y as usize));
                }
                let v = match take_at(&mut slots, j) {
                    Some(v) => v,
                    None => vstd::pervasive::unreached(),
                };
                row.push(v);
                proof {
                    assert forall|k: int|
                        0 <= k < total implies (#[trigger] slots@[k]) == if ((self.forward@[
                        k
                    ].0 as int) < x || (self.forward@[k].0 == x && (self.forward@[k].1 as int) < y
                        + 1)) {
                        None
                    } else {
                        Some(field0[k])
                    } by {
                        if k != j && self.forward@[k].0 == x && self.forward@[k].1 == y {
                            assert(self.backward@[self.forward@[k].0 as int]@[self.forward@[
                                k
                            ].1 as int] == k);
                        }
                    }
                }
                y = y + 1;
            }
            proof {
                assert forall|k: int| 0 <= k < total implies ((self.forward@[k].0 as int) < x
                    + 1) == (((#[trigger] self.forward@[k]).0 as int) < x || (self.forward@[
                k
                ].0 == x && (self.forward@[k].1 as int) < dim)) by {
                    assert(in_grid(cells_of(self.forward@)[k], dim as int));
                }
            }
            grid.push(row);
            x = x + 1;
        }
        proof {
            assert forall|i2: int|
                0 <= i2 < total implies grid@[(#[trigger] self.forward@[i2]).0 as int]@[
                self.forward@[i2].1 as int
            ] == field0[i2] by {
                let fx = self.forward@[i2].0 as int;
                let fy = self.forward@[i2].1 as int;
                assert(in_grid(cells_of(self.forward@)[i2], dim as int));
                assert(grid@[fx]@[fy] == field0[self.backward@[fx]@[fy] as int]);
                assert(self.backward@[fx]@[fy] == i2);
            }
        }
        Some(grid)
    }
}

} // verus!

verus! {

impl Moore {
    /// Gathers a fully populated grid back into step order: the exact
    /// inverse of [`Self::forward_field`].  Entry `i` of the result is
    /// the grid value at the cell visited at step `i`, so the value at
    /// `(x, y)` lands at index `backward[x][y]`.
    #[verifier::rlimit(100)]
    #[verifier::spinoff_prover]
    pub fn backward_grid<T>(&self, grid: Vec<Vec<T>>) -> (r: Vec<T>)
        requires
            self.wf(),
            grid@.len() == self.dim_size,
            forall|x: int| 0 <= x < self.dim_size ==> (#[trigger] grid@[x])@.len() == self.dim_size,
        ensures
            r@.len() == self.total_size,
            forall|i: int|
                0 <= i < self.total_size ==> r@[i] == grid@[(#[trigger] self.forward@[i]).0
                    as int]@[self.forward@[i].1 as int],
    {
        let total = self.total_size;
        let dim = self.dim_size;
        let ghost grid0 = grid@;
        let mut grid = grid;
        let mut slots: Vec<Option<T>> = none_slots(total);
        proof {
            assert forall|k: int| 0 <= k < total implies !(((#[trigger] self.forward@[k]).0
                as int) >= dim) by {
                assert(in_grid(cells_of(self.forward@)[k], dim as int));
            }
            assert(grid@ =~= grid0.subrange(0, dim as int));
        }
        let mut x: usize = dim;
        while x > 0
            invariant
                x <= dim,
                self.forward@.len() == total,
                within_grid(cells_of(self.forward@), dim as int),
                inverse_table_wf(self.forward@, self.backward@, dim as int, total as int),
                dim == self.dim_size,
                total == self.total_size,
                grid0.len() == dim,
                forall|x2: int| 0 <= x2 < dim ==> (#[trigger] grid0[x2])@.len() == dim,
                grid@ == grid0.subrange(0, x as int),
                slots@.len() == total,
                forall|k: int|
                    0 <= k < total ==> (#[trigger] slots@[k]) == if (self.forward@[k].0 as int)
                        >= x {
                        Some(grid0[self.forward@[k].0 as int]@[self.forward@[k].1 as int])
                    } else {
                        None
                    },
            decreases x,
        {
            x = x - 1;
            let mut rowv = match grid.pop() {
                Some(r) => r,
                None => vstd::pervasive::unreached(),
            };
            proof {
                assert(rowv@ == grid0[x as int]@);
                assert(grid@ =~= grid0.subrange(0, x as int));
            }
            proof {
                assert forall|k: int| 0 <= k < total implies (((self.forward@[k].0 as int) > x)
                    == (((#[trigger] self.forward@[k]).0 as int) > x || (self.forward@[k].0 == x
                    && (self.forward@[k].1 as int) >= dim))) by {
                    assert(in_grid(cells_of(self.forward@)[k], dim as int));
                }
            }
            let mut y: usize = dim;
            while y > 0
                invariant
                    y <= dim,
                    x < dim,
                    self.forward@.len() == total,
                    within_grid(cells_of(self.forward@), dim as int),
                    inverse_table_wf(self.forward@, self.backward@, dim as int, total as int),
                    dim == self.dim_size,
                    total == self.total_size,
                    grid0.len() == dim,
                    forall|x2: int| 0 <= x2 < dim ==> (#[trigger] grid0[x2])@.len() == dim,
                    rowv@ == grid0[x as int]@.subrange(0, y as int),
                    slots@.len() == total,
                    forall|k: int|
                        0 <= k < total ==> (#[trigger] slots@[k]) == if ((self.forward@[k].0
                            as int) > x || (self.forward@[k].0 == x && (self.forward@[k].1
                            as int) >= y)) {
                            Some(grid0[self.forward@[k].0 as int]@[self.forward@[k].1 as int])
                        } else {
                            None
                        },
                decreases y,
            {
                y = y - 1;
                let v = match rowv.pop() {
                    Some(v) => v,
                    None => vstd::pervasive::unreached(),
                };
                proof {
                    assert(v == grid0[x as int]@[y as int]);
                    assert(rowv@ =~= grid0[x as int]@.subrange(0, y as int));
                }
                let j = self.backward[x][y];
                proof {
                    assert(self.forward@[j as int] == (x as usize, y as usize));
                }
                slots[j] = Some(v);
                proof {
                    assert forall|k: int|
                        0 <= k < total implies (#[trigger] slots@[k]) == if ((self.forward@[
                        k
                    ].0 as int) > x || (self.forward@[k].0 == x && (self.forward@[k].1 as int)
                        >= y)) {
                        Some(grid0[self.forward@[k].0 as int]@[self.forward@[k].1 as int])
                    } else {
                        None
                    } by {
                        if k != j && self.forward@[k].0 == x && self.forward@[k].1 == y {
                            assert(self.backward@[self.forward@[k].0 as int]@[self.forward@[
                                k
                            ].1 as int] == k);
                        }
                    }
                }
            }
        }
        let mut out: Vec<T> = Vec::new();
        let mut i: usize = 0;
        while i < total
            invariant
                i <= total,
                self.forward@.len() == total,
                total == self.total_size,
                slots@.len() == total,
                out@.len() == i,
                forall|i2: int|
                    0 <= i2 < i ==> #[trigger] out@[i2] == grid0[self.forward@[i2].0 as int]@[
                        self.forward@[i2].1 as int
                    ],
                forall|k: int|
                    i <= k < total ==> (#[trigger] slots@[k]) == Some(
                        grid0[self.forward@[k].0 as int]@[self.forward@[k].1 as int],
                    ),
            decreases total - i,
        {
            let v = match take_at(&mut slots, i) {
                Some(v) => v,
                None => vstd::pervasive::unreached(),
            };
            out.push(v);
            i = i + 1;
        }
        out
    }
}

} // verus!

verus! {

/// Law: the forward sequence is a permutation of the whole grid —
/// every cell of the `dim_size x dim_size` grid is visited exactly
/// once.
pub proof fn lemma_forward_permutation(m: Moore)
    requires
        m.wf(),
    ensures
        pairwise_distinct(m.cells()),
        covers_grid(m.cells(), m.dim_size as int),
        within_grid(m.cells(), m.dim_size as int),
{
}

/// Law: the backward table inverts the forward map — looking up the
/// cell visited at any valid step yields that step back.
pub proof fn lemma_backward_inverts_forward(m: Moore, i: int)
    requires
        m.wf(),
        0 <= i < m.total_size,
    ensures
        m.spec_forward(i) == Some(m.forward@[i]),
        m.spec_backward(m.forward@[i].0 as int, m.forward@[i].1 as int) == Some(
            m.backward@[m.forward@[i].0 as int]@[m.forward@[i].1 as int],
        ),
        m.backward@[m.forward@[i].0 as int]@[m.forward@[i].1 as int] == i,
{
    assert(in_grid(m.cells()[i], m.dim_size as int));
    assert(m.cells()[i] == (m.forward@[i].0 as int, m.forward@[i].1 as int));
}

/// Law: consecutive steps visit grid-adjacent cells.
pub proof fn lemma_adjacency(m: Moore, i: int)
    requires
        m.wf(),
        0 <= i < m.total_size - 1,
    ensures
        adjacent(m.cells()[i], m.cells()[i + 1]),
{
}

/// Law: the Moore curve is a closed loop — its last cell is
/// grid-adjacent to its first.
pub proof fn lemma_loop_closed(m: Moore)
    requires
        m.wf(),
    ensures
        adjacent(m.cells().last(), m.cells()[0]),
{
}

/// Law: circular lookup is periodic — shifting the step index by any
/// whole number of laps lands on the same cell.
pub proof fn lemma_circular_periodic(m: Moore, i: int, k: int)
    requires
        m.wf(),
    ensures
        m.spec_forward_circular(i + k * (m.total_size as int)) == m.spec_forward_circular(i),
{
    crate::curve::lemma_side_len_pos(m.iterations as nat);
    assert(m.total_size >= 1) by (nonlinear_arith)
        requires
            m.total_size == m.dim_size * m.dim_size,
            m.dim_size >= 1,
    ;
    let ts = m.total_size as int;
    vstd::arithmetic::div_mod::lemma_mod_multiples_vanish(k, i, ts);
    assert(i + k * ts == ts * k + i) by (nonlinear_arith);
}

/// Law: gathering a spread field back into step order returns the
/// original values — `backward_grid` inverts `forward_field`.  The
/// grid and the gathered sequence are characterized exactly as the two
/// conversions promise them.
pub proof fn lemma_field_round_trip<T>(m: Moore, values: Seq<T>, grid: Seq<Vec<T>>, back: Seq<T>)
    requires
        m.wf(),
        values.len() == m.total_size,
        grid.len() == m.dim_size,
        forall|i: int|
            0 <= i < m.total_size ==> grid[(#[trigger] m.forward@[i]).0 as int]@[m.forward@[
                i
            ].1 as int] == values[i],
        back.len() == m.total_size,
        forall|i: int|
            0 <= i < m.total_size ==> #[trigger] back[i] == grid[m.forward@[i].0 as int]@[
                m.forward@[i].1 as int
            ],
    ensures
        back == values,
{
    assert(back =~= values);
}

} // verus!

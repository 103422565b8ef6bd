//! Shared vocabulary of both curve kinds: grid geometry, the visiting
//! sequence seen as a mathematical object, and the construction of the
//! inverse (coordinate to step index) table.

use vstd::prelude::*;

verus! {

/// Grid side length of a curve of the given order: `2^order`.
pub open spec fn side_len(order: nat) -> nat
    decreases order,
{
    if order == 0 {
        1
    } else {
        2 * side_len((order - 1) as nat)
    }
}

/// `side_len` never vanishes.
pub proof fn lemma_side_len_pos(order: nat)
    ensures
        side_len(order) >= 1,
    decreases order,
{
    if order > 0 {
        lemma_side_len_pos((order - 1) as nat);
    }
}

/// `side_len` grows with the order.
pub proof fn lemma_side_len_mono(a: nat, b: nat)
    requires
        a <= b,
    ensures
        side_len(a) <= side_len(b),
    decreases b,
{
    if a < b {
        lemma_side_len_mono(a, (b - 1) as nat);
        lemma_side_len_pos((b - 1) as nat);
    }
}

/// Orders up to 15 keep the side length within `2^15`, so all index
/// arithmetic below fits comfortably in 32 bits.
pub proof fn lemma_side_len_bound(order: nat)
    requires
        order <= 15,
    ensures
        side_len(order) <= 0x8000,
{
    lemma_side_len_mono(order, 15);
    assert(side_len(15) == 0x8000) by {
        reveal_with_fuel(side_len, 16);
    }
}

/// Absolute value of an integer.
pub open spec fn abs_of(v: int) -> int {
    if v >= 0 {
        v
    } else {
        -v
    }
}

/// Manhattan distance between two grid cells.
pub open spec fn manhattan(a: (int, int), b: (int, int)) -> int {
    abs_of(a.0 - b.0) + abs_of(a.1 - b.1)
}

/// Two cells are grid-adjacent when they differ by one unit step.
pub open spec fn adjacent(a: (int, int), b: (int, int)) -> bool {
    manhattan(a, b) == 1
}

/// A cell lies on the `side x side` grid.
pub open spec fn in_grid(c: (int, int), side: int) -> bool {
    0 <= c.0 < side && 0 <= c.1 < side
}

/// Every consecutive pair of the sequence is grid-adjacent.
pub open spec fn is_chain(s: Seq<(int, int)>) -> bool {
    forall|j: int| 0 <= j < s.len() - 1 ==> adjacent(#[trigger] s[j], s[j + 1])
}

/// No cell occurs twice in the sequence.
pub open spec fn pairwise_distinct(s: Seq<(int, int)>) -> bool {
    forall|j1: int, j2: int| 0 <= j1 < j2 < s.len() ==> s[j1] != s[j2]
}

/// Every cell of the `side x side` grid occurs in the sequence.
pub open spec fn covers_grid(s: Seq<(int, int)>, side: int) -> bool {
    forall|c: (int, int)| in_grid(c, side) ==> s.contains(c)
}

/// Every cell of the sequence lies on the `side x side` grid.
pub open spec fn within_grid(s: Seq<(int, int)>, side: int) -> bool {
    forall|j: int| 0 <= j < s.len() ==> in_grid(s[j], side)
}

/// The visiting sequence of an executable curve, as unbounded integers.
pub open spec fn cells_of(f: Seq<(usize, usize)>) -> Seq<(int, int)> {
    f.map_values(|c: (usize, usize)| (c.0 as int, c.1 as int))
}

/// Membership distributes over sequence concatenation.
pub proof fn lemma_concat_contains<A>(a: Seq<A>, b: Seq<A>, c: A)
    ensures
        (a + b).contains(c) <==> a.contains(c) || b.contains(c),
{
    if a.contains(c) {
        let i = choose|i: int| 0 <= i < a.len() && a[i] == c;
        assert((a + b)[i] == c);
    }
    if b.contains(c) {
        let i = choose|i: int| 0 <= i < b.len() && b[i] == c;
        assert((a + b)[a.len() + i] == c);
    }
    if (a + b).contains(c) {
        let i = choose|i: int| 0 <= i < (a + b).len() && (a + b)[i] == c;
        if i < a.len() {
            assert(a[i] == c);
        } else {
            assert(b[i - a.len()] == c);
        }
    }
}

/// The error reported when a curve's structural preconditions are
/// violated at construction time.
#[derive(Clone, Copy, Debug, PartialEq, Eq, Structural)]
pub enum CurveError {
    /// A Moore curve was requested with an order below two.
    OrderTooSmall,
}

/// Computes `2^order` exactly.
pub fn pow2_usize(order: u32) -> (r: usize)
    requires
        side_len(order as nat) <= 0x8000,
    ensures
        r == side_len(order as nat),
{
    let mut r: usize = 1;
    let mut k: u32 = 0;
    while k < order
        invariant
            k <= order,
            r == side_len(k as nat),
            side_len(order as nat) <= 0x8000,
        decreases order - k,
    {
        proof {
            lemma_side_len_mono((k + 1) as nat, order as nat);
        }
        r = 2 * r;
        k = k + 1;
    }
    r
}

} // verus!

verus! {

/// The backward table is the exact inverse of the forward sequence:
/// `backward[x][y] == i` exactly when `forward[i] == (x, y)`.
pub open spec fn inverse_table_wf(
    forward: Seq<(usize, usize)>,
    backward: Seq<Vec<usize>>,
    side: int,
    size: int,
) -> bool {
    &&& backward.len() == side
    &&& forall|x: int| 0 <= x < side ==> (#[trigger] backward[x])@.len() == side
    &&& forall|i: int|
        0 <= i < size ==> backward[(#[trigger] forward[i]).0 as int]@[forward[i].1 as int] == i
    &&& forall|x: int, y: int|
        0 <= x < side && 0 <= y < side ==> ((#[trigger] backward[x]@[y]) < size && forward[
            backward[x]@[y] as int
        ] == (x as usize, y as usize))
}

/// A freshly zeroed `side x side` table.
fn zero_table(side: usize) -> (r: Vec<Vec<usize>>)
    ensures
        r@.len() == side,
        forall|x: int| 0 <= x < side ==> (#[trigger] r@[x])@.len() == side,
{
    let mut table: Vec<Vec<usize>> = Vec::new();
    let mut x: usize = 0;
    while x < side
        invariant
            x <= side,
            table@.len() == x,
            forall|k: int| 0 <= k < x ==> (#[trigger] table@[k])@.len() == side,
        decreases side - x,
    {
        let mut row: Vec<usize> = Vec::new();
        let mut y: usize = 0;
        while y < side
            invariant
                y <= side,
                row@.len() == y,
            decreases side - y,
        {
            row.push(0);
            y = y + 1;
        }
        table.push(row);
        x = x + 1;
    }
    table
}

/// Builds the backward table of a forward sequence that visits every
/// cell of the grid exactly once.
pub fn invert_forward(forward: &Vec<(usize, usize)>, side: usize) -> (r: Vec<Vec<usize>>)
    requires
        forward@.len() == side * side,
        within_grid(cells_of(forward@), side as int),
        pairwise_distinct(cells_of(forward@)),
        covers_grid(cells_of(forward@), side as int),
    ensures
        inverse_table_wf(forward@, r@, side as int, forward@.len() as int),
{
    let size = forward.len();
    let mut backward = zero_table(side);
    let mut i: usize = 0;
    while i < size
        invariant
            i <= size,
            size == forward@.len(),
            forward@.len() == side * side,
            within_grid(cells_of(forward@), side as int),
            pairwise_distinct(cells_of(forward@)),
            backward@.len() == side,
            forall|k: int| 0 <= k < side ==> (#[trigger] backward@[k])@.len() == side,
            forall|j: int|
                0 <= j < i ==> backward@[(#[trigger] forward@[j]).0 as int]@[forward@[j].1
                    as int] == j,
        decreases size - i,
    {
        proof {
            assert(cells_of(forward@)[i as int] == (forward@[i as int].0 as int, forward@[
                i as int
            ].1 as int));
            assert(in_grid(cells_of(forward@)[i as int], side as int));
        }
        let (cx, cy) = forward[i];
        backward[cx][cy] = i;
        proof {
            assert forall|j: int|
                0 <= j < i + 1 implies backward@[(#[trigger] forward@[j]).0 as int]@[forward@[
                j
            ].1 as int] == j by {
                if j < i {
                    assert(cells_of(forward@)[j] != cells_of(forward@)[i as int]);
                    assert(cells_of(forward@)[j] == (forward@[j].0 as int, forward@[j].1 as int));
                }
            }
        }
        i = i + 1;
    }
    proof {
        assert forall|x: int, y: int|
            0 <= x < side && 0 <= y < side implies ((#[trigger] backward@[x]@[y]) < size
            && forward@[backward@[x]@[y] as int] == (x as usize, y as usize)) by {
            let c = (x, y);
            assert(in_grid(c, side as int));
            assert(cells_of(forward@).contains(c));
            let k = choose|k: int|
                0 <= k < cells_of(forward@).len() && cells_of(forward@)[k] == c;
            assert(cells_of(forward@)[k] == (forward@[k].0 as int, forward@[k].1 as int));
            assert(backward@[forward@[k].0 as int]@[forward@[k].1 as int] == k);
        }
    }
    backward
}

} // verus!

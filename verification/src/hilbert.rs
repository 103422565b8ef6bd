//! The Hilbert curve: a space-filling path over a `2^order x 2^order`
//! grid, built by a recursive turtle traversal.
//!
//! The mathematical model is [`hilbert_trace`], a direct transcription
//! of the traversal; [`lemma_hilbert_trace`] establishes, by induction
//! over the recursion, that the traversal walks each square block
//! exactly once in grid-adjacent steps.  The executable builder is then
//! proved to produce exactly the modelled sequence.

use vstd::prelude::*;

use crate::curve::{
    adjacent, cells_of, covers_grid, in_grid, is_chain, lemma_concat_contains, lemma_side_len_bound,
    lemma_side_len_pos, pairwise_distinct, pow2_usize, side_len, within_grid,
};
use crate::turtle::{turned_left, turned_right, Direction, GridTurtle, TurtleModel};

verus! {

/// The cells recorded by one recursive traversal call, together with
/// the turtle state it leaves behind.  The starting cell itself is not
/// part of the recording; each recorded cell is the turtle's position
/// directly after one of its unit steps.
pub open spec fn hilbert_trace(level: nat, invert: bool, t: TurtleModel) -> (Seq<(int, int)>, TurtleModel)
    decreases level,
{
    if level == 0 {
        (Seq::empty(), t)
    } else {
        let t1 = t.turned_right(invert);
        let r1 = hilbert_trace((level - 1) as nat, !invert, t1);
        let t3 = r1.1.stepped();
        let t4 = t3.turned_left(invert);
        let r2 = hilbert_trace((level - 1) as nat, invert, t4);
        let t6 = r2.1.stepped();
        let r3 = hilbert_trace((level - 1) as nat, invert, t6);
        let t8 = r3.1.turned_left(invert);
        let t9 = t8.stepped();
        let r4 = hilbert_trace((level - 1) as nat, !invert, t9);
        let t11 = r4.1.turned_right(invert);
        (
            r1.0 + seq![t3.pos()] + r2.0 + seq![t6.pos()] + r3.0 + seq![t9.pos()] + r4.0,
            t11,
        )
    }
}

/// The full visiting sequence of a traversal: the starting cell
/// followed by everything the traversal records.
pub open spec fn trace_full(level: nat, invert: bool, t: TurtleModel) -> Seq<(int, int)> {
    seq![t.pos()] + hilbert_trace(level, invert, t).0
}

/// The visiting sequence of the Hilbert curve of a given order:
/// the traversal started at the origin facing up, without mirroring.
pub open spec fn hilbert_cells(order: nat) -> Seq<(int, int)> {
    trace_full(order, false, TurtleModel { x: 0, y: 0, dir: Direction::Up })
}

/// Sign of the sideways extent of a traversal's block: `+1` when the
/// block lies towards positive x from the start, `-1` otherwise.
pub open spec fn xsign(d: Direction, invert: bool) -> int {
    match d {
        Direction::Up => if invert { -1 } else { 1 },
        Direction::Down => if invert { 1 } else { -1 },
        Direction::Left => -1,
        Direction::Right => 1,
    }
}

/// Sign of the vertical extent of a traversal's block.
pub open spec fn ysign(d: Direction, invert: bool) -> int {
    match d {
        Direction::Up => 1,
        Direction::Down => -1,
        Direction::Left => if invert { -1 } else { 1 },
        Direction::Right => if invert { 1 } else { -1 },
    }
}

/// Horizontal displacement of a turtle that walks `k` unit steps
/// along direction `d`.
pub open spec fn shift_x(d: Direction, k: int) -> int {
    match d {
        Direction::Up => 0,
        Direction::Down => 0,
        Direction::Left => -k,
        Direction::Right => k,
    }
}

/// Vertical displacement of a turtle that walks `k` unit steps
/// along direction `d`.
pub open spec fn shift_y(d: Direction, k: int) -> int {
    match d {
        Direction::Up => k,
        Direction::Down => -k,
        Direction::Left => 0,
        Direction::Right => 0,
    }
}

/// The `n x n` block of cells that a traversal of side `n`, started at
/// `p` facing `d` with mirroring `invert`, visits: an axis-aligned
/// square with `p` in one corner, extending along the signs above.
pub open spec fn in_block(c: (int, int), p: (int, int), d: Direction, invert: bool, n: int) -> bool {
    &&& if xsign(d, invert) == 1 {
        p.0 <= c.0 < p.0 + n
    } else {
        p.0 - n < c.0 <= p.0
    }
    &&& if ysign(d, invert) == 1 {
        p.1 <= c.1 < p.1 + n
    } else {
        p.1 - n < c.1 <= p.1
    }
}

/// The block as a set of cells.
pub open spec fn block_set(p: (int, int), d: Direction, invert: bool, n: int) -> Set<(int, int)> {
    Set::new(|c: (int, int)| in_block(c, p, d, invert, n))
}

/// Concatenating two duplicate-free sequences drawn from two disjoint
/// cell sets yields a duplicate-free sequence drawn from their union.
proof fn lemma_disjoint_concat(fa: Seq<(int, int)>, fb: Seq<(int, int)>, ba: Set<(int, int)>, bb: Set<(int, int)>)
    requires
        pairwise_distinct(fa),
        pairwise_distinct(fb),
        forall|c: (int, int)| #![trigger fa.contains(c)] fa.contains(c) <==> ba.contains(c),
        forall|c: (int, int)| #![trigger fb.contains(c)] fb.contains(c) <==> bb.contains(c),
        forall|c: (int, int)| !(#[trigger] ba.contains(c) && bb.contains(c)),
    ensures
        pairwise_distinct(fa + fb),
        forall|c: (int, int)| #![trigger (fa + fb).contains(c)]
            (fa + fb).contains(c) <==> ba.union(bb).contains(c),
{
    assert forall|c: (int, int)| (fa + fb).contains(c) <==> ba.union(bb).contains(c) by {
        lemma_concat_contains(fa, fb, c);
    }
    assert forall|j1: int, j2: int| 0 <= j1 < j2 < (fa + fb).len() implies (fa + fb)[j1] != (fa
        + fb)[j2] by {
        if j2 < fa.len() {
            assert(fa[j1] != fa[j2]);
        } else if j1 >= fa.len() {
            assert(fb[j1 - fa.len()] != fb[j2 - fa.len()]);
        } else {
            assert(fa.contains(fa[j1]));
            assert(fb.contains(fb[j2 - fa.len()]));
        }
    }
}

/// Two grid-adjacent chains joined at adjacent ends form one chain.
proof fn lemma_chain_concat(a: Seq<(int, int)>, b: Seq<(int, int)>)
    requires
        is_chain(a),
        is_chain(b),
        a.len() > 0,
        b.len() > 0,
        adjacent(a.last(), b.first()),
    ensures
        is_chain(a + b),
{
    assert forall|j: int| 0 <= j < (a + b).len() - 1 implies adjacent(#[trigger] (a + b)[j], (a
        + b)[j + 1]) by {
        if j + 1 < a.len() {
            assert(adjacent(a[j], a[j + 1]));
        } else if j == a.len() - 1 {
            assert((a + b)[j] == a.last());
            assert((a + b)[j + 1] == b.first());
        } else {
            assert(adjacent(b[j - a.len()], b[j + 1 - a.len()]));
        }
    }
}

} // verus!

verus! {

/// One unit step of the turtle moves it to a grid-adjacent cell.
proof fn lemma_step_adjacent(t: TurtleModel)
    ensures
        adjacent(t.pos(), t.stepped().pos()),
{
}

/// Geometry of one recursion level.  Given the four end states of the
/// sub-traversals, expressed by the formulas the induction supplies,
/// the four sub-blocks are the pairwise disjoint quadrants of the full
/// block, the traversal ends on the far corner of the edge it started
/// from, facing the way it started.
proof fn lemma_quadrants(t: TurtleModel, invert: bool, m: int, e1: TurtleModel, e2: TurtleModel, e3: TurtleModel, e4: TurtleModel)
    requires
        m >= 1,
        e1.dir == turned_right(t.dir, invert),
        e1.x == t.x + shift_x(e1.dir, m - 1),
        e1.y == t.y + shift_y(e1.dir, m - 1),
        e2.dir == turned_left(e1.dir, invert),
        e2.x == e1.x + e1.dir.dx() + shift_x(e2.dir, m - 1),
        e2.y == e1.y + e1.dir.dy() + shift_y(e2.dir, m - 1),
        e3.dir == e2.dir,
        e3.x == e2.x + e2.dir.dx() + shift_x(e3.dir, m - 1),
        e3.y == e2.y + e2.dir.dy() + shift_y(e3.dir, m - 1),
        e4.dir == turned_left(e3.dir, invert),
        e4.x == e3.x + e4.dir.dx() + shift_x(e4.dir, m - 1),
        e4.y == e3.y + e4.dir.dy() + shift_y(e4.dir, m - 1),
    ensures
        turned_right(e4.dir, invert) == t.dir,
        e4.x == t.x + shift_x(t.dir, 2 * m - 1),
        e4.y == t.y + shift_y(t.dir, 2 * m - 1),
        ({
            let b1 = block_set(t.pos(), e1.dir, !invert, m);
            let b2 = block_set((e1.x + e1.dir.dx(), e1.y + e1.dir.dy()), e2.dir, invert, m);
            let b3 = block_set((e2.x + e2.dir.dx(), e2.y + e2.dir.dy()), e3.dir, invert, m);
            let b4 = block_set((e3.x + e4.dir.dx(), e3.y + e4.dir.dy()), e4.dir, !invert, m);
            &&& forall|c: (int, int)| !(#[trigger] b1.contains(c) && b2.contains(c))
            &&& forall|c: (int, int)| !(#[trigger] b1.contains(c) && b3.contains(c))
            &&& forall|c: (int, int)| !(#[trigger] b1.contains(c) && b4.contains(c))
            &&& forall|c: (int, int)| !(#[trigger] b2.contains(c) && b3.contains(c))
            &&& forall|c: (int, int)| !(#[trigger] b2.contains(c) && b4.contains(c))
            &&& forall|c: (int, int)| !(#[trigger] b3.contains(c) && b4.contains(c))
            &&& b1.union(b2).union(b3).union(b4) =~= block_set(t.pos(), t.dir, invert, 2 * m)
        }),
{
}

} // verus!

verus! {

/// Concatenation of the four quadrant recordings, reassociated: the
/// full visiting sequence is the four sub-sequences, each opened by
/// its bridge cell.
proof fn lemma_concat_shuffle<A>(
    p: Seq<A>,
    s1: Seq<A>,
    q2: Seq<A>,
    s2: Seq<A>,
    q3: Seq<A>,
    s3: Seq<A>,
    q4: Seq<A>,
    s4: Seq<A>,
)
    ensures
        p + (s1 + q2 + s2 + q3 + s3 + q4 + s4) == (p + s1) + (q2 + s2) + (q3 + s3) + (q4 + s4),
{
    assert(p + (s1 + q2 + s2 + q3 + s3 + q4 + s4) =~= (p + s1) + (q2 + s2) + (q3 + s3) + (q4
        + s4));
}

/// Four duplicate-free chains over pairwise disjoint cell sets, each
/// starting adjacent to its predecessor's end, assemble into one
/// duplicate-free chain over the union.
pub(crate) proof fn lemma_assemble(
    f1: Seq<(int, int)>,
    f2: Seq<(int, int)>,
    f3: Seq<(int, int)>,
    f4: Seq<(int, int)>,
    b1: Set<(int, int)>,
    b2: Set<(int, int)>,
    b3: Set<(int, int)>,
    b4: Set<(int, int)>,
    big: Set<(int, int)>,
)
    requires
        pairwise_distinct(f1),
        pairwise_distinct(f2),
        pairwise_distinct(f3),
        pairwise_distinct(f4),
        forall|c: (int, int)| #![trigger f1.contains(c)] f1.contains(c) <==> b1.contains(c),
        forall|c: (int, int)| #![trigger f2.contains(c)] f2.contains(c) <==> b2.contains(c),
        forall|c: (int, int)| #![trigger f3.contains(c)] f3.contains(c) <==> b3.contains(c),
        forall|c: (int, int)| #![trigger f4.contains(c)] f4.contains(c) <==> b4.contains(c),
        forall|c: (int, int)| !(#[trigger] b1.contains(c) && b2.contains(c)),
        forall|c: (int, int)| !(#[trigger] b1.contains(c) && b3.contains(c)),
        forall|c: (int, int)| !(#[trigger] b1.contains(c) && b4.contains(c)),
        forall|c: (int, int)| !(#[trigger] b2.contains(c) && b3.contains(c)),
        forall|c: (int, int)| !(#[trigger] b2.contains(c) && b4.contains(c)),
        forall|c: (int, int)| !(#[trigger] b3.contains(c) && b4.contains(c)),
        b1.union(b2).union(b3).union(b4) == big,
        is_chain(f1),
        is_chain(f2),
        is_chain(f3),
        is_chain(f4),
        f1.len() > 0,
        f2.len() > 0,
        f3.len() > 0,
        f4.len() > 0,
        adjacent(f1.last(), f2.first()),
        adjacent(f2.last(), f3.first()),
        adjacent(f3.last(), f4.first()),
    ensures
        pairwise_distinct(f1 + f2 + f3 + f4),
        forall|c: (int, int)| #![trigger (f1 + f2 + f3 + f4).contains(c)]
            (f1 + f2 + f3 + f4).contains(c) <==> big.contains(c),
        is_chain(f1 + f2 + f3 + f4),
        (f1 + f2 + f3 + f4).last() == f4.last(),
{
    lemma_disjoint_concat(f1, f2, b1, b2);
    assert(forall|c: (int, int)| !(#[trigger] b1.union(b2).contains(c) && b3.contains(c)));
    lemma_disjoint_concat(f1 + f2, f3, b1.union(b2), b3);
    assert(forall|c: (int, int)|
        !(#[trigger] b1.union(b2).union(b3).contains(c) && b4.contains(c)));
    lemma_disjoint_concat(f1 + f2 + f3, f4, b1.union(b2).union(b3), b4);
    lemma_chain_concat(f1, f2);
    assert((f1 + f2).last() == f2.last());
    lemma_chain_concat(f1 + f2, f3);
    assert((f1 + f2 + f3).last() == f3.last());
    lemma_chain_concat(f1 + f2 + f3, f4);
}

} // verus!

verus! {

/// The inductive heart of the construction.  A traversal of a given
/// level, started anywhere facing anywhere, records the cells of one
/// square block exactly once, in grid-adjacent unit steps, and parks
/// the turtle on the far corner of the edge it started from, facing
/// the way it started.
#[verifier::rlimit(100)]
#[verifier::spinoff_prover]
pub proof fn lemma_hilbert_trace(level: nat, invert: bool, t: TurtleModel)
    ensures
        ({
            let r = hilbert_trace(level, invert, t);
            let full = trace_full(level, invert, t);
            let n = side_len(level) as int;
            &&& r.0.len() == n * n - 1
            &&& r.1.dir == t.dir
            &&& r.1.x == t.x + shift_x(t.dir, n - 1)
            &&& r.1.y == t.y + shift_y(t.dir, n - 1)
            &&& full.last() == r.1.pos()
            &&& is_chain(full)
            &&& pairwise_distinct(full)
            &&& forall|c: (int, int)| #![trigger full.contains(c)]
                full.contains(c) <==> in_block(c, t.pos(), t.dir, invert, n)
        }),
    decreases level,
{
    if level == 0 {
        let full = trace_full(level, invert, t);
        assert(full =~= seq![t.pos()]);
        assert forall|c: (int, int)| full.contains(c) <==> in_block(
            c,
            t.pos(),
            t.dir,
            invert,
            side_len(level) as int,
        ) by {
            if in_block(c, t.pos(), t.dir, invert, side_len(level) as int) {
                assert(c == t.pos());
                assert(full[0] == c);
            }
        }
    } else {
        let lm1 = (level - 1) as nat;
        let m = side_len(lm1) as int;
        let n = side_len(level) as int;
        lemma_side_len_pos(lm1);
        assert(n == 2 * m);
        assert(n * n == 4 * (m * m)) by (nonlinear_arith)
            requires
                n == 2 * m,
        ;
        let t1 = t.turned_right(invert);
        let r1 = hilbert_trace(lm1, !invert, t1);
        let t3 = r1.1.stepped();
        let t4 = t3.turned_left(invert);
        let r2 = hilbert_trace(lm1, invert, t4);
        let t6 = r2.1.stepped();
        let r3 = hilbert_trace(lm1, invert, t6);
        let t8 = r3.1.turned_left(invert);
        let t9 = t8.stepped();
        let r4 = hilbert_trace(lm1, !invert, t9);
        lemma_hilbert_trace(lm1, !invert, t1);
        lemma_hilbert_trace(lm1, invert, t4);
        lemma_hilbert_trace(lm1, invert, t6);
        lemma_hilbert_trace(lm1, !invert, t9);
        lemma_quadrants(t, invert, m, r1.1, r2.1, r3.1, r4.1);
        let f1 = trace_full(lm1, !invert, t1);
        let f2 = trace_full(lm1, invert, t4);
        let f3 = trace_full(lm1, invert, t6);
        let f4 = trace_full(lm1, !invert, t9);
        let b1 = block_set(t.pos(), r1.1.dir, !invert, m);
        let b2 = block_set((r1.1.x + r1.1.dir.dx(), r1.1.y + r1.1.dir.dy()), r2.1.dir, invert, m);
        let b3 = block_set((r2.1.x + r2.1.dir.dx(), r2.1.y + r2.1.dir.dy()), r3.1.dir, invert, m);
        let b4 = block_set((r3.1.x + r4.1.dir.dx(), r3.1.y + r4.1.dir.dy()), r4.1.dir, !invert, m);
        assert(t1.pos() == t.pos());
        assert(t4.pos() == t3.pos());
        assert(t9.pos() == (r3.1.x + r4.1.dir.dx(), r3.1.y + r4.1.dir.dy()));
        assert(f2[0] == t4.pos());
        assert(f3[0] == t6.pos());
        assert(f4[0] == t9.pos());
        lemma_step_adjacent(r1.1);
        lemma_step_adjacent(r2.1);
        lemma_step_adjacent(t8);
        lemma_assemble(
            f1,
            f2,
            f3,
            f4,
            b1,
            b2,
            b3,
            b4,
            block_set(t.pos(), t.dir, invert, n),
        );
        lemma_concat_shuffle(
            seq![t.pos()],
            r1.0,
            seq![t3.pos()],
            r2.0,
            seq![t6.pos()],
            r3.0,
            seq![t9.pos()],
            r4.0,
        );
        let full = trace_full(level, invert, t);
        assert(full == f1 + f2 + f3 + f4);
        assert(f1.len() == m * m);
        assert(f2.len() == m * m);
        assert(f3.len() == m * m);
        assert(f4.len() == m * m);
        assert(full.len() == 4 * (m * m));
    }
}

} // verus!

verus! {

/// The visiting sequence of the Hilbert curve of a given order visits
/// every cell of its grid exactly once, in grid-adjacent steps, from
/// the origin corner to the corner cell straight above it.
pub proof fn lemma_hilbert_cells(order: nat)
    ensures
        ({
            let s = hilbert_cells(order);
            let n = side_len(order) as int;
            &&& s.len() == n * n
            &&& s[0] == (0int, 0int)
            &&& s.last() == (0int, n - 1)
            &&& is_chain(s)
            &&& pairwise_distinct(s)
            &&& within_grid(s, n)
            &&& covers_grid(s, n)
        }),
{
    let t = TurtleModel { x: 0, y: 0, dir: Direction::Up };
    lemma_hilbert_trace(order, false, t);
    lemma_side_len_pos(order);
    let s = hilbert_cells(order);
    let n = side_len(order) as int;
    assert(s[0] == t.pos());
    assert forall|j: int| 0 <= j < s.len() implies in_grid(#[trigger] s[j], n) by {
        assert(s.contains(s[j]));
    }
    assert forall|c: (int, int)| in_grid(c, n) implies s.contains(c) by {
        assert(in_block(c, t.pos(), t.dir, false, n));
        assert(s.contains(c) <==> in_block(c, t.pos(), t.dir, false, n));
    }
}

/// The recording grown by one builder: i32 cells as unbounded integers.
pub open spec fn cells_i32(s: Seq<(i32, i32)>) -> Seq<(int, int)> {
    s.map_values(|c: (i32, i32)| (c.0 as int, c.1 as int))
}

/// The state threaded through the recursive construction: the turtle
/// and the visiting sequence recorded so far.
struct HilbertBuilder {
    turtle: GridTurtle,
    forward: Vec<(i32, i32)>,
}

impl HilbertBuilder {
    /// One recursion level of the traversal: walks the block ahead of
    /// the turtle, appending every visited cell to the recording.
    #[verifier::rlimit(100)]
    #[verifier::spinoff_prover]
    fn iterate(&mut self, level: u32, invert: bool)
        requires
            old(self).turtle@.x - 4 * side_len(level as nat) >= -0x4000_0000,
            old(self).turtle@.x + 4 * side_len(level as nat) <= 0x4000_0000,
            old(self).turtle@.y - 4 * side_len(level as nat) >= -0x4000_0000,
            old(self).turtle@.y + 4 * side_len(level as nat) <= 0x4000_0000,
        ensures
            final(self).turtle@ == hilbert_trace(level as nat, invert, old(self).turtle@).1,
            cells_i32(final(self).forward@) == cells_i32(old(self).forward@) + hilbert_trace(
                level as nat,
                invert,
                old(self).turtle@,
            ).0,
        decreases level,
    {
        if level == 0 {
            proof {
                assert(cells_i32(self.forward@) =~= cells_i32(self.forward@) + hilbert_trace(
                    0,
                    invert,
                    self.turtle@,
                ).0);
            }
            return;
        }
        let ghost t0 = self.turtle@;
        let ghost c0 = cells_i32(old(self).forward@);
        let ghost lm1 = (level - 1) as nat;
        let ghost m = side_len(lm1) as int;
        let ghost n = side_len(level as nat) as int;
        proof {
            lemma_side_len_pos(lm1);
            assert(n == 2 * m);
        }

        self.turtle.turn_right(invert);
        let ghost t1 = self.turtle@;
        proof {
            lemma_hilbert_trace(lm1, !invert, t1);
        }
        let ghost r1 = hilbert_trace(lm1, !invert, t1);
        self.iterate(level - 1, !invert);

        self.turtle.forward();
        let ghost t3 = self.turtle@;
        let p = self.turtle.pos();
        let ghost c1 = cells_i32(self.forward@);
        self.forward.push((p.0, p.1));
        proof {
            assert(cells_i32(self.forward@) =~= c1 + seq![t3.pos()]);
        }

        self.turtle.turn_left(invert);
        let ghost t4 = self.turtle@;
        proof {
            lemma_hilbert_trace(lm1, invert, t4);
        }
        let ghost r2 = hilbert_trace(lm1, invert, t4);
        self.iterate(level - 1, invert);

        self.turtle.forward();
        let ghost t6 = self.turtle@;
        let p = self.turtle.pos();
        let ghost c2 = cells_i32(self.forward@);
        self.forward.push((p.0, p.1));
        proof {
            assert(cells_i32(self.forward@) =~= c2 + seq![t6.pos()]);
            lemma_hilbert_trace(lm1, invert, t6);
        }
        let ghost r3 = hilbert_trace(lm1, invert, t6);
        self.iterate(level - 1, invert);

        self.turtle.turn_left(invert);
        self.turtle.forward();
        let ghost t9 = self.turtle@;
        let p = self.turtle.pos();
        let ghost c3 = cells_i32(self.forward@);
        self.forward.push((p.0, p.1));
        proof {
            assert(cells_i32(self.forward@) =~= c3 + seq![t9.pos()]);
            lemma_hilbert_trace(lm1, !invert, t9);
        }
        let ghost r4 = hilbert_trace(lm1, !invert, t9);
        self.iterate(level - 1, !invert);

        self.turtle.turn_right(invert);
        proof {
            assert(cells_i32(self.forward@) =~= c0 + (r1.0 + seq![t3.pos()] + r2.0 + seq![
                t6.pos()
            ] + r3.0 + seq![t9.pos()] + r4.0));
        }
    }
}

} // verus!

verus! {

/// Narrows a recording whose cells all lie on the grid to the
/// machine-index cell type.
fn to_grid_cells(v: &Vec<(i32, i32)>, side: usize) -> (r: Vec<(usize, usize)>)
    requires
        within_grid(cells_i32(v@), side as int),
    ensures
        cells_of(r@) == cells_i32(v@),
        r@.len() == v@.len(),
{
    let mut r: Vec<(usize, usize)> = Vec::new();
    let mut i: usize = 0;
    let len = v.len();
    while i < len
        invariant
            i <= len,
            len == v@.len(),
            within_grid(cells_i32(v@), side as int),
            r@.len() == i,
            forall|j: int| 0 <= j < i ==> cells_of(r@)[j] == cells_i32(v@)[j],
        decreases len - i,
    {
        proof {
            assert(cells_i32(v@)[i as int] == (v@[i as int].0 as int, v@[i as int].1 as int));
            assert(in_grid(cells_i32(v@)[i as int], side as int));
        }
        let c = v[i];
        r.push((c.0 as usize, c.1 as usize));
        proof {
            assert(cells_of(r@)[i as int] == (c.0 as int, c.1 as int));
        }
        i = i + 1;
    }
    proof {
        assert(cells_of(r@) =~= cells_i32(v@));
    }
    r
}

/// A built Hilbert curve: the forward visiting sequence, its inverse
/// table, and the grid metadata.  Immutable once constructed.
#[derive(Debug)]
pub struct Hilbert {
    /// `forward[i]` is the cell visited at step `i`.
    pub forward: Vec<(usize, usize)>,
    /// `backward[x][y]` is the step at which cell `(x, y)` is visited.
    pub backward: Vec<Vec<usize>>,
    /// The recursion depth the curve was built with.
    pub iterations: u32,
    /// Grid side length: `2^iterations`.
    pub dim_size: usize,
    /// Number of cells: `dim_size * dim_size`.
    pub total_size: usize,
}

impl Hilbert {
    /// The visiting sequence as unbounded integers.
    pub open spec fn cells(self) -> Seq<(int, int)> {
        cells_of(self.forward@)
    }

    /// Structural soundness: the metadata is consistent, the forward
    /// sequence visits every grid cell exactly once in grid-adjacent
    /// steps, and the backward table is its exact inverse.
    pub open spec fn wf(self) -> bool {
        &&& self.dim_size == side_len(self.iterations as nat)
        &&& self.total_size == self.dim_size * self.dim_size
        &&& self.forward@.len() == self.total_size
        &&& within_grid(self.cells(), self.dim_size as int)
        &&& pairwise_distinct(self.cells())
        &&& covers_grid(self.cells(), self.dim_size as int)
        &&& is_chain(self.cells())
        &&& crate::curve::inverse_table_wf(
            self.forward@,
            self.backward@,
            self.dim_size as int,
            self.total_size as int,
        )
    }

    /// Builds the Hilbert curve of the given order.  The bound on
    /// `iterations` keeps `total_size = 4^iterations` within the index
    /// arithmetic of 32-bit machines.
    #[verifier::rlimit(100)]
    #[verifier::spinoff_prover]
    pub fn new(iterations: u32) -> (r: Hilbert)
        requires
            iterations <= 15,
        ensures
            r.wf(),
            r.iterations == iterations,
            r.cells() == hilbert_cells(iterations as nat),
    {
        let ghost order = iterations as nat;
        proof {
            lemma_side_len_bound(order);
            lemma_side_len_pos(order);
            lemma_hilbert_cells(order);
        }
        let dim_size = pow2_usize(iterations);
        proof {
            assert(dim_size * dim_size <= 0x4000_0000) by (nonlinear_arith)
                requires
                    dim_size <= 0x8000,
            ;
        }
        let total_size = dim_size * dim_size;
        let ghost full = hilbert_cells(order);

        let mut builder = HilbertBuilder {
            turtle: GridTurtle::new(0, 0, Direction::Up),
            forward: Vec::new(),
        };
        builder.forward.push((0, 0));
        proof {
            assert(cells_i32(builder.forward@) =~= seq![(0int, 0int)]);
        }
        builder.iterate(iterations, false);
        proof {
            assert(cells_i32(builder.forward@) =~= full);
        }

        let forward = to_grid_cells(&builder.forward, dim_size);
        proof {
            assert(full.len() == side_len(order) * side_len(order));
            assert(forward@.len() == dim_size * dim_size);
        }
        let backward = crate::curve::invert_forward(&forward, dim_size);
        Hilbert { forward, backward, iterations, dim_size, total_size }
    }
}

} // verus!

verus! {

/// Law: the forward sequence of every Hilbert curve is a permutation
/// of the whole grid — every cell is visited exactly once.
pub proof fn lemma_hilbert_permutation(h: Hilbert)
    requires
        h.wf(),
    ensures
        pairwise_distinct(h.cells()),
        covers_grid(h.cells(), h.dim_size as int),
        within_grid(h.cells(), h.dim_size as int),
{
}

/// Law: the backward table of every Hilbert curve inverts its forward
/// sequence.
pub proof fn lemma_hilbert_backward_inverts_forward(h: Hilbert, i: int)
    requires
        h.wf(),
        0 <= i < h.total_size,
    ensures
        h.backward@[h.forward@[i].0 as int]@[h.forward@[i].1 as int] == i,
{
    assert(in_grid(h.cells()[i], h.dim_size as int));
    assert(h.cells()[i] == (h.forward@[i].0 as int, h.forward@[i].1 as int));
}

/// Law: consecutive steps of every Hilbert curve visit grid-adjacent
/// cells.
pub proof fn lemma_hilbert_adjacency(h: Hilbert, i: int)
    requires
        h.wf(),
        0 <= i < h.total_size - 1,
    ensures
        adjacent(h.cells()[i], h.cells()[i + 1]),
{
}

} // verus!

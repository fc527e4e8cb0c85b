//! Rules that seed debris in phase space, and the periodic trajectories of
//! the debris they seed.

use vstd::prelude::*;
use vstd::arithmetic::div_mod::*;
use crate::lattice::{Lattice, Vec4};
use crate::numeric::{divides, lemma_divides_quotient};

verus! {

/// A rule: the points `p` of phase space with
/// `coeffs . p = remainder (mod modulus)` each hold one piece of debris that
/// moves with `debris_velocity`.
#[derive(Clone, Copy, Debug, PartialEq, Eq, Structural)]
pub struct Rule {
    pub coeffs: Vec4,
    pub modulus: i16,
    pub remainder: i16,
    pub debris_velocity: Vec4,
}

/// One piece of debris: where it starts and how it moves per tick.
#[derive(Clone, Copy, Debug, PartialEq, Eq, Structural)]
pub struct DebrisPiece {
    pub initial_position: Vec4,
    pub velocity: Vec4,
}

/// The product of two 16-bit numbers has at most 31 bits.
proof fn lemma_product_bound(a: i16, b: i16)
    ensures
        -0x4000_0000 <= a * b <= 0x4000_0000,
{
    assert(-0x4000_0000 <= a * b <= 0x4000_0000) by (nonlinear_arith)
        requires
            -0x8000 <= a <= 0x7fff,
            -0x8000 <= b <= 0x7fff,
    ;
}

impl Rule {
    /// The modulus of a rule is positive.
    pub open spec fn wf(&self) -> bool {
        self.modulus > 0
    }

    /// The scalar product of the coefficients with a point.
    pub open spec fn weighted_sum(&self, p: Vec4) -> int {
        self.coeffs.x * p.x + self.coeffs.y * p.y + self.coeffs.z * p.z + self.coeffs.w * p.w
    }

    /// Whether a point satisfies the rule; the remainder is never negative.
    pub open spec fn matches_spec(&self, p: Vec4) -> bool {
        self.weighted_sum(p) % (self.modulus as int) == self.remainder
    }

    /// Whether a point satisfies the rule.
    #[verifier::when_used_as_spec(matches_spec)]
    pub fn matches(&self, p: Vec4) -> (r: bool)
        requires
            self.wf(),
        ensures
            r == self.matches_spec(p),
    {
        proof {
            lemma_product_bound(self.coeffs.x, p.x);
            lemma_product_bound(self.coeffs.y, p.y);
            lemma_product_bound(self.coeffs.z, p.z);
            lemma_product_bound(self.coeffs.w, p.w);
        }
        let sum: i64 = (self.coeffs.x as i64) * (p.x as i64) + (self.coeffs.y as i64) * (p.y as i64)
            + (self.coeffs.z as i64) * (p.z as i64) + (self.coeffs.w as i64) * (p.w as i64);
        let m: i64 = self.modulus as i64;
        proof {
            lemma_mod_bound(sum as int, m as int);
        }
        match sum.checked_rem_euclid(m) {
            Some(rem) => rem == self.remainder as i64,
            None => false,
        }
    }

    /// The piece of debris that the rule seeds at a point.
    pub open spec fn piece_at(&self, p: Vec4) -> DebrisPiece {
        DebrisPiece { initial_position: p, velocity: self.debris_velocity }
    }

    /// The test for the points that the rule seeds.
    pub open spec fn matcher(&self) -> spec_fn(Vec4) -> bool {
        |p: Vec4| self.matches_spec(p)
    }

    /// The map from a point to the piece seeded there.
    pub open spec fn seeder(&self) -> spec_fn(Vec4) -> DebrisPiece {
        |p: Vec4| self.piece_at(p)
    }

    /// The debris that the rule seeds among the given points, in their order.
    pub open spec fn debris_among(&self, points: Seq<Vec4>) -> Seq<DebrisPiece> {
        points.filter(self.matcher()).map_values(self.seeder())
    }

    /// The debris that the rule seeds in the whole of phase space.
    pub open spec fn debris(&self, lattice: Lattice) -> Seq<DebrisPiece> {
        self.debris_among(lattice.phase_space())
    }

    /// One more point adds its piece if it matches, and nothing otherwise.
    pub proof fn lemma_debris_among_push(&self, points: Seq<Vec4>, p: Vec4)
        ensures
            self.debris_among(points.push(p)) == if self.matches_spec(p) {
                self.debris_among(points).push(self.piece_at(p))
            } else {
                self.debris_among(points)
            },
    {
        reveal(Seq::filter);
        assert(points.push(p).drop_last() =~= points);
        if self.matches_spec(p) {
            assert(points.push(p).filter(self.matcher()) == points.filter(self.matcher()).push(p));
            assert(self.debris_among(points.push(p)) =~= self.debris_among(points).push(
                self.piece_at(p),
            ));
        }
    }

    /// The rule seeds exactly the matching points of phase space: a piece
    /// stands at each of them, and each piece stands at one of them and has
    /// the rule's velocity.
    pub proof fn lemma_debris_exact(&self, lattice: Lattice)
        requires
            lattice.wf(),
        ensures
            forall|p: Vec4|
                lattice.in_phase_space(p) && self.matches_spec(p) ==> #[trigger] self.debris(
                    lattice,
                ).contains(self.piece_at(p)),
            forall|i: int|
                0 <= i < self.debris(lattice).len() ==> {
                    let piece = #[trigger] self.debris(lattice)[i];
                    &&& lattice.in_phase_space(piece.initial_position)
                    &&& self.matches_spec(piece.initial_position)
                    &&& piece.velocity == self.debris_velocity
                },
    {
        let space = lattice.phase_space();
        let kept = space.filter(self.matcher());
        broadcast use vstd::seq_lib::group_filter_ensures;
        assert forall|p: Vec4| lattice.in_phase_space(p) && self.matches_spec(p) implies #[trigger] self.debris(
            lattice,
        ).contains(self.piece_at(p)) by {
            lattice.lemma_phase_index(p);
            let i = lattice.phase_index(p);
            assert(space[i] == p);
            assert(kept.contains(space[i]));
            let j = choose|j: int| 0 <= j < kept.len() && kept[j] == p;
            assert(self.debris(lattice)[j] == self.piece_at(p));
        }
        assert forall|i: int| 0 <= i < self.debris(lattice).len() implies {
            let piece = #[trigger] self.debris(lattice)[i];
            &&& lattice.in_phase_space(piece.initial_position)
            &&& self.matches_spec(piece.initial_position)
            &&& piece.velocity == self.debris_velocity
        } by {
            let p = kept[i];
            assert(kept.contains(p));
            space.lemma_filter_contains_rev(self.matcher(), p);
            let k = choose|k: int| 0 <= k < space.len() && space[k] == p;
            lattice.lemma_phase_point(k);
        }
    }
}

/// Points of which none occurs twice are, after a test has picked among
/// them, still points of which none occurs twice.
proof fn lemma_filter_keeps_apart(points: Seq<Vec4>, test: spec_fn(Vec4) -> bool)
    requires
        points.no_duplicates(),
    ensures
        points.filter(test).no_duplicates(),
    decreases points.len(),
{
    reveal(Seq::filter);
    if points.len() > 0 {
        let rest = points.drop_last();
        lemma_filter_keeps_apart(rest, test);
        let kept = rest.filter(test);
        if test(points.last()) {
            assert forall|i: int| 0 <= i < kept.len() implies kept[i] != points.last() by {
                assert(kept.contains(kept[i]));
                rest.lemma_filter_contains_rev(test, kept[i]);
                let k = choose|k: int| 0 <= k < rest.len() && rest[k] == kept[i];
                assert(points[k] == rest[k]);
            }
        }
    }
}

impl Rule {
    /// The rule seeds one piece at a point that satisfies it, and no more:
    /// no two of its pieces stand at the same point. The pieces of several
    /// rules at one point are kept, one for each rule.
    pub proof fn lemma_debris_once(&self, lattice: Lattice, i: int, j: int)
        requires
            lattice.wf(),
            0 <= i < j < self.debris(lattice).len(),
        ensures
            self.debris(lattice)[i].initial_position != self.debris(lattice)[j].initial_position,
    {
        lattice.lemma_phase_space_exact();
        lemma_filter_keeps_apart(lattice.phase_space(), self.matcher());
        let kept = lattice.phase_space().filter(self.matcher());
        assert(self.debris(lattice)[i].initial_position == kept[i]);
        assert(self.debris(lattice)[j].initial_position == kept[j]);
    }
}

/// The debris of a list of rules with one more rule is that of the list and,
/// after it, all the debris of that rule: nothing is left out where two
/// rules seed the same point.
pub proof fn lemma_all_debris_push(rules: Seq<Rule>, rule: Rule, lattice: Lattice)
    ensures
        all_debris(rules.push(rule), lattice) == all_debris(rules, lattice) + rule.debris(lattice),
        all_debris(rules.push(rule), lattice).len() == all_debris(rules, lattice).len() + rule.debris(lattice).len(),
{
    assert(rules.push(rule).drop_last() =~= rules);
}

/// The debris that a list of rules seeds: that of each rule in turn. A point
/// that satisfies several rules holds one piece for each.
pub open spec fn all_debris(rules: Seq<Rule>, lattice: Lattice) -> Seq<DebrisPiece>
    decreases rules.len(),
{
    if rules.len() == 0 {
        Seq::empty()
    } else {
        all_debris(rules.drop_last(), lattice) + rules.last().debris(lattice)
    }
}

/// Seeds the debris of every rule: for each rule, one piece at every point of
/// phase space that satisfies it.
pub fn generate_obstacles(rules: &Vec<Rule>, lattice: &Lattice) -> (r: Vec<DebrisPiece>)
    requires
        lattice.wf(),
        forall|i: int| 0 <= i < rules.len() ==> rules[i].wf(),
    ensures
        r@ == all_debris(rules@, *lattice),
{
    let n: u64 = lattice.phase_count();
    let ghost space = lattice.phase_space();
    let mut out: Vec<DebrisPiece> = Vec::new();
    let mut k: usize = 0;
    while k < rules.len()
        invariant
            lattice.wf(),
            forall|i: int| 0 <= i < rules.len() ==> rules[i].wf(),
            n == lattice.phase_volume(),
            space == lattice.phase_space(),
            k <= rules.len(),
            out@ == all_debris(rules@.take(k as int), *lattice),
        decreases rules.len() - k,
    {
        let rule = rules[k];
        let ghost before = out@;
        let mut i: u64 = 0;
        assert(space.take(0) =~= Seq::<Vec4>::empty());
        proof {
            reveal(Seq::filter);
        }
        assert(rule.debris_among(space.take(0)) =~= Seq::<DebrisPiece>::empty());
        while i < n
            invariant
                lattice.wf(),
                rule.wf(),
                n == lattice.phase_volume(),
                space == lattice.phase_space(),
                i <= n,
                out@ == before + rule.debris_among(space.take(i as int)),
            decreases n - i,
        {
            let p = lattice.phase_point_at(i);
            proof {
                assert(space.take(i + 1) =~= space.take(i as int).push(p));
                rule.lemma_debris_among_push(space.take(i as int), p);
            }
            if rule.matches(p) {
                out.push(DebrisPiece { initial_position: p, velocity: rule.debris_velocity });
                assert(out@ =~= before + rule.debris_among(space.take(i + 1)));
            }
            i += 1;
        }
        proof {
            assert(space.take(n as int) =~= space);
            assert(rules@.take(k + 1).drop_last() =~= rules@.take(k as int));
            assert(rules@.take(k + 1).last() == rule);
        }
        k += 1;
    }
    assert(rules@.take(rules.len() as int) =~= rules@);
    out
}

/// The coordinate on one axis after `t` ticks: the start moved by the
/// velocity `t` times and reduced into `size` values that begin at `-offset`.
pub open spec fn wrapped(start: int, velocity: int, t: int, offset: int, size: int) -> int {
    (start + velocity * t + offset) % size - offset
}

/// After a multiple of the axis's size, the coordinate is what it was.
pub proof fn lemma_wrapped_periodic(start: int, velocity: int, t: int, k: int, offset: int, size: int)
    requires
        divides(size, k),
    ensures
        wrapped(start, velocity, t + k, offset, size) == wrapped(start, velocity, t, offset, size),
{
    lemma_divides_quotient(size, k);
    let q = velocity * (k / size);
    let base = start + velocity * t + offset;
    assert(start + velocity * (t + k) + offset == size * q + base) by (nonlinear_arith)
        requires
            k == size * (k / size),
            q == velocity * (k / size),
            base == start + velocity * t + offset,
    ;
    lemma_mod_multiples_vanish(q, base, size);
}

/// The coordinate on one axis after `t` ticks.
fn wrap_axis(start: i16, velocity: i16, t: u32, offset: i16, size: i16) -> (r: i16)
    requires
        size > 0,
        0 <= offset <= size,
    ensures
        r == wrapped(start as int, velocity as int, t as int, offset as int, size as int),
        -offset <= r < size - offset,
{
    assert(-0x8000_0000_0000 <= velocity * t <= 0x8000_0000_0000) by (nonlinear_arith)
        requires
            -0x8000 <= velocity <= 0x7fff,
            0 <= t <= 0xffff_ffff,
    ;
    let raw: i64 = (start as i64) + (velocity as i64) * (t as i64) + (offset as i64);
    proof {
        lemma_mod_bound(raw as int, size as int);
    }
    match raw.checked_rem_euclid(size as i64) {
        Some(m) => (m - (offset as i64)) as i16,
        None => 0,
    }
}

impl DebrisPiece {
    /// Where the piece is after `t` ticks. The spatial axes wrap into
    /// `0..size`; the layer axis wraps into the range of the same size that
    /// is centred at zero.
    pub open spec fn position(&self, lattice: Lattice, t: int) -> Vec4 {
        Vec4 {
            x: wrapped(self.initial_position.x as int, self.velocity.x as int, t, 0, lattice.x_size as int) as i16,
            y: wrapped(self.initial_position.y as int, self.velocity.y as int, t, 0, lattice.y_size as int) as i16,
            z: wrapped(self.initial_position.z as int, self.velocity.z as int, t, 0, lattice.z_size as int) as i16,
            w: wrapped(
                self.initial_position.w as int,
                self.velocity.w as int,
                t,
                (lattice.w_size / 2) as int,
                lattice.w_size as int,
            ) as i16,
        }
    }

    /// Where the piece is after `t` ticks.
    pub fn position_at(&self, lattice: &Lattice, t: u32) -> (r: Vec4)
        requires
            lattice.wf(),
        ensures
            r == self.position(*lattice, t as int),
            0 <= r.x < lattice.x_size,
            0 <= r.y < lattice.y_size,
            0 <= r.z < lattice.z_size,
            -(lattice.w_size / 2) <= r.w < lattice.w_size - lattice.w_size / 2,
    {
        Vec4 {
            x: wrap_axis(self.initial_position.x, self.velocity.x, t, 0, lattice.x_size),
            y: wrap_axis(self.initial_position.y, self.velocity.y, t, 0, lattice.y_size),
            z: wrap_axis(self.initial_position.z, self.velocity.z, t, 0, lattice.z_size),
            w: wrap_axis(
                self.initial_position.w,
                self.velocity.w,
                t,
                lattice.w_size / 2,
                lattice.w_size,
            ),
        }
    }

    /// Every trajectory is periodic: after a number of ticks that all four
    /// extents divide, the piece is where it was.
    pub proof fn lemma_position_periodic(&self, lattice: Lattice, t: int, k: int)
        requires
            lattice.wf(),
            lattice.is_period(k),
        ensures
            self.position(lattice, t + k) == self.position(lattice, t),
    {
        lemma_wrapped_periodic(self.initial_position.x as int, self.velocity.x as int, t, k, 0, lattice.x_size as int);
        lemma_wrapped_periodic(self.initial_position.y as int, self.velocity.y as int, t, k, 0, lattice.y_size as int);
        lemma_wrapped_periodic(self.initial_position.z as int, self.velocity.z as int, t, k, 0, lattice.z_size as int);
        lemma_wrapped_periodic(
            self.initial_position.w as int,
            self.velocity.w as int,
            t,
            k,
            (lattice.w_size / 2) as int,
            lattice.w_size as int,
        );
    }
}

} // verus!

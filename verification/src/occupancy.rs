//! Which cells the debris occupies at each tick, computed ahead of a search.

use vstd::prelude::*;
use fixedbitset::FixedBitSet;
use rayon::iter::{IntoParallelIterator, ParallelIterator};
use crate::debris::DebrisPiece;
use crate::lattice::{project, vec4_to_vec3, Lattice, Vec3};

verus! {

/// `fixedbitset::FixedBitSet`, a set of bits of a fixed length. Verus sees
/// nothing inside it; what it holds is named by `bitset_ones` and
/// `bitset_len`.
#[verifier::external_type_specification]
#[verifier::external_body]
pub struct ExFixedBitSet(FixedBitSet);

/// The bits of a `FixedBitSet` that are set.
pub uninterp spec fn bitset_ones(b: FixedBitSet) -> Set<int>;

/// The number of bits that a `FixedBitSet` was made with.
pub uninterp spec fn bitset_len(b: FixedBitSet) -> nat;

/// `FixedBitSet::with_capacity`: a set of `bits` bits, all clear.
pub assume_specification[ FixedBitSet::with_capacity ](bits: usize) -> (r: FixedBitSet)
    ensures
        bitset_len(r) == bits,
        bitset_ones(r) == Set::<int>::empty(),
;

/// `FixedBitSet::set`: sets or clears one bit and leaves the others; it
/// panics on a bit at or beyond the length.
pub assume_specification[ FixedBitSet::set ](b: &mut FixedBitSet, bit: usize, enabled: bool)
    requires
        bit < bitset_len(*old(b)),
    ensures
        bitset_len(*final(b)) == bitset_len(*old(b)),
        bitset_ones(*final(b)) == if enabled {
            bitset_ones(*old(b)).insert(bit as int)
        } else {
            bitset_ones(*old(b)).remove(bit as int)
        },
;

/// `FixedBitSet::contains`: whether a bit is set; bits at or beyond the
/// length count as clear.
pub assume_specification[ FixedBitSet::contains ](b: &FixedBitSet, bit: usize) -> (r: bool)
    ensures
        r == (bit < bitset_len(*b) && bitset_ones(*b).contains(bit as int)),
;

/// The two variants of the search, which also decide what a snapshot
/// records of a cell. `Avoid`: the agent never enters a cell that holds
/// debris, and a snapshot records whether any is there. `Deplete`: each piece
/// of debris in a cell that the agent enters costs one unit of its resource,
/// and a snapshot records how many pieces are there.
#[derive(Clone, Copy, Debug, PartialEq, Eq, Structural)]
pub enum Mode {
    Avoid,
    Deplete,
}

/// The occupancy of every cell at one tick.
pub enum Snapshot {
    Presence(FixedBitSet),
    Counts(Vec<u64>),
}

/// Whether a piece is in the given cell at tick `t`. Debris off layer zero
/// is in no cell.
pub open spec fn occupies(piece: DebrisPiece, lattice: Lattice, t: int, c: Vec3) -> bool {
    project(piece.position(lattice, t)) == Some(c)
}

/// The number of pieces in the given cell at tick `t`.
pub open spec fn occupant_count(debris: Seq<DebrisPiece>, lattice: Lattice, t: int, c: Vec3) -> nat
    decreases debris.len(),
{
    if debris.len() == 0 {
        0
    } else {
        occupant_count(debris.drop_last(), lattice, t, c) + if occupies(
            debris.last(),
            lattice,
            t,
            c,
        ) {
            1nat
        } else {
            0nat
        }
    }
}

/// Whether any piece is in the given cell at tick `t`.
pub open spec fn occupied(debris: Seq<DebrisPiece>, lattice: Lattice, t: int, c: Vec3) -> bool {
    exists|i: int| 0 <= i < debris.len() && occupies(#[trigger] debris[i], lattice, t, c)
}

/// A cell is occupied exactly when its occupant count is positive.
pub proof fn lemma_occupied_iff_counted(debris: Seq<DebrisPiece>, lattice: Lattice, t: int, c: Vec3)
    ensures
        occupied(debris, lattice, t, c) <==> occupant_count(debris, lattice, t, c) > 0,
        occupant_count(debris, lattice, t, c) <= debris.len(),
    decreases debris.len(),
{
    if debris.len() > 0 {
        let rest = debris.drop_last();
        lemma_occupied_iff_counted(rest, lattice, t, c);
        if occupied(debris, lattice, t, c) {
            let i = choose|i: int| 0 <= i < debris.len() && occupies(#[trigger] debris[i], lattice, t, c);
            if i < rest.len() {
                assert(occupies(rest[i], lattice, t, c));
            }
        }
        if occupant_count(debris, lattice, t, c) > 0 {
            if occupies(debris.last(), lattice, t, c) {
                assert(occupies(debris[debris.len() - 1], lattice, t, c));
            } else {
                let i = choose|i: int| 0 <= i < rest.len() && occupies(#[trigger] rest[i], lattice, t, c);
                assert(occupies(debris[i], lattice, t, c));
            }
        }
    }
}

/// What a snapshot of the given debris at tick `t` records of each cell, by
/// the cell's offset: the occupant count, or in `Avoid` mode one for an
/// occupied cell and zero for a free one.
pub open spec fn expected_counts(debris: Seq<DebrisPiece>, lattice: Lattice, t: int, mode: Mode) -> Seq<nat> {
    Seq::new(
        lattice.volume() as nat,
        |i: int|
            {
                let n = occupant_count(debris, lattice, t, lattice.cell_at(i));
                match mode {
                    Mode::Avoid => if n > 0 {
                        1nat
                    } else {
                        0nat
                    },
                    Mode::Deplete => n,
                }
            },
    )
}

impl Snapshot {
    /// What the snapshot records of each cell, by the cell's offset.
    pub open spec fn counts(&self) -> Seq<nat> {
        match self {
            Snapshot::Presence(bits) => Seq::new(
                bitset_len(*bits),
                |i: int|
                    if bitset_ones(*bits).contains(i) {
                        1nat
                    } else {
                        0nat
                    },
            ),
            Snapshot::Counts(v) => Seq::new(v@.len(), |i: int| v@[i] as nat),
        }
    }

    /// The mode that the snapshot was taken in.
    pub open spec fn mode(&self) -> Mode {
        match self {
            Snapshot::Presence(_) => Mode::Avoid,
            Snapshot::Counts(_) => Mode::Deplete,
        }
    }

    /// Whether the snapshot is that of the given debris at tick `t`.
    pub open spec fn shows(&self, debris: Seq<DebrisPiece>, lattice: Lattice, t: int) -> bool {
        self.counts() == expected_counts(debris, lattice, t, self.mode())
    }

    /// The number of pieces recorded at an offset; where only presence is
    /// recorded, one for an occupied cell.
    pub fn count_at(&self, i: usize) -> (r: u64)
        requires
            i < self.counts().len(),
        ensures
            r == self.counts()[i as int],
    {
        match self {
            Snapshot::Presence(bits) => if bits.contains(i) {
                1
            } else {
                0
            },
            Snapshot::Counts(v) => v[i],
        }
    }
}

/// The set of cells that hold debris at tick `t`, as one bit per cell.
pub fn construct_bitset(debris: &[DebrisPiece], lattice: &Lattice, t: u32) -> (r: FixedBitSet)
    requires
        lattice.wf(),
    ensures
        bitset_len(r) == lattice.volume(),
        forall|i: int|
            0 <= i < lattice.volume() ==> (#[trigger] bitset_ones(r).contains(i) <==> occupied(
                debris@,
                *lattice,
                t as int,
                lattice.cell_at(i),
            )),
{
    let mut bits = FixedBitSet::with_capacity(lattice.cell_count());
    let mut j: usize = 0;
    while j < debris.len()
        invariant
            lattice.wf(),
            j <= debris.len(),
            bitset_len(bits) == lattice.volume(),
            forall|i: int|
                0 <= i < lattice.volume() ==> (#[trigger] bitset_ones(bits).contains(i) <==> occupied(
                    debris@.take(j as int),
                    *lattice,
                    t as int,
                    lattice.cell_at(i),
                )),
        decreases debris.len() - j,
    {
        let piece = debris[j];
        let ghost before = bitset_ones(bits);
        let ghost seen = debris@.take(j as int);
        let ghost next = debris@.take(j + 1);
        proof {
            assert(next.drop_last() =~= seen);
            assert(next.last() == piece);
            assert forall|c: Vec3| occupied(next, *lattice, t as int, c) <==> (occupied(
                seen,
                *lattice,
                t as int,
                c,
            ) || occupies(piece, *lattice, t as int, c)) by {
                lemma_occupied_iff_counted(next, *lattice, t as int, c);
                lemma_occupied_iff_counted(seen, *lattice, t as int, c);
            }
        }
        match vec4_to_vec3(piece.position_at(lattice, t)) {
            Some(c) => {
                let k = lattice.vec3_to_idx(c);
                bits.set(k, true);
                proof {
                    lattice.lemma_cell_at_index(c);
                    assert forall|i: int| 0 <= i < lattice.volume() implies (#[trigger] bitset_ones(
                        bits,
                    ).contains(i) <==> occupied(next, *lattice, t as int, lattice.cell_at(i))) by {
                        lattice.lemma_index_at_cell(i);
                        assert(before.contains(i) <==> occupied(seen, *lattice, t as int, lattice.cell_at(i)));
                    }
                }
            },
            None => {
                proof {
                    assert forall|i: int| 0 <= i < lattice.volume() implies (#[trigger] bitset_ones(
                        bits,
                    ).contains(i) <==> occupied(next, *lattice, t as int, lattice.cell_at(i))) by {
                        assert(before.contains(i) <==> occupied(seen, *lattice, t as int, lattice.cell_at(i)));
                    }
                }
            },
        }
        j += 1;
    }
    assert(debris@.take(debris.len() as int) =~= debris@);
    bits
}

/// The number of pieces of debris in each cell at tick `t`, by the cell's
/// offset.
pub fn construct_debris_map(debris: &[DebrisPiece], lattice: &Lattice, t: u32) -> (r: Vec<u64>)
    requires
        lattice.wf(),
    ensures
        r.len() == lattice.volume(),
        forall|i: int|
            0 <= i < lattice.volume() ==> #[trigger] r[i] == occupant_count(
                debris@,
                *lattice,
                t as int,
                lattice.cell_at(i),
            ),
{
    let n = lattice.cell_count();
    let mut map: Vec<u64> = Vec::new();
    let mut i: usize = 0;
    while i < n
        invariant
            i <= n,
            map.len() == i,
            forall|k: int| 0 <= k < i ==> map[k] == 0,
        decreases n - i,
    {
        map.push(0);
        i += 1;
    }
    let mut j: usize = 0;
    while j < debris.len()
        invariant
            lattice.wf(),
            j <= debris.len(),
            map.len() == lattice.volume(),
            forall|i: int|
                0 <= i < lattice.volume() ==> #[trigger] map[i] == occupant_count(
                    debris@.take(j as int),
                    *lattice,
                    t as int,
                    lattice.cell_at(i),
                ),
        decreases debris.len() - j,
    {
        let piece = debris[j];
        let ghost before = map@;
        let ghost seen = debris@.take(j as int);
        let ghost next = debris@.take(j + 1);
        proof {
            assert(next.drop_last() =~= seen);
            assert(next.last() == piece);
        }
        match vec4_to_vec3(piece.position_at(lattice, t)) {
            Some(c) => {
                let k = lattice.vec3_to_idx(c);
                proof {
                    lemma_occupied_iff_counted(seen, *lattice, t as int, lattice.cell_at(k as int));
                }
                let bumped: u64 = map[k] + 1;
                map.set(k, bumped);
                proof {
                    lattice.lemma_cell_at_index(c);
                    assert forall|i: int| 0 <= i < lattice.volume() implies #[trigger] map[i]
                        == occupant_count(next, *lattice, t as int, lattice.cell_at(i)) by {
                        lattice.lemma_index_at_cell(i);
                        assert(before[i] == occupant_count(seen, *lattice, t as int, lattice.cell_at(i)));
                    }
                }
            },
            None => {
                proof {
                    assert forall|i: int| 0 <= i < lattice.volume() implies #[trigger] map[i]
                        == occupant_count(next, *lattice, t as int, lattice.cell_at(i)) by {
                        assert(before[i] == occupant_count(seen, *lattice, t as int, lattice.cell_at(i)));
                    }
                }
            },
        }
        j += 1;
    }
    assert(debris@.take(debris.len() as int) =~= debris@);
    map
}

/// The snapshot of the debris at tick `t`, in the given mode.
pub fn build_snapshot(debris: &[DebrisPiece], lattice: &Lattice, t: u32, mode: Mode) -> (r: Snapshot)
    requires
        lattice.wf(),
    ensures
        r.mode() == mode,
        r.shows(debris@, *lattice, t as int),
{
    match mode {
        Mode::Avoid => {
            let bits = construct_bitset(debris, lattice, t);
            proof {
                assert forall|i: int| 0 <= i < lattice.volume() implies (bitset_ones(bits).contains(i)
                    <==> occupant_count(debris@, *lattice, t as int, lattice.cell_at(i)) > 0) by {
                    assert(bitset_ones(bits).contains(i) <==> occupied(
                        debris@,
                        *lattice,
                        t as int,
                        lattice.cell_at(i),
                    ));
                    lemma_occupied_iff_counted(debris@, *lattice, t as int, lattice.cell_at(i));
                }
            }
            let snap = Snapshot::Presence(bits);
            assert(snap.counts() =~= expected_counts(debris@, *lattice, t as int, mode));
            snap
        },
        Mode::Deplete => {
            let map = construct_debris_map(debris, lattice, t);
            let snap = Snapshot::Counts(map);
            assert(snap.counts() =~= expected_counts(debris@, *lattice, t as int, mode));
            snap
        },
    }
}

/// What the snapshots of a lattice record: for every tick and every cell, by
/// its offset, a number of pieces. This is all that a search reads.
pub struct Field {
    pub lattice: Lattice,
    pub counts: Seq<Seq<nat>>,
}

impl Field {
    /// The number of pieces recorded for a cell at tick `t`.
    pub open spec fn count(&self, t: int, c: Vec3) -> nat {
        self.counts[t][self.lattice.index_of(c)]
    }
}

/// What the snapshots of the given debris record, in the given mode, at
/// every tick from zero to the horizon.
pub open spec fn debris_field(debris: Seq<DebrisPiece>, lattice: Lattice, horizon: int, mode: Mode) -> Field {
    Field {
        lattice,
        counts: Seq::new((horizon + 1) as nat, |t: int| expected_counts(debris, lattice, t, mode)),
    }
}

/// What the two fields of the same debris record of a cell at a tick up to
/// the horizon: the field of counts the number of pieces there, and the
/// field of presence one where there is any piece and zero where there is
/// none.
pub proof fn lemma_presence_follows_counts(
    debris: Seq<DebrisPiece>,
    lattice: Lattice,
    horizon: int,
    t: int,
    c: Vec3,
)
    requires
        lattice.wf(),
        0 <= t <= horizon,
        lattice.contains(c),
    ensures
        debris_field(debris, lattice, horizon, Mode::Deplete).count(t, c) == occupant_count(debris, lattice, t, c),
        debris_field(debris, lattice, horizon, Mode::Avoid).count(t, c) == if occupied(debris, lattice, t, c) {
            1nat
        } else {
            0nat
        },
{
    lattice.lemma_index_in_range(c);
    lattice.lemma_cell_at_index(c);
    lemma_occupied_iff_counted(debris, lattice, t, c);
}

/// The snapshots of every tick from zero to the horizon.
pub struct OccupancyIndex {
    pub lattice: Lattice,
    pub snapshots: Vec<Snapshot>,
}

impl OccupancyIndex {
    /// There is a snapshot for tick zero, and each snapshot has one entry per
    /// cell of the lattice.
    pub open spec fn wf(&self) -> bool {
        &&& self.lattice.wf()
        &&& self.snapshots.len() > 0
        &&& forall|t: int|
            0 <= t < self.snapshots.len() ==> (#[trigger] self.snapshots[t]).counts().len()
                == self.lattice.volume()
    }

    /// The last tick that has a snapshot.
    pub open spec fn horizon(&self) -> int {
        self.snapshots.len() - 1
    }

    /// What the snapshots record, by tick and by the cell's offset.
    pub open spec fn view(&self) -> Field {
        Field {
            lattice: self.lattice,
            counts: Seq::new(self.snapshots.len() as nat, |t: int| self.snapshots[t].counts()),
        }
    }

    /// Whether the index holds, in the given mode, the snapshots of the given
    /// debris at every tick up to its horizon.
    pub open spec fn shows(&self, debris: Seq<DebrisPiece>, mode: Mode) -> bool {
        forall|t: int|
            0 <= t < self.snapshots.len() ==> {
                &&& (#[trigger] self.snapshots[t]).mode() == mode
                &&& self.snapshots[t].shows(debris, self.lattice, t)
            }
    }

    /// An index that shows the given debris records what the debris
    /// determines.
    pub proof fn lemma_shows_field(&self, debris: Seq<DebrisPiece>, mode: Mode)
        requires
            self.snapshots.len() > 0,
            self.shows(debris, mode),
        ensures
            self@ == debris_field(debris, self.lattice, self.horizon(), mode),
    {
        let expected = debris_field(debris, self.lattice, self.horizon(), mode);
        assert forall|t: int| 0 <= t < self.snapshots.len() implies self@.counts[t] == expected.counts[t] by {
            assert(self.snapshots[t].shows(debris, self.lattice, t));
        }
        assert(self@.counts =~= expected.counts);
    }

    /// Two indexes of the same debris, lattice, horizon and mode hold the
    /// same snapshots, however each was computed.
    pub proof fn lemma_snapshots_determined(&self, other: &OccupancyIndex, debris: Seq<DebrisPiece>, mode: Mode)
        requires
            self.lattice == other.lattice,
            self.snapshots.len() == other.snapshots.len(),
            self.shows(debris, mode),
            other.shows(debris, mode),
        ensures
            self@ == other@,
    {
        assert forall|t: int| 0 <= t < self.snapshots.len() implies self@.counts[t] == other@.counts[t] by {
            assert(self.snapshots[t].shows(debris, self.lattice, t));
            assert(other.snapshots[t].shows(debris, other.lattice, t));
        }
        assert(self@.counts =~= other@.counts);
    }

    /// Two indexes of the same debris and lattice record the same of every
    /// cell at every tick that both have, and that is what a snapshot of
    /// that tick alone records: it depends on the debris and the tick, not on
    /// the other ticks, nor on how or in which order the snapshots were
    /// taken.
    pub proof fn lemma_tick_determined(
        &self,
        other: &OccupancyIndex,
        alone: &Snapshot,
        debris: Seq<DebrisPiece>,
        mode: Mode,
        t: int,
        i: int,
    )
        requires
            self.lattice == other.lattice,
            self.shows(debris, mode),
            other.shows(debris, mode),
            alone.mode() == mode,
            alone.shows(debris, self.lattice, t),
            0 <= t < self.snapshots.len(),
            t < other.snapshots.len(),
            0 <= i < self.lattice.volume(),
        ensures
            self.snapshots[t].counts()[i] == other.snapshots[t].counts()[i],
            self.snapshots[t].counts()[i] == alone.counts()[i],
            self.snapshots[t].counts()[i] == expected_counts(debris, self.lattice, t, mode)[i],
    {
        assert(self.snapshots[t].shows(debris, self.lattice, t));
        assert(other.snapshots[t].shows(debris, other.lattice, t));
    }

    /// The last tick that has a snapshot.
    pub fn last_tick(&self) -> (r: usize)
        requires
            self.wf(),
        ensures
            r == self.horizon(),
    {
        self.snapshots.len() - 1
    }

    /// The number of pieces recorded for a cell of the lattice at tick `t`.
    pub fn count_at(&self, t: u32, c: Vec3) -> (r: u64)
        requires
            self.wf(),
            t <= self.horizon(),
            self.lattice.contains(c),
        ensures
            r == self@.count(t as int, c),
    {
        let i = self.lattice.vec3_to_idx(c);
        self.snapshots[t as usize].count_at(i)
    }
}

/// `rayon`'s parallel `map` over an inclusive range that begins at tick
/// zero, collected into a vector: the worker threads take the snapshot of
/// each tick independently, and the vector holds them in the order of the
/// ticks.
#[verifier::external_body]
fn par_snapshots(debris: &[DebrisPiece], lattice: &Lattice, first: u32, horizon: u32, mode: Mode) -> (r: Vec<
    Snapshot,
>)
    requires
        lattice.wf(),
        first == 0,
        horizon < usize::MAX,
    ensures
        r.len() == horizon + 1,
        forall|t: int|
            0 <= t <= horizon ==> {
                &&& (#[trigger] r[t]).mode() == mode
                &&& r[t].shows(debris@, *lattice, t)
            },
{
    (first..=horizon).into_par_iter().map(|t| build_snapshot(debris, lattice, t, mode)).collect()
}

/// The snapshots of the debris at every tick from zero to the horizon, each
/// taken independently by parallel workers.
pub fn build_occupancy(debris: &[DebrisPiece], lattice: &Lattice, horizon: u32, mode: Mode) -> (r:
    OccupancyIndex)
    requires
        lattice.wf(),
        horizon < usize::MAX,
    ensures
        r.wf(),
        r.lattice == *lattice,
        r.horizon() == horizon,
        r.shows(debris@, mode),
{
    let snapshots = par_snapshots(debris, lattice, 0, horizon, mode);
    let index = OccupancyIndex { lattice: *lattice, snapshots };
    assert forall|t: int| 0 <= t < index.snapshots.len() implies (#[trigger] index.snapshots[t]).counts().len()
        == lattice.volume() by {
        assert(index.snapshots[t].shows(debris@, *lattice, t));
    }
    index
}

/// The same snapshots, taken one tick after the other.
pub fn build_occupancy_sequential(debris: &[DebrisPiece], lattice: &Lattice, horizon: u32, mode: Mode) -> (r:
    OccupancyIndex)
    requires
        lattice.wf(),
        horizon < usize::MAX,
    ensures
        r.wf(),
        r.lattice == *lattice,
        r.horizon() == horizon,
        r.shows(debris@, mode),
{
    let mut snapshots: Vec<Snapshot> = Vec::new();
    let mut t: u32 = 0;
    loop
        invariant_except_break
            lattice.wf(),
            t <= horizon,
            snapshots.len() == t,
            forall|k: int|
                0 <= k < t ==> {
                    &&& (#[trigger] snapshots[k]).mode() == mode
                    &&& snapshots[k].shows(debris@, *lattice, k)
                },
        ensures
            snapshots.len() == horizon + 1,
            forall|k: int|
                0 <= k <= horizon ==> {
                    &&& (#[trigger] snapshots[k]).mode() == mode
                    &&& snapshots[k].shows(debris@, *lattice, k)
                },
        decreases horizon - t,
    {
        let snap = build_snapshot(debris, lattice, t, mode);
        snapshots.push(snap);
        if t == horizon {
            break ;
        }
        t += 1;
    }
    let index = OccupancyIndex { lattice: *lattice, snapshots };
    assert forall|t: int| 0 <= t < index.snapshots.len() implies (#[trigger] index.snapshots[t]).counts().len()
        == lattice.volume() by {
        assert(index.snapshots[t].shows(debris@, *lattice, t));
    }
    index
}

} // verus!

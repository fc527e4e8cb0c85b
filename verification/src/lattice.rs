//! The bounded integer lattice that debris and the agent move within.

use vstd::prelude::*;
use vstd::arithmetic::div_mod::*;
use vstd::arithmetic::mul::*;
use crate::numeric::{divides, is_lcm, lcm, lemma_divides_trans};

verus! {

/// A cell of the three spatial axes.
#[derive(Clone, Copy, Debug, PartialEq, Eq, Hash, Structural)]
pub struct Vec3 {
    pub x: i16,
    pub y: i16,
    pub z: i16,
}

/// A point of phase space: three spatial axes and the layer axis `w`.
#[derive(Clone, Copy, Debug, PartialEq, Eq, Hash, Structural)]
pub struct Vec4 {
    pub x: i16,
    pub y: i16,
    pub z: i16,
    pub w: i16,
}

/// The extents of the four axes.
#[derive(Clone, Copy, Debug, PartialEq, Eq, Structural)]
pub struct Lattice {
    pub x_size: i16,
    pub y_size: i16,
    pub z_size: i16,
    pub w_size: i16,
}

/// The physical cell of a phase-space point: only layer zero is physical.
pub open spec fn project(p: Vec4) -> Option<Vec3> {
    if p.w == 0 {
        Some(Vec3 { x: p.x, y: p.y, z: p.z })
    } else {
        None
    }
}

/// Drops the layer axis of a point on layer zero; any other layer has no cell.
pub fn vec4_to_vec3(p: Vec4) -> (r: Option<Vec3>)
    ensures
        r == project(p),
{
    if p.w == 0 {
        Some(Vec3 { x: p.x, y: p.y, z: p.z })
    } else {
        None
    }
}

impl Lattice {
    /// Every extent is positive and the spatial volume can size a vector.
    pub open spec fn wf(&self) -> bool {
        &&& self.x_size > 0
        &&& self.y_size > 0
        &&& self.z_size > 0
        &&& self.w_size > 0
        &&& self.volume() <= usize::MAX
    }

    /// The number of spatial cells.
    pub open spec fn volume(&self) -> int {
        self.x_size * self.y_size * self.z_size
    }

    /// Whether a cell lies inside the spatial extents.
    pub open spec fn contains(&self, c: Vec3) -> bool {
        &&& 0 <= c.x < self.x_size
        &&& 0 <= c.y < self.y_size
        &&& 0 <= c.z < self.z_size
    }

    /// The offset of a cell in a dense array of `volume()` entries.
    pub open spec fn index_of(&self, c: Vec3) -> int {
        (c.x * self.y_size + c.y) * self.z_size + c.z
    }

    /// The cell that a dense offset stands for.
    pub open spec fn cell_at(&self, i: int) -> Vec3 {
        Vec3 {
            x: (i / (self.z_size as int) / (self.y_size as int)) as i16,
            y: (i / (self.z_size as int) % (self.y_size as int)) as i16,
            z: (i % (self.z_size as int)) as i16,
        }
    }

    /// The lowest layer of phase space.
    pub open spec fn w_min(&self) -> int {
        -(self.w_size / 2)
    }

    /// The number of layers of phase space, which lie symmetrically round zero.
    pub open spec fn w_count(&self) -> int {
        2 * (self.w_size / 2) + 1
    }

    /// The number of points of phase space.
    pub open spec fn phase_volume(&self) -> int {
        self.volume() * self.w_count()
    }

    /// Inside the extents, offsets stay below the volume.
    pub proof fn lemma_index_in_range(&self, c: Vec3)
        requires
            self.wf(),
            self.contains(c),
        ensures
            0 <= self.index_of(c) < self.volume(),
    {
        let xs = self.x_size as int;
        let ys = self.y_size as int;
        let zs = self.z_size as int;
        let row = c.x * ys + c.y;
        assert(0 <= row <= xs * ys - 1) by (nonlinear_arith)
            requires
                0 <= c.x < xs,
                0 <= c.y < ys,
                row == c.x * ys + c.y,
        ;
        assert(0 <= row * zs + c.z < xs * ys * zs) by (nonlinear_arith)
            requires
                0 <= row <= xs * ys - 1,
                0 <= c.z < zs,
        ;
    }

    /// An offset names the cell it was computed from, and no other.
    pub proof fn lemma_cell_at_index(&self, c: Vec3)
        requires
            self.wf(),
            self.contains(c),
        ensures
            self.cell_at(self.index_of(c)) == c,
    {
        let ys = self.y_size as int;
        let zs = self.z_size as int;
        let row = c.x * ys + c.y;
        lemma_fundamental_div_mod_converse(row * zs + c.z, zs, row, c.z as int);
        lemma_fundamental_div_mod_converse(row, ys, c.x as int, c.y as int);
    }

    /// Distinct cells inside the extents have distinct offsets.
    pub proof fn lemma_index_injective(&self, a: Vec3, b: Vec3)
        requires
            self.wf(),
            self.contains(a),
            self.contains(b),
            self.index_of(a) == self.index_of(b),
        ensures
            a == b,
    {
        self.lemma_cell_at_index(a);
        self.lemma_cell_at_index(b);
    }

    /// Every offset below the volume is the offset of the cell it stands for.
    pub proof fn lemma_index_at_cell(&self, i: int)
        requires
            self.wf(),
            0 <= i < self.volume(),
        ensures
            self.contains(self.cell_at(i)),
            self.index_of(self.cell_at(i)) == i,
    {
        let xs = self.x_size as int;
        let ys = self.y_size as int;
        let zs = self.z_size as int;
        let row = i / zs;
        lemma_fundamental_div_mod(i, zs);
        lemma_fundamental_div_mod(row, ys);
        lemma_mod_bound(i, zs);
        lemma_mod_bound(row, ys);
        assert(0 <= row < xs * ys) by (nonlinear_arith)
            requires
                0 <= i < xs * ys * zs,
                i == zs * row + i % zs,
                0 <= i % zs < zs,
                zs > 0,
        ;
        assert(0 <= row / ys < xs) by (nonlinear_arith)
            requires
                0 <= row < xs * ys,
                row == ys * (row / ys) + row % ys,
                0 <= row % ys < ys,
                ys > 0,
        ;
        lemma_mul_is_commutative(zs, row);
        lemma_mul_is_commutative(ys, row / ys);
    }

    /// A lattice of the given extents, where they are positive and the volume
    /// can size a vector.
    pub fn new(x_size: i16, y_size: i16, z_size: i16, w_size: i16) -> (r: Option<Lattice>)
        ensures
            match r {
                Some(l) => l.wf() && l == (Lattice { x_size, y_size, z_size, w_size }),
                None => !(Lattice { x_size, y_size, z_size, w_size }).wf(),
            },
    {
        if x_size <= 0 || y_size <= 0 || z_size <= 0 || w_size <= 0 {
            return None;
        }
        assert(x_size * y_size <= 0x7fff * 0x7fff) by (nonlinear_arith)
            requires
                0 < x_size <= 0x7fff,
                0 < y_size <= 0x7fff,
        ;
        let xy: u64 = (x_size as u64) * (y_size as u64);
        assert(xy * z_size <= 0x7fff * 0x7fff * 0x7fff) by (nonlinear_arith)
            requires
                0 <= xy <= 0x7fff * 0x7fff,
                0 < z_size <= 0x7fff,
        ;
        let volume: u64 = xy * (z_size as u64);
        if volume > usize::MAX as u64 {
            return None;
        }
        Some(Lattice { x_size, y_size, z_size, w_size })
    }

    /// The number of spatial cells.
    pub fn cell_count(&self) -> (r: usize)
        requires
            self.wf(),
        ensures
            r == self.volume(),
    {
        assert(self.x_size * self.y_size <= 0x7fff * 0x7fff) by (nonlinear_arith)
            requires
                0 < self.x_size <= 0x7fff,
                0 < self.y_size <= 0x7fff,
        ;
        let xy: usize = (self.x_size as usize) * (self.y_size as usize);
        xy * (self.z_size as usize)
    }

    /// Whether a cell lies inside the spatial extents.
    pub fn in_bounds(&self, c: Vec3) -> (r: bool)
        ensures
            r == self.contains(c),
    {
        0 <= c.x && c.x < self.x_size && 0 <= c.y && c.y < self.y_size && 0 <= c.z && c.z
            < self.z_size
    }

    /// The offset of a cell inside the extents.
    pub fn vec3_to_idx(&self, c: Vec3) -> (r: usize)
        requires
            self.wf(),
            self.contains(c),
        ensures
            r == self.index_of(c),
            r < self.volume(),
    {
        proof {
            self.lemma_index_in_range(c);
        }
        assert(c.x * self.y_size + c.y < 0x7fff * 0x7fff) by (nonlinear_arith)
            requires
                0 <= c.x < self.x_size <= 0x7fff,
                0 <= c.y < self.y_size <= 0x7fff,
        ;
        let row: usize = (c.x as usize) * (self.y_size as usize) + (c.y as usize);
        row * (self.z_size as usize) + (c.z as usize)
    }

    /// The point of phase space with the given number, counting the layer
    /// fastest, then `z`, `y` and `x`.
    pub open spec fn phase_point(&self, i: int) -> Vec4 {
        let c = self.cell_at(i / self.w_count());
        Vec4 { x: c.x, y: c.y, z: c.z, w: (i % self.w_count() + self.w_min()) as i16 }
    }

    /// Whether a point lies in phase space.
    pub open spec fn in_phase_space(&self, p: Vec4) -> bool {
        &&& self.contains(Vec3 { x: p.x, y: p.y, z: p.z })
        &&& self.w_min() <= p.w <= -self.w_min()
    }

    /// The number of a point of phase space.
    pub open spec fn phase_index(&self, p: Vec4) -> int {
        self.index_of(Vec3 { x: p.x, y: p.y, z: p.z }) * self.w_count() + (p.w - self.w_min())
    }

    /// All of phase space, in the order of its numbering.
    pub open spec fn phase_space(&self) -> Seq<Vec4> {
        Seq::new(self.phase_volume() as nat, |i: int| self.phase_point(i))
    }

    /// Whether every extent divides `k`: after `k` ticks every trajectory is
    /// back where it was.
    pub open spec fn is_period(&self, k: int) -> bool {
        &&& k > 0
        &&& divides(self.x_size as int, k)
        &&& divides(self.y_size as int, k)
        &&& divides(self.z_size as int, k)
        &&& divides(self.w_size as int, k)
    }

    /// Numbered points lie in phase space, under their own number.
    pub proof fn lemma_phase_point(&self, i: int)
        requires
            self.wf(),
            0 <= i < self.phase_volume(),
        ensures
            self.in_phase_space(self.phase_point(i)),
            self.phase_index(self.phase_point(i)) == i,
            0 <= i / self.w_count() < self.volume(),
    {
        let wc = self.w_count();
        let v = self.volume();
        lemma_fundamental_div_mod(i, wc);
        lemma_mod_bound(i, wc);
        assert(0 <= i / wc < v) by (nonlinear_arith)
            requires
                0 <= i < v * wc,
                i == wc * (i / wc) + i % wc,
                0 <= i % wc < wc,
                wc > 0,
        ;
        self.lemma_index_at_cell(i / wc);
        lemma_mul_is_commutative(wc, i / wc);
    }

    /// Every point of phase space has a number, and is the point of that number.
    pub proof fn lemma_phase_index(&self, p: Vec4)
        requires
            self.wf(),
            self.in_phase_space(p),
        ensures
            0 <= self.phase_index(p) < self.phase_volume(),
            self.phase_point(self.phase_index(p)) == p,
    {
        let wc = self.w_count();
        let v = self.volume();
        let c = Vec3 { x: p.x, y: p.y, z: p.z };
        let k = self.index_of(c);
        let off = p.w - self.w_min();
        self.lemma_index_in_range(c);
        self.lemma_cell_at_index(c);
        assert(0 <= k * wc + off < v * wc) by (nonlinear_arith)
            requires
                0 <= k < v,
                0 <= off < wc,
        ;
        lemma_fundamental_div_mod_converse(k * wc + off, wc, k, off);
    }

    /// Phase space holds every point whose cell lies in the lattice and
    /// whose layer lies between the lowest and the highest, each once, and
    /// nothing else.
    pub proof fn lemma_phase_space_exact(&self)
        requires
            self.wf(),
        ensures
            self.phase_space().len() == self.volume() * self.w_count(),
            self.phase_space().no_duplicates(),
            forall|p: Vec4| self.phase_space().contains(p) <==> self.in_phase_space(p),
    {
        let space = self.phase_space();
        assert forall|i: int, j: int| 0 <= i < space.len() && 0 <= j < space.len() && i != j implies space[i]
            != space[j] by {
            self.lemma_phase_point(i);
            self.lemma_phase_point(j);
        }
        assert forall|p: Vec4| space.contains(p) <==> self.in_phase_space(p) by {
            if space.contains(p) {
                let i = choose|i: int| 0 <= i < space.len() && space[i] == p;
                self.lemma_phase_point(i);
            }
            if self.in_phase_space(p) {
                self.lemma_phase_index(p);
                assert(space[self.phase_index(p)] == p);
            }
        }
    }

    /// The number of points of phase space.
    pub fn phase_count(&self) -> (r: u64)
        requires
            self.wf(),
        ensures
            r == self.phase_volume(),
            r < 0x1000_0000_0000_0000,
    {
        let v: usize = self.cell_count();
        let wc: u64 = 2 * ((self.w_size / 2) as u64) + 1;
        assert(self.x_size * self.y_size * self.z_size <= 0x7fff * 0x7fff * 0x7fff)
            by (nonlinear_arith)
            requires
                0 < self.x_size <= 0x7fff,
                0 < self.y_size <= 0x7fff,
                0 < self.z_size <= 0x7fff,
        ;
        assert(v * wc <= 0x7fff * 0x7fff * 0x7fff * 0x7fff) by (nonlinear_arith)
            requires
                0 <= v <= 0x7fff * 0x7fff * 0x7fff,
                0 <= wc <= 0x7fff,
        ;
        (v as u64) * wc
    }

    /// The point of phase space with the given number.
    pub fn phase_point_at(&self, i: u64) -> (r: Vec4)
        requires
            self.wf(),
            i < self.phase_volume(),
        ensures
            r == self.phase_point(i as int),
            self.in_phase_space(r),
    {
        proof {
            self.lemma_phase_point(i as int);
        }
        let half: i16 = self.w_size / 2;
        let wc: u64 = 2 * (half as u64) + 1;
        let c = self.idx_to_vec3((i / wc) as usize);
        let layer: i16 = (i % wc) as i16;
        Vec4 { x: c.x, y: c.y, z: c.z, w: layer - half }
    }

    /// All of phase space, in the order of its numbering.
    pub fn feasible_space(&self) -> (r: Vec<Vec4>)
        requires
            self.wf(),
            self.phase_volume() <= usize::MAX,
        ensures
            r@ == self.phase_space(),
    {
        let n: u64 = self.phase_count();
        let mut out: Vec<Vec4> = Vec::new();
        let mut i: u64 = 0;
        while i < n
            invariant
                self.wf(),
                n == self.phase_volume(),
                i <= n,
                out@ == self.phase_space().take(i as int),
            decreases n - i,
        {
            let p = self.phase_point_at(i);
            out.push(p);
            assert(self.phase_space().take(i + 1) =~= self.phase_space().take(i as int).push(p));
            i += 1;
        }
        assert(self.phase_space().take(n as int) =~= self.phase_space());
        out
    }

    /// The least number of ticks after which every trajectory is back where
    /// it was: the least common multiple of the four extents.
    pub fn period(&self) -> (r: u64)
        requires
            self.wf(),
        ensures
            self.is_period(r as int),
            forall|k: int| self.is_period(k) ==> #[trigger] divides(r as int, k),
    {
        let x: u64 = self.x_size as u64;
        let y: u64 = self.y_size as u64;
        let z: u64 = self.z_size as u64;
        let w: u64 = self.w_size as u64;
        assert(x * y <= 0x7fff * 0x7fff) by (nonlinear_arith)
            requires
                0 < x <= 0x7fff,
                0 < y <= 0x7fff,
        ;
        let xy: u64 = lcm(x, y);
        assert(xy * z <= 0x7fff * 0x7fff * 0x7fff) by (nonlinear_arith)
            requires
                0 < xy <= 0x7fff * 0x7fff,
                0 < z <= 0x7fff,
        ;
        let xyz: u64 = lcm(xy, z);
        assert(xyz * w <= 0x7fff * 0x7fff * 0x7fff * 0x7fff) by (nonlinear_arith)
            requires
                0 < xyz <= 0x7fff * 0x7fff * 0x7fff,
                0 < w <= 0x7fff,
        ;
        let all: u64 = lcm(xyz, w);
        proof {
            lemma_divides_trans(x as int, xy as int, xyz as int);
            lemma_divides_trans(y as int, xy as int, xyz as int);
            lemma_divides_trans(x as int, xyz as int, all as int);
            lemma_divides_trans(y as int, xyz as int, all as int);
            lemma_divides_trans(z as int, xyz as int, all as int);
            assert forall|k: int| self.is_period(k) implies #[trigger] divides(all as int, k) by {
                assert(divides(xy as int, k));
                assert(divides(xyz as int, k));
            }
        }
        all
    }

    /// The cell of an offset below the volume.
    pub fn idx_to_vec3(&self, i: usize) -> (r: Vec3)
        requires
            self.wf(),
            i < self.volume(),
        ensures
            r == self.cell_at(i as int),
            self.contains(r),
            self.index_of(r) == i,
    {
        proof {
            self.lemma_index_at_cell(i as int);
        }
        let zs: usize = self.z_size as usize;
        let ys: usize = self.y_size as usize;
        let row: usize = i / zs;
        Vec3 { x: (row / ys) as i16, y: (row % ys) as i16, z: (i % zs) as i16 }
    }
}

} // verus!

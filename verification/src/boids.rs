//! The flock simulation engine.
//!
//! A flock holds position, velocity and acceleration for `count` agents
//! in three flat buffers (agent `i` at offsets `2i`, `2i + 1`), all in
//! fixed point ([`crate::linalg::SCALE`] thousandths per unit). One
//! `update` call advances the simulation a tick: a first pass computes
//! an acceleration for every agent from a common snapshot of the
//! buffers, a second pass integrates and wraps at the arena borders.
//! The whole tick is specified by [`spec_update`] over the ghost model
//! [`FlockModel`] and the engine is proved to compute exactly that.

use crate::linalg::{
    angle_fp, dist_fp, div_trunc, iabs, lemma_component_le_isqrt, lemma_iabs_mul, lemma_isqrt,
    lemma_limit_norm, lemma_stdiv_bounds, lemma_stdiv_le, limit_fp, mul_fp, norm_fp,
    normalise_fp, stdiv,
};
use vstd::arithmetic::div_mod::{
    lemma_div_is_ordered, lemma_div_multiples_vanish, lemma_div_pos_is_pos,
    lemma_fundamental_div_mod,
};
use vstd::arithmetic::mul::lemma_mul_inequality;
use vstd::prelude::*;

verus! {

// Inter-agent forces, in thousandths.
pub const ALIGN_FORCE: i64 = 200;

pub const COHESION_FORCE: i64 = 50;

pub const SEPARATION_FORCE: i64 = 2000;

// Point forces, in thousandths.
pub const ATTRACTION_FORCE: i64 = 50;

pub const AVOIDANCE_FORCE: i64 = 7500;

pub const REPULSION_FORCE: i64 = 8000;

// Limits, in thousandths of a unit (and of a radian for the view cone).
pub const MAX_SPEED: i64 = 3000;

pub const MAX_STEER_FORCE: i64 = 350;

pub const NEIGHBOURHOOD_RADIUS: i64 = 50000;

pub const DESIRED_SEPARATION: i64 = 15000;

pub const FIELD_OF_VIEW_LIMIT: i64 = 2356;

/// Degeneracy guard of the view-cone test (0.01). The guard compares
/// plain component sums, not magnitudes.
pub const VIEW_EPS: i64 = 10;

/// Most agents a flock may hold.
pub const MAX_COUNT: usize = 65536;

/// Largest accepted arena side, in whole units.
pub const MAX_DIM: usize = 1000000;

/// Largest magnitude of a stored position component.
pub const POS_LIMIT: i64 = 2000000000;

/// Largest magnitude of a stored velocity component.
pub const VEL_LIMIT: i64 = 1000000000;

/// Largest magnitude of a stored acceleration component.
pub const ACC_LIMIT: i64 = 1000000000000;

/// The mathematical state of a flock: every stored scalar as an
/// unbounded integer.
#[verifier::ext_equal]
pub ghost struct FlockModel {
    pub count: int,
    pub width: int,
    pub height: int,
    pub positions: Seq<int>,
    pub velocities: Seq<int>,
    pub attractor: Option<(int, int)>,
    pub repulsor: Option<(int, int)>,
}

/// x position of agent `i`.
pub open spec fn px(m: FlockModel, i: int) -> int {
    m.positions[2 * i]
}

/// y position of agent `i`.
pub open spec fn py(m: FlockModel, i: int) -> int {
    m.positions[2 * i + 1]
}

/// x velocity of agent `i`.
pub open spec fn vx(m: FlockModel, i: int) -> int {
    m.velocities[2 * i]
}

/// y velocity of agent `i`.
pub open spec fn vy(m: FlockModel, i: int) -> int {
    m.velocities[2 * i + 1]
}

/// Well-formed model: consistent buffer lengths and every stored scalar
/// within the machine bounds the engine is proved overflow-free for.
pub open spec fn wf_model(m: FlockModel) -> bool {
    &&& m.positions.len() == 2 * m.count
    &&& m.velocities.len() == 2 * m.count
    &&& 0 <= m.count <= MAX_COUNT
    &&& 0 <= m.width <= MAX_DIM
    &&& 0 <= m.height <= MAX_DIM
    &&& forall|k: int| 0 <= k < m.positions.len() ==> iabs(m.positions[k]) <= POS_LIMIT
    &&& forall|k: int| 0 <= k < m.velocities.len() ==> iabs(m.velocities[k]) <= VEL_LIMIT
    &&& match m.attractor {
        Some(a) => iabs(a.0) <= POS_LIMIT && iabs(a.1) <= POS_LIMIT,
        None => true,
    }
    &&& match m.repulsor {
        Some(r) => iabs(r.0) <= POS_LIMIT && iabs(r.1) <= POS_LIMIT,
        None => true,
    }
}

/// The flock. See the module documentation.
pub struct BoidFlock {
    count: usize,
    positions: Vec<i64>,
    velocities: Vec<i64>,
    accelerations: Vec<i64>,
    width: usize,
    height: usize,
    attractor: Option<(i64, i64)>,
    repulsor: Option<(i64, i64)>,
}

impl View for BoidFlock {
    type V = FlockModel;

    closed spec fn view(&self) -> FlockModel {
        FlockModel {
            count: self.count as int,
            width: self.width as int,
            height: self.height as int,
            positions: self.positions@.map_values(|v: i64| v as int),
            velocities: self.velocities@.map_values(|v: i64| v as int),
            attractor: match self.attractor {
                Some(a) => Some((a.0 as int, a.1 as int)),
                None => None,
            },
            repulsor: match self.repulsor {
                Some(r) => Some((r.0 as int, r.1 as int)),
                None => None,
            },
        }
    }
}

impl BoidFlock {
    /// Well-formed flock: a well-formed model and an acceleration buffer
    /// of matching length with bounded entries.
    pub closed spec fn wf(&self) -> bool {
        &&& wf_model(self@)
        &&& self.accelerations@.len() == 2 * self.count
        &&& forall|k: int|
            0 <= k < self.accelerations@.len() ==> iabs(self.accelerations@[k] as int) <= ACC_LIMIT
    }

    /// A fresh flock: all agents at the origin with velocity one unit in
    /// each axis, a zero-sized arena and no attractor or repulsor.
    pub fn new(count: usize) -> (r: BoidFlock)
        requires
            count <= MAX_COUNT,
        ensures
            r.wf(),
            r@.count == count,
            r@.width == 0,
            r@.height == 0,
            r@.attractor == Option::<(int, int)>::None,
            r@.repulsor == Option::<(int, int)>::None,
            forall|k: int| 0 <= k < 2 * count ==> r@.positions[k] == 0,
            forall|k: int| 0 <= k < 2 * count ==> r@.velocities[k] == 1000,
    {
        let mut positions: Vec<i64> = Vec::new();
        let mut velocities: Vec<i64> = Vec::new();
        let mut accelerations: Vec<i64> = Vec::new();
        let mut k: usize = 0;
        while k < 2 * count
            invariant
                k <= 2 * count,
                count <= MAX_COUNT,
                positions@.len() == k,
                velocities@.len() == k,
                accelerations@.len() == k,
                forall|j: int| 0 <= j < k ==> positions@[j] == 0,
                forall|j: int| 0 <= j < k ==> velocities@[j] == 1000,
                forall|j: int| 0 <= j < k ==> accelerations@[j] == 0,
            decreases 2 * count - k,
        {
            positions.push(0);
            velocities.push(1000);
            accelerations.push(0);
            k = k + 1;
        }
        let r = BoidFlock {
            count,
            positions,
            velocities,
            accelerations,
            width: 0,
            height: 0,
            attractor: None,
            repulsor: None,
        };
        proof {
            assert(forall|j: int|
                0 <= j < 2 * count ==> r@.positions[j] == #[trigger] r.positions@[j] as int);
            assert(forall|j: int|
                0 <= j < 2 * count ==> r@.velocities[j] == #[trigger] r.velocities@[j] as int);
        }
        r
    }

    /// Number of agents, fixed at construction.
    pub fn count(&self) -> (r: usize)
        ensures
            r == self@.count,
    {
        self.count
    }

    /// Sets the arena width, in whole units.
    pub fn set_width(&mut self, width: usize)
        requires
            old(self).wf(),
            width <= MAX_DIM,
        ensures
            final(self).wf(),
            final(self)@ == (FlockModel { width: width as int, ..old(self)@ }),
    {
        self.width = width;
    }

    /// Sets the arena height, in whole units.
    pub fn set_height(&mut self, height: usize)
        requires
            old(self).wf(),
            height <= MAX_DIM,
        ensures
            final(self).wf(),
            final(self)@ == (FlockModel { height: height as int, ..old(self)@ }),
    {
        self.height = height;
    }

    /// Places the attractor.
    pub fn set_attractor(&mut self, a_x: i64, a_y: i64)
        requires
            old(self).wf(),
            -POS_LIMIT <= a_x <= POS_LIMIT,
            -POS_LIMIT <= a_y <= POS_LIMIT,
        ensures
            final(self).wf(),
            final(self)@ == (FlockModel {
                attractor: Some((a_x as int, a_y as int)),
                ..old(self)@
            }),
    {
        self.attractor = Some((a_x, a_y));
    }

    /// Removes the attractor; agents then steer toward the arena center.
    pub fn unset_attractor(&mut self)
        requires
            old(self).wf(),
        ensures
            final(self).wf(),
            final(self)@ == (FlockModel { attractor: None, ..old(self)@ }),
    {
        self.attractor = None;
    }

    /// Places the repulsor.
    pub fn set_repulsor(&mut self, r_x: i64, r_y: i64)
        requires
            old(self).wf(),
            -POS_LIMIT <= r_x <= POS_LIMIT,
            -POS_LIMIT <= r_y <= POS_LIMIT,
        ensures
            final(self).wf(),
            final(self)@ == (FlockModel {
                repulsor: Some((r_x as int, r_y as int)),
                ..old(self)@
            }),
    {
        self.repulsor = Some((r_x, r_y));
    }

    /// Removes the repulsor; no repulsion force is applied without one.
    pub fn unset_repulsor(&mut self)
        requires
            old(self).wf(),
        ensures
            final(self).wf(),
            final(self)@ == (FlockModel { repulsor: None, ..old(self)@ }),
    {
        self.repulsor = None;
    }

    /// A copy of the position buffer.
    pub fn positions(&self) -> (r: Vec<i64>)
        ensures
            r@.map_values(|v: i64| v as int) == self@.positions,
    {
        self.positions.clone()
    }

    /// A copy of the velocity buffer.
    pub fn velocities(&self) -> (r: Vec<i64>)
        ensures
            r@.map_values(|v: i64| v as int) == self@.velocities,
    {
        self.velocities.clone()
    }

    /// Seeds the position of agent `i`.
    pub fn set_position(&mut self, i: usize, x: i64, y: i64)
        requires
            old(self).wf(),
            i < old(self)@.count,
            -POS_LIMIT <= x <= POS_LIMIT,
            -POS_LIMIT <= y <= POS_LIMIT,
        ensures
            final(self).wf(),
            final(self)@ == (FlockModel {
                positions: old(self)@.positions.update(2 * i, x as int).update(
                    2 * i + 1,
                    y as int,
                ),
                ..old(self)@
            }),
    {
        self.positions.set(2 * i, x);
        self.positions.set(2 * i + 1, y);
        proof {
            assert(final(self)@.positions =~= old(self)@.positions.update(2 * i as int, x as int)
                .update(2 * i as int + 1, y as int));
        }
    }

    /// Seeds the velocity of agent `i`.
    pub fn set_velocity(&mut self, i: usize, x: i64, y: i64)
        requires
            old(self).wf(),
            i < old(self)@.count,
            -VEL_LIMIT <= x <= VEL_LIMIT,
            -VEL_LIMIT <= y <= VEL_LIMIT,
        ensures
            final(self).wf(),
            final(self)@ == (FlockModel {
                velocities: old(self)@.velocities.update(2 * i, x as int).update(
                    2 * i + 1,
                    y as int,
                ),
                ..old(self)@
            }),
    {
        self.velocities.set(2 * i, x);
        self.velocities.set(2 * i + 1, y);
        proof {
            assert(final(self)@.velocities =~= old(self)@.velocities.update(2 * i as int, x as int)
                .update(2 * i as int + 1, y as int));
        }
    }
}

/// Index sequence of a neighbour list.
pub open spec fn nseq(v: Seq<usize>) -> Seq<int> {
    v.map_values(|u: usize| u as int)
}

/// The view-cone exclusion: a candidate at offset `(lx, ly)` from the
/// agent is out of view when both component sums clear the degeneracy
/// guard and the angle between the agent's velocity and the offset
/// exceeds [`FIELD_OF_VIEW_LIMIT`]. The component-sum guard is a
/// deliberate approximation: it is not rotation invariant, and a
/// candidate with negative-summing offset is never excluded.
pub open spec fn is_out_of_view(m: FlockModel, i: int, j: int) -> bool {
    let lx = px(m, i) - px(m, j);
    let ly = py(m, i) - py(m, j);
    &&& lx + ly > VIEW_EPS
    &&& vx(m, i) + vy(m, i) > VIEW_EPS
    &&& iabs(angle_fp(vx(m, i), vy(m, i), lx, ly)) > FIELD_OF_VIEW_LIMIT
}

/// Agent `j` is a neighbour of agent `i`: within the neighbourhood
/// radius and not excluded by the view cone.
pub open spec fn is_neighbour(m: FlockModel, i: int, j: int) -> bool {
    &&& dist_fp(px(m, i), py(m, i), px(m, j), py(m, j)) < NEIGHBOURHOOD_RADIUS
    &&& !is_out_of_view(m, i, j)
}

/// The neighbours of agent `i` among agents `0 .. n`, in index order.
pub open spec fn nb_upto(m: FlockModel, i: int, n: int) -> Seq<int>
    decreases n,
{
    if n <= 0 {
        Seq::empty()
    } else {
        let pre = nb_upto(m, i, n - 1);
        if n - 1 != i && is_neighbour(m, i, n - 1) {
            pre.push(n - 1)
        } else {
            pre
        }
    }
}

/// The neighbours of agent `i`, in index order.
pub open spec fn spec_neighbours(m: FlockModel, i: int) -> Seq<int> {
    nb_upto(m, i, m.count)
}

/// Every entry of [`nb_upto`] is a valid agent index other than `i`,
/// and there are at most `n` of them.
pub proof fn lemma_nb_valid(m: FlockModel, i: int, n: int)
    ensures
        nb_upto(m, i, n).len() <= (if n >= 0 { n } else { 0 }),
        forall|k: int|
            0 <= k < nb_upto(m, i, n).len() ==> 0 <= #[trigger] nb_upto(m, i, n)[k] < n
                && nb_upto(m, i, n)[k] != i,
    decreases n,
{
    if n > 0 {
        lemma_nb_valid(m, i, n - 1);
    }
}

/// Sum of the velocities of the listed agents.
pub open spec fn sum_vel(m: FlockModel, ns: Seq<int>) -> (int, int)
    decreases ns.len(),
{
    if ns.len() == 0 {
        (0, 0)
    } else {
        let p = sum_vel(m, ns.drop_last());
        (p.0 + vx(m, ns.last()), p.1 + vy(m, ns.last()))
    }
}

/// Sum of the positions of the listed agents.
pub open spec fn sum_pos(m: FlockModel, ns: Seq<int>) -> (int, int)
    decreases ns.len(),
{
    if ns.len() == 0 {
        (0, 0)
    } else {
        let p = sum_pos(m, ns.drop_last());
        (p.0 + px(m, ns.last()), p.1 + py(m, ns.last()))
    }
}

/// Alignment steering: the neighbours' velocity sum divided by
/// `len / MAX_STEER_FORCE`; zero without neighbours.
pub open spec fn spec_align(m: FlockModel, ns: Seq<int>) -> (int, int) {
    let s = sum_vel(m, ns);
    if ns.len() > 0 {
        let dv = stdiv(ns.len() as int * 1000000, MAX_STEER_FORCE as int);
        (stdiv(s.0 * 1000, dv), stdiv(s.1 * 1000, dv))
    } else {
        s
    }
}

/// Cohesion steering: the offset from agent `i` to the neighbours'
/// centroid, clamped to [`MAX_STEER_FORCE`]; zero without neighbours.
pub open spec fn spec_cohede(m: FlockModel, i: int, ns: Seq<int>) -> (int, int) {
    let s = sum_pos(m, ns);
    let v = if ns.len() > 0 {
        (stdiv(s.0, ns.len() as int) - px(m, i), stdiv(s.1, ns.len() as int) - py(m, i))
    } else {
        s
    };
    limit_fp(v.0, v.1, MAX_STEER_FORCE as int)
}

/// One separation contribution: the unit vector away from a neighbour,
/// weighted by the inverse distance; zero outside `(0, DESIRED_SEPARATION)`.
pub open spec fn sep_term(m: FlockModel, i: int, j: int) -> (int, int) {
    let d = dist_fp(px(m, i), py(m, i), px(m, j), py(m, j));
    if d > 0 && d < DESIRED_SEPARATION {
        let dir = normalise_fp(px(m, i) - px(m, j), py(m, i) - py(m, j));
        (stdiv(dir.0 * 1000, d), stdiv(dir.1 * 1000, d))
    } else {
        (0, 0)
    }
}

/// Separation steering: the sum of [`sep_term`] over the neighbours.
pub open spec fn spec_separate(m: FlockModel, i: int, ns: Seq<int>) -> (int, int)
    decreases ns.len(),
{
    if ns.len() == 0 {
        (0, 0)
    } else {
        let p = spec_separate(m, i, ns.drop_last());
        let t = sep_term(m, i, ns.last());
        (p.0 + t.0, p.1 + t.1)
    }
}

/// The unit vector from `(x, y)` toward `(ox, oy)`; zero at distance 0.
pub open spec fn spec_steer_towards(x: int, y: int, ox: int, oy: int) -> (int, int) {
    let d = dist_fp(x, y, ox, oy);
    if d > 0 {
        (stdiv((ox - x) * 1000, d), stdiv((oy - y) * 1000, d))
    } else {
        (0, 0)
    }
}

/// The vector from `(ox, oy)` toward `(x, y)` with inverse-square
/// falloff; zero at distance 0.
pub open spec fn spec_steer_away(x: int, y: int, ox: int, oy: int) -> (int, int) {
    let d = dist_fp(x, y, ox, oy);
    if d > 0 {
        (stdiv((x - ox) * 1000000, d * d), stdiv((y - oy) * 1000000, d * d))
    } else {
        (0, 0)
    }
}

/// Wall avoidance: the sum of four inverse-square pushes away from the
/// perpendicular points on the four arena borders.
pub open spec fn spec_avoid_walls(m: FlockModel, i: int) -> (int, int) {
    let x = px(m, i);
    let y = py(m, i);
    let a = spec_steer_away(x, y, 0, y);
    let b = spec_steer_away(x, y, m.width * 1000, y);
    let c = spec_steer_away(x, y, x, 0);
    let d = spec_steer_away(x, y, x, m.height * 1000);
    (a.0 + b.0 + c.0 + d.0, a.1 + b.1 + c.1 + d.1)
}

/// The effective attraction target: the stored attractor, or the arena
/// center when none is set.
pub open spec fn spec_get_attractor(m: FlockModel) -> Option<(int, int)> {
    match m.attractor {
        Some(a) => Some(a),
        None => Some((m.width * 500, m.height * 500)),
    }
}

/// The three neighbour-driven contributions (alignment, cohesion,
/// separation) of agent `i`, each scaled by its force constant.
pub open spec fn spec_nb_accel(m: FlockModel, i: int) -> (int, int) {
    let ns = spec_neighbours(m, i);
    let al = spec_align(m, ns);
    let co = spec_cohede(m, i, ns);
    let se = spec_separate(m, i, ns);
    (
        mul_fp(ALIGN_FORCE as int, al.0) + mul_fp(COHESION_FORCE as int, co.0) + mul_fp(
            SEPARATION_FORCE as int,
            se.0,
        ),
        mul_fp(ALIGN_FORCE as int, al.1) + mul_fp(COHESION_FORCE as int, co.1) + mul_fp(
            SEPARATION_FORCE as int,
            se.1,
        ),
    )
}

/// The three point-driven contributions (attraction, wall avoidance,
/// repulsion) of agent `i`, each scaled by its force constant.
pub open spec fn spec_pt_accel(m: FlockModel, i: int) -> (int, int) {
    let at = match spec_get_attractor(m) {
        Some(a) => spec_steer_towards(px(m, i), py(m, i), a.0, a.1),
        None => (0, 0),
    };
    let re = match m.repulsor {
        Some(r) => spec_steer_away(px(m, i), py(m, i), r.0, r.1),
        None => (0, 0),
    };
    let av = spec_avoid_walls(m, i);
    (
        mul_fp(ATTRACTION_FORCE as int, at.0) + mul_fp(AVOIDANCE_FORCE as int, av.0) + mul_fp(
            REPULSION_FORCE as int,
            re.0,
        ),
        mul_fp(ATTRACTION_FORCE as int, at.1) + mul_fp(AVOIDANCE_FORCE as int, av.1) + mul_fp(
            REPULSION_FORCE as int,
            re.1,
        ),
    )
}

/// The acceleration of agent `i` computed by one force pass: the six
/// steering contributions, each scaled by its force constant.
pub open spec fn spec_accel(m: FlockModel, i: int) -> (int, int) {
    (
        spec_nb_accel(m, i).0 + spec_pt_accel(m, i).0,
        spec_nb_accel(m, i).1 + spec_pt_accel(m, i).1,
    )
}

/// The near-wrap at one border pair: a coordinate past the low border
/// lands one unit inside the high one and vice versa.
pub open spec fn wrap_coord(x: int, w: int) -> int {
    if x < 0 {
        w * 1000 - 1000
    } else if x > w * 1000 {
        1000
    } else {
        x
    }
}

/// The velocity of agent `i` after a tick: the old velocity plus the
/// acceleration of the force pass, clamped to [`MAX_SPEED`].
pub open spec fn spec_new_vel(m: FlockModel, i: int) -> (int, int) {
    let a = spec_accel(m, i);
    limit_fp(vx(m, i) + a.0, vy(m, i) + a.1, MAX_SPEED as int)
}

/// The position of agent `i` after a tick: the old position plus the
/// new velocity, wrapped at the arena borders.
pub open spec fn spec_new_pos(m: FlockModel, i: int) -> (int, int) {
    let v = spec_new_vel(m, i);
    (wrap_coord(px(m, i) + v.0, m.width), wrap_coord(py(m, i) + v.1, m.height))
}

/// One whole tick over the model: every agent's velocity and position
/// are replaced by [`spec_new_vel`] and [`spec_new_pos`] of the common
/// starting state.
pub open spec fn spec_update(m: FlockModel) -> FlockModel {
    FlockModel {
        positions: Seq::new(
            m.positions.len(),
            |k: int|
                if k % 2 == 0 {
                    spec_new_pos(m, k / 2).0
                } else {
                    spec_new_pos(m, k / 2).1
                },
        ),
        velocities: Seq::new(
            m.velocities.len(),
            |k: int|
                if k % 2 == 0 {
                    spec_new_vel(m, k / 2).0
                } else {
                    spec_new_vel(m, k / 2).1
                },
        ),
        ..m
    }
}

impl BoidFlock {
    /// The position of agent `i`.
    fn pos_of(&self, i: usize) -> (r: (i64, i64))
        requires
            self.wf(),
            i < self@.count,
        ensures
            r.0 as int == px(self@, i as int),
            r.1 as int == py(self@, i as int),
            iabs(r.0 as int) <= POS_LIMIT,
            iabs(r.1 as int) <= POS_LIMIT,
    {
        (self.positions[2 * i], self.positions[2 * i + 1])
    }

    /// The velocity of agent `i`.
    fn vel_of(&self, i: usize) -> (r: (i64, i64))
        requires
            self.wf(),
            i < self@.count,
        ensures
            r.0 as int == vx(self@, i as int),
            r.1 as int == vy(self@, i as int),
            iabs(r.0 as int) <= VEL_LIMIT,
            iabs(r.1 as int) <= VEL_LIMIT,
    {
        (self.velocities[2 * i], self.velocities[2 * i + 1])
    }

    /// The effective attraction target, exactly [`spec_get_attractor`].
    fn get_attractor(&self) -> (r: Option<(i64, i64)>)
        requires
            self.wf(),
        ensures
            (r matches Some(a) ==> spec_get_attractor(self@) == Some((a.0 as int, a.1 as int))
                && iabs(a.0 as int) <= POS_LIMIT && iabs(a.1 as int) <= POS_LIMIT),
            (r is Some),
    {
        match self.attractor {
            Some(a) => Some(a),
            None => Some(((self.width as i64) * 500, (self.height as i64) * 500)),
        }
    }

    /// The stored repulsor, if any.
    fn get_repulsor(&self) -> (r: Option<(i64, i64)>)
        requires
            self.wf(),
        ensures
            (r matches Some(a) ==> self@.repulsor == Some((a.0 as int, a.1 as int)) && iabs(
                a.0 as int,
            ) <= POS_LIMIT && iabs(a.1 as int) <= POS_LIMIT),
            ((r is None) ==> (self@.repulsor is None)),
    {
        self.repulsor
    }

    /// Inverse-square push away from `(ox, oy)`, exactly
    /// [`spec_steer_away`].
    fn steer_away(&self, x: i64, y: i64, ox: i64, oy: i64) -> (r: (i64, i64))
        requires
            -4000000000 <= x <= 4000000000,
            -4000000000 <= y <= 4000000000,
            -4000000000 <= ox <= 4000000000,
            -4000000000 <= oy <= 4000000000,
        ensures
            r.0 as int == spec_steer_away(x as int, y as int, ox as int, oy as int).0,
            r.1 as int == spec_steer_away(x as int, y as int, ox as int, oy as int).1,
            iabs(r.0 as int) <= 1000000,
            iabs(r.1 as int) <= 1000000,
    {
        let d = crate::linalg::euclid_dist(x, y, ox, oy);
        if d > 0 {
            let ghost gx = x as int - ox as int;
            let ghost gy = y as int - oy as int;
            proof {
                assert(gx * gx >= 0 && gy * gy >= 0) by (nonlinear_arith);
                lemma_isqrt(gx * gx + gy * gy);
                lemma_component_le_isqrt(gx, gy);
                lemma_component_le_isqrt(gy, gx);
                assert(gy * gy + gx * gx == gx * gx + gy * gy);
                assert(d as int * (d as int) >= 1 && d as int * (d as int) <= gx * gx + gy * gy)
                    by (nonlinear_arith)
                    requires
                        d >= 1,
                        (d as int) * (d as int) <= gx * gx + gy * gy,
                ;
                assert(gx * gx + gy * gy < 0x4000_0000_0000_0000_0000_0000_0000_0000)
                    by (nonlinear_arith)
                    requires
                        -8000000000 <= gx <= 8000000000,
                        -8000000000 <= gy <= 8000000000,
                ;
                lemma_stdiv_bounds(gx * 1000000, d as int * (d as int));
                lemma_stdiv_bounds(gy * 1000000, d as int * (d as int));
                lemma_iabs_mul(gx, 1000000);
                lemma_iabs_mul(gy, 1000000);
                assert(iabs(stdiv(gx * 1000000, d as int * (d as int))) <= 1000000)
                    by (nonlinear_arith)
                    requires
                        d as int >= 1,
                        iabs(stdiv(gx * 1000000, d as int * (d as int))) * (d as int * (d as int))
                            <= iabs(gx) * 1000000,
                        iabs(gx) <= d as int,
                        iabs(stdiv(gx * 1000000, d as int * (d as int))) >= 0,
                ;
                assert(iabs(stdiv(gy * 1000000, d as int * (d as int))) <= 1000000)
                    by (nonlinear_arith)
                    requires
                        d as int >= 1,
                        iabs(stdiv(gy * 1000000, d as int * (d as int))) * (d as int * (d as int))
                            <= iabs(gy) * 1000000,
                        iabs(gy) <= d as int,
                        iabs(stdiv(gy * 1000000, d as int * (d as int))) >= 0,
                ;
            }
            let dd = (d as i128) * (d as i128);
            let rx = div_trunc(((x as i128) - (ox as i128)) * 1000000, dd);
            let ry = div_trunc(((y as i128) - (oy as i128)) * 1000000, dd);
            (rx as i64, ry as i64)
        } else {
            (0, 0)
        }
    }

    /// Unit pull toward `(ox, oy)`, exactly [`spec_steer_towards`].
    fn steer_towards(&self, x: i64, y: i64, ox: i64, oy: i64) -> (r: (i64, i64))
        requires
            -4000000000 <= x <= 4000000000,
            -4000000000 <= y <= 4000000000,
            -4000000000 <= ox <= 4000000000,
            -4000000000 <= oy <= 4000000000,
        ensures
            r.0 as int == spec_steer_towards(x as int, y as int, ox as int, oy as int).0,
            r.1 as int == spec_steer_towards(x as int, y as int, ox as int, oy as int).1,
            iabs(r.0 as int) <= 1000,
            iabs(r.1 as int) <= 1000,
    {
        let d = crate::linalg::euclid_dist(x, y, ox, oy);
        if d > 0 {
            let ghost gx = ox as int - x as int;
            let ghost gy = oy as int - y as int;
            proof {
                let sx = x as int - ox as int;
                let sy = y as int - oy as int;
                assert(sx * sx >= 0 && sy * sy >= 0) by (nonlinear_arith);
                lemma_isqrt(sx * sx + sy * sy);
                lemma_component_le_isqrt(sx, sy);
                lemma_component_le_isqrt(sy, sx);
                assert(sy * sy + sx * sx == sx * sx + sy * sy);
                assert(iabs(gx) == iabs(sx) && iabs(gy) == iabs(sy));
                lemma_stdiv_bounds(gx * 1000, d as int);
                lemma_stdiv_bounds(gy * 1000, d as int);
                lemma_iabs_mul(gx, 1000);
                lemma_iabs_mul(gy, 1000);
                assert(iabs(stdiv(gx * 1000, d as int)) <= 1000) by (nonlinear_arith)
                    requires
                        d as int >= 1,
                        iabs(stdiv(gx * 1000, d as int)) * (d as int) <= iabs(gx) * 1000,
                        iabs(gx) <= d as int,
                        iabs(stdiv(gx * 1000, d as int)) >= 0,
                ;
                assert(iabs(stdiv(gy * 1000, d as int)) <= 1000) by (nonlinear_arith)
                    requires
                        d as int >= 1,
                        iabs(stdiv(gy * 1000, d as int)) * (d as int) <= iabs(gy) * 1000,
                        iabs(gy) <= d as int,
                        iabs(stdiv(gy * 1000, d as int)) >= 0,
                ;
            }
            let rx = div_trunc(((ox as i128) - (x as i128)) * 1000, d as i128);
            let ry = div_trunc(((oy as i128) - (y as i128)) * 1000, d as i128);
            (rx as i64, ry as i64)
        } else {
            (0, 0)
        }
    }

    /// Unit pull from agent `idx` toward a target point.
    fn attract(&self, idx: usize, targetx: i64, targety: i64) -> (r: (i64, i64))
        requires
            self.wf(),
            idx < self@.count,
            -POS_LIMIT <= targetx <= POS_LIMIT,
            -POS_LIMIT <= targety <= POS_LIMIT,
        ensures
            r.0 as int == spec_steer_towards(
                px(self@, idx as int),
                py(self@, idx as int),
                targetx as int,
                targety as int,
            ).0,
            r.1 as int == spec_steer_towards(
                px(self@, idx as int),
                py(self@, idx as int),
                targetx as int,
                targety as int,
            ).1,
            iabs(r.0 as int) <= 1000,
            iabs(r.1 as int) <= 1000,
    {
        let p = self.pos_of(idx);
        self.steer_towards(p.0, p.1, targetx, targety)
    }

    /// Inverse-square push on agent `idx` away from a repulsor point.
    fn repel(&self, idx: usize, r_x: i64, r_y: i64) -> (r: (i64, i64))
        requires
            self.wf(),
            idx < self@.count,
            -POS_LIMIT <= r_x <= POS_LIMIT,
            -POS_LIMIT <= r_y <= POS_LIMIT,
        ensures
            r.0 as int == spec_steer_away(
                px(self@, idx as int),
                py(self@, idx as int),
                r_x as int,
                r_y as int,
            ).0,
            r.1 as int == spec_steer_away(
                px(self@, idx as int),
                py(self@, idx as int),
                r_x as int,
                r_y as int,
            ).1,
            iabs(r.0 as int) <= 1000000,
            iabs(r.1 as int) <= 1000000,
    {
        let p = self.pos_of(idx);
        self.steer_away(p.0, p.1, r_x, r_y)
    }

    /// Wall avoidance for agent `idx`, exactly [`spec_avoid_walls`].
    #[verifier::rlimit(80)]
    fn avoid_walls(&self, idx: usize, width: usize, height: usize) -> (r: (i64, i64))
        requires
            self.wf(),
            idx < self@.count,
            width as int == self@.width,
            height as int == self@.height,
        ensures
            r.0 as int == spec_avoid_walls(self@, idx as int).0,
            r.1 as int == spec_avoid_walls(self@, idx as int).1,
            iabs(r.0 as int) <= 4000000,
            iabs(r.1 as int) <= 4000000,
    {
        let p = self.pos_of(idx);
        let w_fp = (width as i64) * 1000;
        let h_fp = (height as i64) * 1000;
        let a = self.steer_away(p.0, p.1, 0, p.1);
        let b = self.steer_away(p.0, p.1, w_fp, p.1);
        let c = self.steer_away(p.0, p.1, p.0, 0);
        let e = self.steer_away(p.0, p.1, p.0, h_fp);
        (a.0 + b.0 + c.0 + e.0, a.1 + b.1 + c.1 + e.1)
    }
}

impl BoidFlock {
    /// The neighbour list of agent `idx`: every other agent within
    /// [`NEIGHBOURHOOD_RADIUS`] that the view cone does not exclude, in
    /// index order; exactly [`spec_neighbours`].
    fn get_neighbours(&self, idx: usize) -> (ns: Vec<usize>)
        requires
            self.wf(),
            idx < self@.count,
        ensures
            nseq(ns@) == spec_neighbours(self@, idx as int),
            ns@.len() <= self@.count,
            forall|k: int| 0 <= k < ns@.len() ==> (ns@[k] as int) < self@.count && ns@[k] != idx,
    {
        let mut ns: Vec<usize> = Vec::new();
        let p = self.pos_of(idx);
        let v = self.vel_of(idx);
        let mut i: usize = 0;
        while i < self.count
            invariant
                self.wf(),
                idx < self@.count,
                i <= self@.count,
                self.count == self@.count,
                p.0 as int == px(self@, idx as int),
                p.1 as int == py(self@, idx as int),
                v.0 as int == vx(self@, idx as int),
                v.1 as int == vy(self@, idx as int),
                -POS_LIMIT <= p.0 <= POS_LIMIT,
                -POS_LIMIT <= p.1 <= POS_LIMIT,
                nseq(ns@) == nb_upto(self@, idx as int, i as int),
                ns@.len() <= i,
                forall|k: int| 0 <= k < ns@.len() ==> (ns@[k] as int) < i && ns@[k] != idx,
            decreases self@.count - i,
        {
            if i != idx {
                let q = self.pos_of(i);
                let d = crate::linalg::euclid_dist(p.0, p.1, q.0, q.1);
                if d < NEIGHBOURHOOD_RADIUS {
                    let linex = p.0 - q.0;
                    let liney = p.1 - q.1;
                    let mut excluded = false;
                    if linex + liney > VIEW_EPS && v.0 + v.1 > VIEW_EPS {
                        let ang = crate::linalg::angle_between(v.0, v.1, linex, liney);
                        let a_abs = if ang < 0 { -ang } else { ang };
                        if a_abs > FIELD_OF_VIEW_LIMIT {
                            excluded = true;
                        }
                    }
                    proof {
                        assert(excluded == is_out_of_view(self@, idx as int, i as int));
                    }
                    if !excluded {
                        proof {
                            assert(is_neighbour(self@, idx as int, i as int));
                        }
                        ns.push(i);
                        proof {
                            assert(nseq(ns@) =~= nb_upto(self@, idx as int, i as int + 1));
                        }
                    } else {
                        proof {
                            assert(!is_neighbour(self@, idx as int, i as int));
                            assert(nb_upto(self@, idx as int, i as int + 1) == nb_upto(
                                self@,
                                idx as int,
                                i as int,
                            ));
                        }
                    }
                } else {
                    proof {
                        assert(!is_neighbour(self@, idx as int, i as int));
                    }
                }
            }
            i = i + 1;
        }
        ns
    }

    /// Alignment steering of agent `idx`, exactly [`spec_align`].
    fn align(&self, idx: usize, neighbours: &Vec<usize>) -> (r: (i64, i64))
        requires
            self.wf(),
            neighbours@.len() <= self@.count,
            forall|k: int| 0 <= k < neighbours@.len() ==> (neighbours@[k] as int) < self@.count,
        ensures
            r.0 as int == spec_align(self@, nseq(neighbours@)).0,
            r.1 as int == spec_align(self@, nseq(neighbours@)).1,
            iabs(r.0 as int) <= 400000000,
            iabs(r.1 as int) <= 400000000,
    {
        let ghost gns = nseq(neighbours@);
        let mut sx: i64 = 0;
        let mut sy: i64 = 0;
        let mut k: usize = 0;
        while k < neighbours.len()
            invariant
                self.wf(),
                neighbours@.len() <= self@.count,
                forall|j: int|
                    0 <= j < neighbours@.len() ==> (neighbours@[j] as int) < self@.count,
                gns == nseq(neighbours@),
                k <= neighbours@.len(),
                sx as int == sum_vel(self@, gns.subrange(0, k as int)).0,
                sy as int == sum_vel(self@, gns.subrange(0, k as int)).1,
                iabs(sx as int) <= k * VEL_LIMIT,
                iabs(sy as int) <= k * VEL_LIMIT,
            decreases neighbours@.len() - k,
        {
            let j = neighbours[k];
            let vj = self.vel_of(j);
            proof {
                assert(gns.subrange(0, k as int + 1).drop_last() =~= gns.subrange(0, k as int));
                assert(gns.subrange(0, k as int + 1).last() == j as int);
            }
            sx = sx + vj.0;
            sy = sy + vj.1;
            k = k + 1;
        }
        proof {
            assert(gns.subrange(0, gns.len() as int) =~= gns);
        }
        let len = neighbours.len();
        if len > 0 {
            proof {
                let l = len as int;
                assert(999950 * l == (2857 * l) * 350) by (nonlinear_arith);
                lemma_div_is_ordered(999950 * l, l * 1000000, 350);
                lemma_div_multiples_vanish(2857 * l, 350);
                assert(stdiv(l * 1000000, 350) >= 2857 * l);
                assert(2857 * l >= 2857);
                lemma_stdiv_bounds(sx as int * 1000, stdiv(l * 1000000, 350));
                lemma_stdiv_bounds(sy as int * 1000, stdiv(l * 1000000, 350));
                lemma_iabs_mul(sx as int, 1000);
                lemma_iabs_mul(sy as int, 1000);
                assert(iabs(stdiv(sx as int * 1000, stdiv(l * 1000000, 350))) <= 400000000)
                    by (nonlinear_arith)
                    requires
                        l >= 1,
                        iabs(stdiv(sx as int * 1000, stdiv(l * 1000000, 350))) * stdiv(
                            l * 1000000,
                            350,
                        ) <= iabs(sx as int) * 1000,
                        iabs(sx as int) <= l * VEL_LIMIT,
                        stdiv(l * 1000000, 350) >= 2857 * l,
                        iabs(stdiv(sx as int * 1000, stdiv(l * 1000000, 350))) >= 0,
                ;
                assert(iabs(stdiv(sy as int * 1000, stdiv(l * 1000000, 350))) <= 400000000)
                    by (nonlinear_arith)
                    requires
                        l >= 1,
                        iabs(stdiv(sy as int * 1000, stdiv(l * 1000000, 350))) * stdiv(
                            l * 1000000,
                            350,
                        ) <= iabs(sy as int) * 1000,
                        iabs(sy as int) <= l * VEL_LIMIT,
                        stdiv(l * 1000000, 350) >= 2857 * l,
                        iabs(stdiv(sy as int * 1000, stdiv(l * 1000000, 350))) >= 0,
                ;
            }
            let dv = div_trunc((len as i128) * 1000000, 350);
            let rx = div_trunc((sx as i128) * 1000, dv);
            let ry = div_trunc((sy as i128) * 1000, dv);
            (rx as i64, ry as i64)
        } else {
            (sx, sy)
        }
    }

    /// Cohesion steering of agent `idx`, exactly [`spec_cohede`].
    fn cohede(&self, idx: usize, neighbours: &Vec<usize>) -> (r: (i64, i64))
        requires
            self.wf(),
            idx < self@.count,
            neighbours@.len() <= self@.count,
            forall|k: int| 0 <= k < neighbours@.len() ==> (neighbours@[k] as int) < self@.count,
        ensures
            r.0 as int == spec_cohede(self@, idx as int, nseq(neighbours@)).0,
            r.1 as int == spec_cohede(self@, idx as int, nseq(neighbours@)).1,
            iabs(r.0 as int) <= MAX_STEER_FORCE,
            iabs(r.1 as int) <= MAX_STEER_FORCE,
    {
        let ghost gns = nseq(neighbours@);
        let mut sx: i64 = 0;
        let mut sy: i64 = 0;
        let mut k: usize = 0;
        while k < neighbours.len()
            invariant
                self.wf(),
                neighbours@.len() <= self@.count,
                forall|j: int|
                    0 <= j < neighbours@.len() ==> (neighbours@[j] as int) < self@.count,
                gns == nseq(neighbours@),
                k <= neighbours@.len(),
                sx as int == sum_pos(self@, gns.subrange(0, k as int)).0,
                sy as int == sum_pos(self@, gns.subrange(0, k as int)).1,
                iabs(sx as int) <= k * POS_LIMIT,
                iabs(sy as int) <= k * POS_LIMIT,
            decreases neighbours@.len() - k,
        {
            let j = neighbours[k];
            let pj = self.pos_of(j);
            proof {
                assert(gns.subrange(0, k as int + 1).drop_last() =~= gns.subrange(0, k as int));
                assert(gns.subrange(0, k as int + 1).last() == j as int);
            }
            sx = sx + pj.0;
            sy = sy + pj.1;
            k = k + 1;
        }
        proof {
            assert(gns.subrange(0, gns.len() as int) =~= gns);
        }
        let len = neighbours.len();
        let steer: (i64, i64) = if len > 0 {
            proof {
                let l = len as int;
                lemma_stdiv_le(sx as int, l * POS_LIMIT, l);
                lemma_stdiv_le(sy as int, l * POS_LIMIT, l);
                assert(l * POS_LIMIT == POS_LIMIT * l) by (nonlinear_arith);
                lemma_div_multiples_vanish(POS_LIMIT as int, l);
            }
            let p = self.pos_of(idx);
            let ax = div_trunc(sx as i128, len as i128) as i64;
            let ay = div_trunc(sy as i128, len as i128) as i64;
            (ax - p.0, ay - p.1)
        } else {
            (sx, sy)
        };
        proof {
            lemma_limit_norm(steer.0 as int, steer.1 as int, MAX_STEER_FORCE as int);
            lemma_component_le_isqrt(
                limit_fp(steer.0 as int, steer.1 as int, MAX_STEER_FORCE as int).0,
                limit_fp(steer.0 as int, steer.1 as int, MAX_STEER_FORCE as int).1,
            );
            lemma_component_le_isqrt(
                limit_fp(steer.0 as int, steer.1 as int, MAX_STEER_FORCE as int).1,
                limit_fp(steer.0 as int, steer.1 as int, MAX_STEER_FORCE as int).0,
            );
        }
        crate::linalg::limit(steer.0, steer.1, MAX_STEER_FORCE)
    }

    /// Separation steering of agent `idx`, exactly [`spec_separate`].
    fn separate(&self, idx: usize, neighbours: &Vec<usize>) -> (r: (i64, i64))
        requires
            self.wf(),
            idx < self@.count,
            neighbours@.len() <= self@.count,
            forall|k: int| 0 <= k < neighbours@.len() ==> (neighbours@[k] as int) < self@.count,
        ensures
            r.0 as int == spec_separate(self@, idx as int, nseq(neighbours@)).0,
            r.1 as int == spec_separate(self@, idx as int, nseq(neighbours@)).1,
            iabs(r.0 as int) <= 66000000000,
            iabs(r.1 as int) <= 66000000000,
    {
        let ghost gns = nseq(neighbours@);
        let p = self.pos_of(idx);
        let mut sx: i64 = 0;
        let mut sy: i64 = 0;
        let mut k: usize = 0;
        while k < neighbours.len()
            invariant
                self.wf(),
                idx < self@.count,
                neighbours@.len() <= self@.count,
                forall|j: int|
                    0 <= j < neighbours@.len() ==> (neighbours@[j] as int) < self@.count,
                gns == nseq(neighbours@),
                k <= neighbours@.len(),
                p.0 as int == px(self@, idx as int),
                p.1 as int == py(self@, idx as int),
                -POS_LIMIT <= p.0 <= POS_LIMIT,
                -POS_LIMIT <= p.1 <= POS_LIMIT,
                sx as int == spec_separate(self@, idx as int, gns.subrange(0, k as int)).0,
                sy as int == spec_separate(self@, idx as int, gns.subrange(0, k as int)).1,
                iabs(sx as int) <= k * 1000000,
                iabs(sy as int) <= k * 1000000,
            decreases neighbours@.len() - k,
        {
            let j = neighbours[k];
            let q = self.pos_of(j);
            let d = crate::linalg::euclid_dist(p.0, p.1, q.0, q.1);
            let mut tx: i64 = 0;
            let mut ty: i64 = 0;
            if d > 0 && d < DESIRED_SEPARATION {
                proof {
                    assert(norm_fp(p.0 as int - q.0 as int, p.1 as int - q.1 as int) == dist_fp(
                        p.0 as int,
                        p.1 as int,
                        q.0 as int,
                        q.1 as int,
                    ));
                }
                let dir = crate::linalg::normalise(p.0 - q.0, p.1 - q.1);
                proof {
                    lemma_stdiv_le(dir.0 as int * 1000, 1000000, d as int);
                    lemma_stdiv_le(dir.1 as int * 1000, 1000000, d as int);
                    lemma_iabs_mul(dir.0 as int, 1000);
                    lemma_iabs_mul(dir.1 as int, 1000);
                }
                tx = div_trunc((dir.0 as i128) * 1000, d as i128) as i64;
                ty = div_trunc((dir.1 as i128) * 1000, d as i128) as i64;
            }
            proof {
                assert(tx as int == sep_term(self@, idx as int, j as int).0);
                assert(ty as int == sep_term(self@, idx as int, j as int).1);
                assert(gns.subrange(0, k as int + 1).drop_last() =~= gns.subrange(0, k as int));
                assert(gns.subrange(0, k as int + 1).last() == j as int);
            }
            sx = sx + tx;
            sy = sy + ty;
            k = k + 1;
        }
        proof {
            assert(gns.subrange(0, gns.len() as int) =~= gns);
        }
        (sx, sy)
    }
}

/// Scaling a bounded value by a positive fixed-point factor keeps the
/// product in range and bounds the scaled result.
proof fn lemma_mul_scalar_pre(sc: int, v0: int, v1: int, b: int)
    requires
        sc >= 1,
        b >= 0,
        iabs(v0) <= b,
        iabs(v1) <= b,
        sc * b <= 0x7fff_ffff_ffff_ffff * 1000,
    ensures
        iabs(sc * v0) <= 0x7fff_ffff_ffff_ffff * 1000,
        iabs(sc * v1) <= 0x7fff_ffff_ffff_ffff * 1000,
        iabs(mul_fp(sc, v0)) <= (sc * b) / 1000,
        iabs(mul_fp(sc, v1)) <= (sc * b) / 1000,
{
    lemma_iabs_mul(v0, sc);
    lemma_iabs_mul(v1, sc);
    assert(v0 * sc == sc * v0 && v1 * sc == sc * v1) by (nonlinear_arith);
    lemma_mul_inequality(iabs(v0), b, sc);
    lemma_mul_inequality(iabs(v1), b, sc);
    assert(b * sc == sc * b) by (nonlinear_arith);
    lemma_stdiv_le(sc * v0, sc * b, 1000);
    lemma_stdiv_le(sc * v1, sc * b, 1000);
}

impl BoidFlock {
    /// The acceleration buffer as unbounded integers.
    spec fn accs(&self) -> Seq<int> {
        self.accelerations@.map_values(|v: i64| v as int)
    }

    /// The neighbour-driven part of the acceleration of agent `idx`,
    /// exactly [`spec_nb_accel`].
    #[verifier::rlimit(100)]
    fn compute_nb_accel(&self, idx: usize) -> (r: (i64, i64))
        requires
            self.wf(),
            idx < self@.count,
        ensures
            r.0 as int == spec_nb_accel(self@, idx as int).0,
            r.1 as int == spec_nb_accel(self@, idx as int).1,
            iabs(r.0 as int) <= 200000000000,
            iabs(r.1 as int) <= 200000000000,
    {
        let ns = self.get_neighbours(idx);
        let al = self.align(idx, &ns);
        let co = self.cohede(idx, &ns);
        let se = self.separate(idx, &ns);
        proof {
            lemma_mul_scalar_pre(ALIGN_FORCE as int, al.0 as int, al.1 as int, 400000000);
            lemma_mul_scalar_pre(COHESION_FORCE as int, co.0 as int, co.1 as int, 350);
            lemma_mul_scalar_pre(SEPARATION_FORCE as int, se.0 as int, se.1 as int, 66000000000);
        }
        let alignment = crate::linalg::mul_scalar(&al, ALIGN_FORCE);
        let cohesion = crate::linalg::mul_scalar(&co, COHESION_FORCE);
        let separation = crate::linalg::mul_scalar(&se, SEPARATION_FORCE);
        (
            alignment.0 + cohesion.0 + separation.0,
            alignment.1 + cohesion.1 + separation.1,
        )
    }

    /// The point-driven part of the acceleration of agent `idx`,
    /// exactly [`spec_pt_accel`].
    #[verifier::rlimit(100)]
    fn compute_pt_accel(&self, idx: usize) -> (r: (i64, i64))
        requires
            self.wf(),
            idx < self@.count,
        ensures
            r.0 as int == spec_pt_accel(self@, idx as int).0,
            r.1 as int == spec_pt_accel(self@, idx as int).1,
            iabs(r.0 as int) <= 100000000,
            iabs(r.1 as int) <= 100000000,
    {
        let attraction = match self.get_attractor() {
            Some(a) => {
                let t = self.attract(idx, a.0, a.1);
                proof {
                    lemma_mul_scalar_pre(ATTRACTION_FORCE as int, t.0 as int, t.1 as int, 1000);
                }
                crate::linalg::mul_scalar(&t, ATTRACTION_FORCE)
            },
            None => (0, 0),
        };
        let repulsion = match self.get_repulsor() {
            Some(rp) => {
                let t = self.repel(idx, rp.0, rp.1);
                proof {
                    lemma_mul_scalar_pre(REPULSION_FORCE as int, t.0 as int, t.1 as int, 1000000);
                }
                crate::linalg::mul_scalar(&t, REPULSION_FORCE)
            },
            None => (0, 0),
        };
        let aw = self.avoid_walls(idx, self.width, self.height);
        proof {
            lemma_mul_scalar_pre(AVOIDANCE_FORCE as int, aw.0 as int, aw.1 as int, 4000000);
            vstd::arithmetic::div_mod::lemma_div_of0(1000);
        }
        let avoidance = crate::linalg::mul_scalar(&aw, AVOIDANCE_FORCE);
        (
            attraction.0 + avoidance.0 + repulsion.0,
            attraction.1 + avoidance.1 + repulsion.1,
        )
    }

    /// The force pass for agent `idx`: stores [`spec_accel`] in the
    /// agent's acceleration slot; positions and velocities are left
    /// untouched.
    fn flock(&mut self, idx: usize)
        requires
            old(self).wf(),
            idx < old(self)@.count,
        ensures
            final(self).wf(),
            final(self)@ == old(self)@,
            final(self).accs() == old(self).accs().update(
                2 * idx,
                spec_accel(old(self)@, idx as int).0,
            ).update(2 * idx + 1, spec_accel(old(self)@, idx as int).1),
    {
        let nb = self.compute_nb_accel(idx);
        let pt = self.compute_pt_accel(idx);
        let acceleration = (nb.0 + pt.0, nb.1 + pt.1);
        self.accelerations.set(2 * idx, acceleration.0);
        self.accelerations.set(2 * idx + 1, acceleration.1);
        proof {
            assert(final(self)@ =~= old(self)@);
            assert(final(self).accs() =~= old(self).accs().update(
                2 * idx,
                spec_accel(old(self)@, idx as int).0,
            ).update(2 * idx + 1, spec_accel(old(self)@, idx as int).1));
        }
    }

    /// The integration pass for agent `idx`: adds the stored
    /// acceleration to the velocity, clamps the result to [`MAX_SPEED`],
    /// moves by the new velocity and wraps at the arena borders.
    fn update_boid(&mut self, idx: usize)
        requires
            old(self).wf(),
            idx < old(self)@.count,
        ensures
            final(self).wf(),
            final(self).accs() == old(self).accs(),
            final(self)@.count == old(self)@.count,
            final(self)@.width == old(self)@.width,
            final(self)@.height == old(self)@.height,
            final(self)@.attractor == old(self)@.attractor,
            final(self)@.repulsor == old(self)@.repulsor,
            final(self)@.positions.len() == old(self)@.positions.len(),
            final(self)@.velocities.len() == old(self)@.velocities.len(),
            forall|k: int|
                0 <= k < old(self)@.positions.len() && k != 2 * idx && k != 2 * idx + 1
                    ==> final(self)@.positions[k] == old(self)@.positions[k]
                    && final(self)@.velocities[k] == old(self)@.velocities[k],
            ({
                let a0 = old(self).accs()[2 * idx];
                let a1 = old(self).accs()[2 * idx + 1];
                let nv = limit_fp(
                    vx(old(self)@, idx as int) + a0,
                    vy(old(self)@, idx as int) + a1,
                    MAX_SPEED as int,
                );
                &&& final(self)@.velocities[2 * idx] == nv.0
                &&& final(self)@.velocities[2 * idx + 1] == nv.1
                &&& final(self)@.positions[2 * idx] == wrap_coord(
                    px(old(self)@, idx as int) + nv.0,
                    old(self)@.width,
                )
                &&& final(self)@.positions[2 * idx + 1] == wrap_coord(
                    py(old(self)@, idx as int) + nv.1,
                    old(self)@.height,
                )
            }),
    {
        let v0 = self.velocities[2 * idx];
        let v1 = self.velocities[2 * idx + 1];
        let a0 = self.accelerations[2 * idx];
        let a1 = self.accelerations[2 * idx + 1];
        proof {
            assert(iabs(self@.velocities[2 * idx as int]) <= VEL_LIMIT);
            assert(iabs(self@.velocities[2 * idx as int + 1]) <= VEL_LIMIT);
            assert(v0 as int == self@.velocities[2 * idx as int]);
            assert(v1 as int == self@.velocities[2 * idx as int + 1]);
            assert(iabs(self.accelerations@[2 * idx as int] as int) <= ACC_LIMIT);
            assert(iabs(self.accelerations@[2 * idx as int + 1] as int) <= ACC_LIMIT);
            assert(iabs(self@.positions[2 * idx as int]) <= POS_LIMIT);
            assert(iabs(self@.positions[2 * idx as int + 1]) <= POS_LIMIT);
            assert(self.positions@[2 * idx as int] as int == self@.positions[2 * idx as int]);
            assert(self.positions@[2 * idx as int + 1] as int == self@.positions[2 * idx as int
                + 1]);
            lemma_limit_norm(v0 as int + a0 as int, v1 as int + a1 as int, MAX_SPEED as int);
        }
        let nv = crate::linalg::limit(v0 + a0, v1 + a1, MAX_SPEED);
        let w_fp = (self.width as i64) * 1000;
        let h_fp = (self.height as i64) * 1000;
        let mut x = self.positions[2 * idx] + nv.0;
        let mut y = self.positions[2 * idx + 1] + nv.1;
        if x < 0 {
            x = w_fp - 1000;
        } else if x > w_fp {
            x = 1000;
        }
        if y < 0 {
            y = h_fp - 1000;
        } else if y > h_fp {
            y = 1000;
        }
        self.velocities.set(2 * idx, nv.0);
        self.velocities.set(2 * idx + 1, nv.1);
        self.positions.set(2 * idx, x);
        self.positions.set(2 * idx + 1, y);
        proof {
            assert(final(self)@.positions =~= old(self)@.positions.update(
                2 * idx,
                x as int,
            ).update(2 * idx + 1, y as int));
            assert(final(self)@.velocities =~= old(self)@.velocities.update(
                2 * idx,
                nv.0 as int,
            ).update(2 * idx + 1, nv.1 as int));
        }
    }

    /// One tick: a force pass over every agent against the common
    /// starting snapshot, then an integration pass; exactly
    /// [`spec_update`] of the starting state.
    pub fn update(&mut self)
        requires
            old(self).wf(),
        ensures
            final(self).wf(),
            final(self)@ == spec_update(old(self)@),
    {
        let ghost m0 = self@;
        let mut i: usize = 0;
        while i < self.count
            invariant
                self.wf(),
                self@ == m0,
                self.count == m0.count,
                i <= m0.count,
                forall|j: int|
                    0 <= j < i ==> #[trigger] self.accs()[2 * j] == spec_accel(m0, j).0
                        && self.accs()[2 * j + 1] == spec_accel(m0, j).1,
            decreases m0.count - i,
        {
            self.flock(i);
            i = i + 1;
        }
        let mut n: usize = 0;
        while n < self.count
            invariant
                self.wf(),
                self.count == m0.count,
                n <= m0.count,
                self@.count == m0.count,
                self@.width == m0.width,
                self@.height == m0.height,
                self@.attractor == m0.attractor,
                self@.repulsor == m0.repulsor,
                self@.positions.len() == 2 * m0.count,
                self@.velocities.len() == 2 * m0.count,
                m0.positions.len() == 2 * m0.count,
                m0.velocities.len() == 2 * m0.count,
                forall|j: int|
                    0 <= j < m0.count ==> #[trigger] self.accs()[2 * j] == spec_accel(m0, j).0
                        && self.accs()[2 * j + 1] == spec_accel(m0, j).1,
                forall|j: int|
                    0 <= j < n ==> #[trigger] self@.velocities[2 * j] == spec_new_vel(m0, j).0
                        && self@.velocities[2 * j + 1] == spec_new_vel(m0, j).1,
                forall|j: int|
                    0 <= j < n ==> #[trigger] self@.positions[2 * j] == spec_new_pos(m0, j).0
                        && self@.positions[2 * j + 1] == spec_new_pos(m0, j).1,
                forall|j: int|
                    n <= j < m0.count ==> #[trigger] self@.velocities[2 * j] == m0.velocities[2 * j]
                        && self@.velocities[2 * j + 1] == m0.velocities[2 * j + 1],
                forall|j: int|
                    n <= j < m0.count ==> #[trigger] self@.positions[2 * j] == m0.positions[2 * j]
                        && self@.positions[2 * j + 1] == m0.positions[2 * j + 1],
            decreases m0.count - n,
        {
            proof {
                assert(self@.velocities[2 * n] == m0.velocities[2 * n]);
                assert(self@.positions[2 * n] == m0.positions[2 * n]);
            }
            let ghost prev = self@;
            self.update_boid(n);
            proof {
                assert(self@.velocities[2 * n as int] == spec_new_vel(m0, n as int).0);
                assert(self@.velocities[2 * n as int + 1] == spec_new_vel(m0, n as int).1);
                assert(self@.positions[2 * n as int] == spec_new_pos(m0, n as int).0);
                assert(self@.positions[2 * n as int + 1] == spec_new_pos(m0, n as int).1);
                assert forall|j: int| 0 <= j < n implies #[trigger] self@.velocities[2 * j]
                    == spec_new_vel(m0, j).0 && self@.velocities[2 * j + 1] == spec_new_vel(
                    m0,
                    j,
                ).1 && self@.positions[2 * j] == spec_new_pos(m0, j).0 && self@.positions[2 * j
                    + 1] == spec_new_pos(m0, j).1 by {
                    assert(prev.velocities[2 * j] == spec_new_vel(m0, j).0);
                    assert(prev.positions[2 * j] == spec_new_pos(m0, j).0);
                    assert(self@.velocities[2 * j] == prev.velocities[2 * j]);
                    assert(self@.velocities[2 * j + 1] == prev.velocities[2 * j + 1]);
                    assert(self@.positions[2 * j] == prev.positions[2 * j]);
                    assert(self@.positions[2 * j + 1] == prev.positions[2 * j + 1]);
                }
                assert forall|j: int| n as int + 1 <= j < m0.count implies #[trigger] self@.velocities[2
                    * j] == m0.velocities[2 * j] && self@.velocities[2 * j + 1] == m0.velocities[2
                    * j + 1] && self@.positions[2 * j] == m0.positions[2 * j] && self@.positions[2
                    * j + 1] == m0.positions[2 * j + 1] by {
                    assert(prev.velocities[2 * j] == m0.velocities[2 * j]);
                    assert(prev.positions[2 * j] == m0.positions[2 * j]);
                    assert(self@.velocities[2 * j] == prev.velocities[2 * j]);
                    assert(self@.velocities[2 * j + 1] == prev.velocities[2 * j + 1]);
                    assert(self@.positions[2 * j] == prev.positions[2 * j]);
                    assert(self@.positions[2 * j + 1] == prev.positions[2 * j + 1]);
                }
            }
            n = n + 1;
        }
        proof {
            let mu = spec_update(m0);
            assert forall|k: int| 0 <= k < 2 * m0.count implies self@.positions[k]
                == mu.positions[k] && self@.velocities[k] == mu.velocities[k] by {
                let j = k / 2;
                lemma_fundamental_div_mod(k, 2);
                vstd::arithmetic::div_mod::lemma_mod_bound(k, 2);
                lemma_div_pos_is_pos(k, 2);
                lemma_div_is_ordered(k, 2 * m0.count - 1, 2);
                assert(0 <= j < m0.count);
                if k % 2 == 0 {
                    assert(k == 2 * j);
                    assert(self@.positions[2 * j] == spec_new_pos(m0, j).0);
                    assert(self@.velocities[2 * j] == spec_new_vel(m0, j).0);
                } else {
                    assert(k == 2 * j + 1);
                    assert(self@.positions[2 * j] == spec_new_pos(m0, j).0);
                    assert(self@.velocities[2 * j] == spec_new_vel(m0, j).0);
                    assert(self@.positions[2 * j + 1] == spec_new_pos(m0, j).1);
                    assert(self@.velocities[2 * j + 1] == spec_new_vel(m0, j).1);
                }
            }
            assert(self@.positions =~= mu.positions);
            assert(self@.velocities =~= mu.velocities);
            assert(self@ =~= mu);
        }
    }
}

/// A single-agent flock has no neighbours, so alignment, cohesion and
/// separation contribute nothing: its whole acceleration is the
/// point-driven part (attraction, wall avoidance, repulsion).
pub proof fn lemma_single_agent(m: FlockModel)
    requires
        m.count == 1,
    ensures
        spec_neighbours(m, 0).len() == 0,
        spec_nb_accel(m, 0).0 == 0,
        spec_nb_accel(m, 0).1 == 0,
        spec_accel(m, 0).0 == spec_pt_accel(m, 0).0,
        spec_accel(m, 0).1 == spec_pt_accel(m, 0).1,
{
    let ns = spec_neighbours(m, 0);
    assert(nb_upto(m, 0, 0) == Seq::<int>::empty());
    assert(ns == nb_upto(m, 0, 0));
    assert(ns.len() == 0);
    vstd::arithmetic::div_mod::lemma_div_of0(1000);
    assert(norm_fp(0, 0) == 0);
    assert(spec_align(m, ns).0 == 0 && spec_align(m, ns).1 == 0);
    assert(spec_cohede(m, 0, ns).0 == 0 && spec_cohede(m, 0, ns).1 == 0);
    assert(spec_separate(m, 0, ns).0 == 0 && spec_separate(m, 0, ns).1 == 0);
    assert(mul_fp(ALIGN_FORCE as int, 0) == 0);
    assert(mul_fp(COHESION_FORCE as int, 0) == 0);
    assert(mul_fp(SEPARATION_FORCE as int, 0) == 0);
}

/// After a tick every agent's velocity magnitude is within
/// [`MAX_SPEED`].
pub proof fn lemma_speed_limited(m: FlockModel, i: int)
    ensures
        norm_fp(spec_new_vel(m, i).0, spec_new_vel(m, i).1) <= MAX_SPEED,
        iabs(spec_new_vel(m, i).0) <= MAX_SPEED,
        iabs(spec_new_vel(m, i).1) <= MAX_SPEED,
{
    let a = spec_accel(m, i);
    lemma_limit_norm(vx(m, i) + a.0, vy(m, i) + a.1, MAX_SPEED as int);
}

/// The near-wrap at the borders: a coordinate that would land below 0
/// is placed one unit inside the far border; one past the far border is
/// placed at one unit; anything else is untouched. In particular the
/// new coordinate lies in `[0, width]` whenever the wrapped landing
/// spots do (that is, whenever the arena side is at least one unit).
pub proof fn lemma_wraparound(m: FlockModel, i: int)
    requires
        0 <= m.width,
        0 <= m.height,
    ensures
        px(m, i) + spec_new_vel(m, i).0 < 0 ==> spec_new_pos(m, i).0 == m.width * 1000 - 1000,
        px(m, i) + spec_new_vel(m, i).0 > m.width * 1000 ==> spec_new_pos(m, i).0 == 1000,
        0 <= px(m, i) + spec_new_vel(m, i).0 <= m.width * 1000 ==> spec_new_pos(m, i).0 == px(
            m,
            i,
        ) + spec_new_vel(m, i).0,
        py(m, i) + spec_new_vel(m, i).1 < 0 ==> spec_new_pos(m, i).1 == m.height * 1000 - 1000,
        py(m, i) + spec_new_vel(m, i).1 > m.height * 1000 ==> spec_new_pos(m, i).1 == 1000,
        0 <= py(m, i) + spec_new_vel(m, i).1 <= m.height * 1000 ==> spec_new_pos(m, i).1 == py(
            m,
            i,
        ) + spec_new_vel(m, i).1,
        m.width >= 1 ==> 0 <= spec_new_pos(m, i).0 <= m.width * 1000,
        m.height >= 1 ==> 0 <= spec_new_pos(m, i).1 <= m.height * 1000,
{
}

/// Determinism: the tick is a function of the starting state alone, so
/// equal states step to equal states.
pub proof fn lemma_deterministic(m1: FlockModel, m2: FlockModel)
    requires
        m1 == m2,
    ensures
        spec_update(m1) == spec_update(m2),
{
}

/// Setting an attractor and clearing it again leaves the flock stepping
/// exactly as one whose attractor was never set.
pub proof fn lemma_attractor_roundtrip(m: FlockModel, a: (int, int))
    ensures
        spec_update(
            FlockModel { attractor: None, ..(FlockModel { attractor: Some(a), ..m }) },
        ) == spec_update(FlockModel { attractor: None, ..m }),
{
    assert(FlockModel { attractor: None, ..(FlockModel { attractor: Some(a), ..m }) }
        =~= FlockModel { attractor: None, ..m });
}

/// Setting a repulsor and clearing it again leaves the flock stepping
/// exactly as one whose repulsor was never set.
pub proof fn lemma_repulsor_roundtrip(m: FlockModel, r: (int, int))
    ensures
        spec_update(
            FlockModel { repulsor: None, ..(FlockModel { repulsor: Some(r), ..m }) },
        ) == spec_update(FlockModel { repulsor: None, ..m }),
{
    assert(FlockModel { repulsor: None, ..(FlockModel { repulsor: Some(r), ..m }) }
        =~= FlockModel { repulsor: None, ..m });
}

/// Without a repulsor the repulsion term vanishes: the point-driven
/// acceleration is attraction plus wall avoidance alone.
pub proof fn lemma_no_repulsor(m: FlockModel, i: int)
    requires
        m.repulsor is None,
    ensures
        spec_pt_accel(m, i).0 == mul_fp(
            ATTRACTION_FORCE as int,
            spec_steer_towards(
                px(m, i),
                py(m, i),
                spec_get_attractor(m).unwrap().0,
                spec_get_attractor(m).unwrap().1,
            ).0,
        ) + mul_fp(AVOIDANCE_FORCE as int, spec_avoid_walls(m, i).0),
        spec_pt_accel(m, i).1 == mul_fp(
            ATTRACTION_FORCE as int,
            spec_steer_towards(
                px(m, i),
                py(m, i),
                spec_get_attractor(m).unwrap().0,
                spec_get_attractor(m).unwrap().1,
            ).1,
        ) + mul_fp(AVOIDANCE_FORCE as int, spec_avoid_walls(m, i).1),
{
    vstd::arithmetic::div_mod::lemma_div_of0(1000);
    assert(mul_fp(REPULSION_FORCE as int, 0) == 0);
}

/// Without an attractor the effective target is the arena center.
pub proof fn lemma_default_attractor(m: FlockModel)
    requires
        m.attractor is None,
    ensures
        spec_get_attractor(m) == Some((m.width * 500, m.height * 500)),
{
}

/// Two models that agree on everything an agent can see (counts, arena,
/// buffers, repulsor), leaving only the stored attractor free.
pub open spec fn same_pose(m1: FlockModel, m2: FlockModel) -> bool {
    &&& m1.count == m2.count
    &&& m1.width == m2.width
    &&& m1.height == m2.height
    &&& m1.positions == m2.positions
    &&& m1.velocities == m2.velocities
    &&& m1.repulsor == m2.repulsor
}

/// Neighbour discovery never reads the attractor.
proof fn lemma_nb_congr(m1: FlockModel, m2: FlockModel, i: int, n: int)
    requires
        same_pose(m1, m2),
    ensures
        nb_upto(m1, i, n) == nb_upto(m2, i, n),
    decreases n,
{
    if n > 0 {
        lemma_nb_congr(m1, m2, i, n - 1);
        assert(is_neighbour(m1, i, n - 1) == is_neighbour(m2, i, n - 1));
    }
}

/// The neighbour folds never read the attractor.
proof fn lemma_folds_congr(m1: FlockModel, m2: FlockModel, i: int, ns: Seq<int>)
    requires
        same_pose(m1, m2),
    ensures
        sum_vel(m1, ns) == sum_vel(m2, ns),
        sum_pos(m1, ns) == sum_pos(m2, ns),
        spec_separate(m1, i, ns) == spec_separate(m2, i, ns),
    decreases ns.len(),
{
    if ns.len() > 0 {
        lemma_folds_congr(m1, m2, i, ns.drop_last());
        assert(sep_term(m1, i, ns.last()) == sep_term(m2, i, ns.last()));
    }
}

/// Two flocks in the same pose step to the same buffers whenever their
/// effective attraction targets agree. In particular an attractor set
/// explicitly to the arena center steps exactly like no attractor at
/// all: clearing the attractor returns the flock to that default
/// behavior.
pub proof fn lemma_effective_target(m1: FlockModel, m2: FlockModel)
    requires
        same_pose(m1, m2),
        spec_get_attractor(m1) == spec_get_attractor(m2),
    ensures
        spec_update(m1).positions == spec_update(m2).positions,
        spec_update(m1).velocities == spec_update(m2).velocities,
{
    assert forall|i: int| spec_accel(m1, i) == spec_accel(m2, i) by {
        lemma_nb_congr(m1, m2, i, m1.count);
        let ns = spec_neighbours(m1, i);
        lemma_folds_congr(m1, m2, i, ns);
        assert(spec_align(m1, ns) == spec_align(m2, ns));
        assert(spec_cohede(m1, i, ns) == spec_cohede(m2, i, ns));
        assert(spec_avoid_walls(m1, i) == spec_avoid_walls(m2, i));
        assert(spec_pt_accel(m1, i) == spec_pt_accel(m2, i));
    }
    assert forall|i: int| spec_new_vel(m1, i) == spec_new_vel(m2, i) && spec_new_pos(m1, i)
        == spec_new_pos(m2, i) by {
        assert(spec_accel(m1, i) == spec_accel(m2, i));
    }
    assert(spec_update(m1).positions =~= spec_update(m2).positions);
    assert(spec_update(m1).velocities =~= spec_update(m2).velocities);
}

/// After a completed tick every position component lies inside the
/// arena, provided each side is at least one unit (the wrapped landing
/// spots themselves, `width - 1` and `1`, need that much room).
pub proof fn lemma_positions_in_bounds(m: FlockModel)
    requires
        m.positions.len() == 2 * m.count,
        m.width >= 1,
        m.height >= 1,
    ensures
        forall|i: int|
            0 <= i < m.count ==> 0 <= #[trigger] spec_update(m).positions[2 * i] <= m.width * 1000
                && 0 <= spec_update(m).positions[2 * i + 1] <= m.height * 1000,
{
    assert forall|i: int| 0 <= i < m.count implies 0 <= #[trigger] spec_update(m).positions[2 * i]
        <= m.width * 1000 && 0 <= spec_update(m).positions[2 * i + 1] <= m.height * 1000 by {
        lemma_wraparound(m, i);
        assert((2 * i) % 2 == 0 && (2 * i) / 2 == i);
        assert((2 * i + 1) % 2 == 1 && (2 * i + 1) / 2 == i);
        assert(spec_update(m).positions[2 * i] == spec_new_pos(m, i).0);
        assert(spec_update(m).positions[2 * i + 1] == spec_new_pos(m, i).1);
    }
}

} // verus!

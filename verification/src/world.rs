//! The flocking simulation: agents ("boids") with a position and a velocity,
//! updated each tick from separation, alignment, cohesion and margin
//! steering computed over neighbours found through the quadtree, then
//! integrated and clamped, after which the index is rebuilt from the new
//! positions.
//!
//! Steering factors are fixed-point in thousandths ([`crate::vec2::SCALE`]):
//! a factor of `1000` multiplies by one.
use vstd::prelude::*;
use crate::vec2::{
    Vec2, Position, in_coord_bounds, dist2, div_t, clamp_len_spec, COORD_LIMIT, SCALE,
};
use crate::quadtree::{
    QuadTree, in_lohi, circle_pred, lemma_filter_to_multiset, lemma_ms_filter_compose,
    lemma_filter_push, lemma_filter_congruence,
};
use crate::sums::{sum_of, lemma_sum_of_permutation};

verus! {

broadcast use
    vstd::multiset::group_multiset_axioms,
    vstd::seq_lib::group_to_multiset_ensures,
    vstd::seq_lib::group_filter_ensures,
;

/// Largest magnitude the simulation accepts for a steering factor, the turn
/// factor and the speed bounds.
pub const FACTOR_LIMIT: i64 = 1_000_000;

/// Largest number of agents one tick is specified for; together with
/// [`COORD_LIMIT`] it keeps every force sum inside the machine integers.
pub const MAX_BOIDS: usize = 1_000_000;

/// One agent: a position and a velocity.
#[derive(Clone, Copy, Debug, PartialEq, Eq, Structural)]
pub struct Boid {
    pub pos: Vec2,
    pub vel: Vec2,
}

impl Boid {
    pub fn new(pos: Vec2, vel: Vec2) -> (r: Self)
        ensures
            r == (Boid { pos, vel }),
    {
        Boid { pos, vel }
    }
}

impl Position for Boid {
    open spec fn posn(&self) -> Vec2 {
        self.pos
    }

    fn pos(&self) -> (p: Vec2) {
        self.pos
    }

    fn x(&self) -> (r: i64) {
        self.pos.x
    }

    fn y(&self) -> (r: i64) {
        self.pos.y
    }
}

/// Whether a boid currently lies inside the world rectangle
/// `[(0,0), dims]`; only such boids are held by the spatial index.
pub open spec fn in_world(dims: Vec2, b: Boid) -> bool {
    in_lohi(b.pos, Vec2 { x: 0, y: 0 }, dims)
}

/// The membership test of the spatial index, as a predicate.
pub open spec fn in_world_pred(dims: Vec2) -> spec_fn(Boid) -> bool {
    |b: Boid| in_world(dims, b)
}

/// In the world and within `range` of `c`: what a circular index query
/// returns.
pub open spec fn world_circle_pred(dims: Vec2, c: Vec2, range: i64) -> spec_fn(Boid) -> bool {
    |b: Boid| in_world(dims, b) && dist2(b.pos, c) <= (range as int) * (range as int)
}

/// Within `range` of `c`, wherever the boid is: what a brute-force scan
/// keeps.
pub open spec fn brute_circle_pred(c: Vec2, range: i64) -> spec_fn(Boid) -> bool {
    |b: Boid| dist2(b.pos, c) <= (range as int) * (range as int)
}

/// A value scaled by a fixed-point factor in thousandths, rounding towards
/// zero.
pub open spec fn scaled(v: int, f: int) -> int {
    div_t(v * f, SCALE as int)
}

/// The flocking world: the agents, one spatial index over them, and the ten
/// tunable scalars.
pub struct World {
    dims: Vec2,
    boids: Vec<Boid>,
    quadtree: QuadTree<Boid>,
    protect_range: i64,
    visible_range: i64,
    avoid_factor: i64,
    align_factor: i64,
    cohesion_factor: i64,
    margin: i64,
    turn_factor: i64,
    max_speed: i64,
    min_speed: i64,
}

impl World {
    pub closed spec fn spec_dims(&self) -> Vec2 {
        self.dims
    }

    pub closed spec fn spec_boids(&self) -> Seq<Boid> {
        self.boids@
    }

    pub closed spec fn spec_quadtree(&self) -> QuadTree<Boid> {
        self.quadtree
    }

    pub closed spec fn spec_protect_range(&self) -> i64 {
        self.protect_range
    }

    pub closed spec fn spec_visible_range(&self) -> i64 {
        self.visible_range
    }

    pub closed spec fn spec_avoid_factor(&self) -> i64 {
        self.avoid_factor
    }

    pub closed spec fn spec_align_factor(&self) -> i64 {
        self.align_factor
    }

    pub closed spec fn spec_cohesion_factor(&self) -> i64 {
        self.cohesion_factor
    }

    pub closed spec fn spec_margin(&self) -> i64 {
        self.margin
    }

    pub closed spec fn spec_turn_factor(&self) -> i64 {
        self.turn_factor
    }

    pub closed spec fn spec_max_speed(&self) -> i64 {
        self.max_speed
    }

    pub closed spec fn spec_min_speed(&self) -> i64 {
        self.min_speed
    }

    /// The configuration is bounded and the index is a well-formed tree over
    /// the world rectangle `[(0,0), dims]`.
    pub open spec fn config_wf(&self) -> bool {
        &&& self.spec_quadtree().inv()
        &&& self.spec_quadtree().spec_lo() == (Vec2 { x: 0, y: 0 })
        &&& self.spec_quadtree().spec_hi() == self.spec_dims()
        &&& 0 <= self.spec_protect_range() <= COORD_LIMIT
        &&& 0 <= self.spec_visible_range() <= COORD_LIMIT
        &&& -FACTOR_LIMIT <= self.spec_avoid_factor() <= FACTOR_LIMIT
        &&& -FACTOR_LIMIT <= self.spec_align_factor() <= FACTOR_LIMIT
        &&& -FACTOR_LIMIT <= self.spec_cohesion_factor() <= FACTOR_LIMIT
        &&& -COORD_LIMIT <= self.spec_margin() <= COORD_LIMIT
        &&& -FACTOR_LIMIT <= self.spec_turn_factor() <= FACTOR_LIMIT
        &&& 0 <= self.spec_min_speed() <= FACTOR_LIMIT
        &&& 0 <= self.spec_max_speed() <= FACTOR_LIMIT
    }

    /// The index holds exactly the in-world boids of `bs`, as a multiset.
    pub open spec fn index_synced_with(&self, bs: Seq<Boid>) -> bool {
        self.spec_quadtree().items().to_multiset() == bs.filter(
            in_world_pred(self.spec_dims()),
        ).to_multiset()
    }

    /// Well-formedness: bounded configuration, and the index in sync with
    /// the current agents.
    pub open spec fn inv(&self) -> bool {
        &&& self.config_wf()
        &&& self.index_synced_with(self.spec_boids())
    }

    /// A world over the rectangle `[(0,0), dims]` with the given tunables
    /// and no agents yet.
    pub fn new(
        dims: &Vec2,
        visible_range: i64,
        protect_range: i64,
        avoid_factor: i64,
        align_factor: i64,
        cohesion_factor: i64,
        margin: i64,
        turn_factor: i64,
        max_speed: i64,
        min_speed: i64,
    ) -> (r: Self)
        requires
            0 <= dims.x <= COORD_LIMIT,
            0 <= dims.y <= COORD_LIMIT,
            0 <= protect_range <= COORD_LIMIT,
            0 <= visible_range <= COORD_LIMIT,
            -FACTOR_LIMIT <= avoid_factor <= FACTOR_LIMIT,
            -FACTOR_LIMIT <= align_factor <= FACTOR_LIMIT,
            -FACTOR_LIMIT <= cohesion_factor <= FACTOR_LIMIT,
            -COORD_LIMIT <= margin <= COORD_LIMIT,
            -FACTOR_LIMIT <= turn_factor <= FACTOR_LIMIT,
            0 <= max_speed <= FACTOR_LIMIT,
            0 <= min_speed <= FACTOR_LIMIT,
        ensures
            r.inv(),
            r.spec_dims() == *dims,
            r.spec_boids() == Seq::<Boid>::empty(),
            r.spec_protect_range() == protect_range,
            r.spec_visible_range() == visible_range,
            r.spec_avoid_factor() == avoid_factor,
            r.spec_align_factor() == align_factor,
            r.spec_cohesion_factor() == cohesion_factor,
            r.spec_margin() == margin,
            r.spec_turn_factor() == turn_factor,
            r.spec_max_speed() == max_speed,
            r.spec_min_speed() == min_speed,
    {
        let quadtree = QuadTree::<Boid>::new(Vec2 { x: 0, y: 0 }, *dims);
        let w = World {
            dims: *dims,
            boids: Vec::new(),
            quadtree,
            protect_range,
            visible_range,
            avoid_factor,
            align_factor,
            cohesion_factor,
            margin,
            turn_factor,
            max_speed,
            min_speed,
        };
        proof {
            assert(w.spec_boids().filter(in_world_pred(w.spec_dims())) =~= Seq::<Boid>::empty())
                by {
                reveal(Seq::filter);
            }
            assert(w.spec_quadtree().items().to_multiset() =~= w.spec_boids().filter(
                in_world_pred(w.spec_dims()),
            ).to_multiset());
        }
        w
    }

    /// Number of agents.
    pub fn num_boids(&self) -> (r: usize)
        ensures
            r == self.spec_boids().len(),
    {
        self.boids.len()
    }

    /// The agent at index `i` (indices are stable for the run).
    pub fn get_boid(&self, i: usize) -> (r: Boid)
        requires
            i < self.spec_boids().len(),
        ensures
            r == self.spec_boids()[i as int],
    {
        self.boids[i]
    }

    /// Read-only view of the spatial index.
    pub fn quadtree(&self) -> (r: &QuadTree<Boid>)
        ensures
            *r == self.spec_quadtree(),
    {
        &self.quadtree
    }

    /// The world rectangle's extent.
    pub fn dims(&self) -> (r: Vec2)
        ensures
            r == self.spec_dims(),
    {
        self.dims
    }

    /// The repulsion query radius.
    pub fn protect_range(&self) -> (r: i64)
        ensures
            r == self.spec_protect_range(),
    {
        self.protect_range
    }

    /// The alignment/cohesion query radius.
    pub fn visible_range(&self) -> (r: i64)
        ensures
            r == self.spec_visible_range(),
    {
        self.visible_range
    }

    /// Append an agent; its copy also enters the index when its position
    /// lies inside the world rectangle.
    pub fn add_boid(&mut self, pos: &Vec2, vel: &Vec2)
        requires
            old(self).inv(),
            old(self).spec_boids().len() + 1 < usize::MAX,
        ensures
            final(self).inv(),
            final(self).spec_boids() == old(self).spec_boids().push(Boid { pos: *pos, vel: *vel }),
            final(self).spec_dims() == old(self).spec_dims(),
            final(self).spec_quadtree().spec_lo() == old(self).spec_quadtree().spec_lo(),
            final(self).spec_quadtree().spec_hi() == old(self).spec_quadtree().spec_hi(),
            final(self).spec_protect_range() == old(self).spec_protect_range(),
            final(self).spec_visible_range() == old(self).spec_visible_range(),
            final(self).spec_avoid_factor() == old(self).spec_avoid_factor(),
            final(self).spec_align_factor() == old(self).spec_align_factor(),
            final(self).spec_cohesion_factor() == old(self).spec_cohesion_factor(),
            final(self).spec_margin() == old(self).spec_margin(),
            final(self).spec_turn_factor() == old(self).spec_turn_factor(),
            final(self).spec_max_speed() == old(self).spec_max_speed(),
            final(self).spec_min_speed() == old(self).spec_min_speed(),
    {
        let b = Boid { pos: *pos, vel: *vel };
        proof {
            // the index never outgrows the agent list by more than the one
            // insert below
            let inw = in_world_pred(self.spec_dims());
            assert(self.spec_boids().filter(inw).len() <= self.spec_boids().len());
            assert(self.spec_quadtree().items().to_multiset().len() == self.spec_boids().filter(
                inw,
            ).to_multiset().len());
        }
        self.boids.push(b);
        let _ = self.quadtree.push(&b);
        proof {
            let inw = in_world_pred(self.spec_dims());
            lemma_filter_push(old(self).spec_boids(), b, inw);
            assert(self.spec_boids() == old(self).spec_boids().push(b));
            if in_world(self.spec_dims(), b) {
                assert(self.spec_boids().filter(inw) == old(self).spec_boids().filter(inw).push(
                    b,
                ));
            } else {
                assert(self.spec_boids().filter(inw) == old(self).spec_boids().filter(inw));
            }
            assert(self.index_synced_with(self.spec_boids()));
        }
    }
}

/// A fixed-point value scaled by a bounded factor.
fn scale_by_factor(v: i64, f: i64) -> (r: i64)
    requires
        -2_000_000_000_000_000 <= v <= 2_000_000_000_000_000,
        -FACTOR_LIMIT <= f <= FACTOR_LIMIT,
    ensures
        r == scaled(v as int, f as int),
        -2_000_000_000_000_000_000 <= r <= 2_000_000_000_000_000_000,
{
    proof {
        assert(-2_000_000_000_000_000_000_000int <= (v as int) * (f as int)
            <= 2_000_000_000_000_000_000_000int) by (nonlinear_arith)
            requires
                -2_000_000_000_000_000 <= v as int <= 2_000_000_000_000_000,
                -1_000_000 <= f as int <= 1_000_000,
        ;
        crate::vec2::lemma_div_t_bound(
            (v as int) * (f as int),
            SCALE as int,
            2_000_000_000_000_000_000int,
        );
    }
    let p = (v as i128) * (f as i128);
    let q = crate::vec2::div_trunc_i128(p, 1000);
    q as i64
}

impl World {
    /// The in-world boids of `bs` within `range` of `p`, in sequence order:
    /// what a circular index query returns, up to order.
    pub open spec fn spec_neighbors(&self, bs: Seq<Boid>, p: Vec2, range: i64) -> Seq<Boid> {
        bs.filter(world_circle_pred(self.spec_dims(), p, range))
    }

    /// The boids of `bs` within `range` of `p`, wherever they are: what a
    /// brute-force scan keeps.
    pub open spec fn spec_brute_neighbors(bs: Seq<Boid>, p: Vec2, range: i64) -> Seq<Boid> {
        bs.filter(brute_circle_pred(p, range))
    }

    /// Separation: the sum of displacements from the close neighbours to the
    /// agent, scaled by the avoidance factor.  The agent itself may be among
    /// the neighbours; its displacement is zero and contributes nothing.
    pub open spec fn spec_separation(&self, prot: Seq<Boid>, p: Vec2) -> Vec2 {
        Vec2 {
            x: scaled(sum_of(prot, |b: Boid| p.x - b.pos.x), self.spec_avoid_factor() as int)
                as i64,
            y: scaled(sum_of(prot, |b: Boid| p.y - b.pos.y), self.spec_avoid_factor() as int)
                as i64,
        }
    }

    /// Alignment: the average velocity of the visible neighbours other than
    /// the agent, minus the agent's velocity, scaled; zero without such
    /// neighbours.  `vis` includes the agent itself, so its velocity is
    /// subtracted from the sum and the average divides by one less.
    pub open spec fn spec_alignment(&self, vis: Seq<Boid>, cur_vel: Vec2) -> Vec2 {
        if vis.len() <= 1 {
            Vec2 { x: 0, y: 0 }
        } else {
            let ax = div_t(sum_of(vis, |b: Boid| b.vel.x as int) - cur_vel.x, vis.len() - 1);
            let ay = div_t(sum_of(vis, |b: Boid| b.vel.y as int) - cur_vel.y, vis.len() - 1);
            Vec2 {
                x: scaled(ax - cur_vel.x, self.spec_align_factor() as int) as i64,
                y: scaled(ay - cur_vel.y, self.spec_align_factor() as int) as i64,
            }
        }
    }

    /// Cohesion: the average position of the visible neighbours other than
    /// the agent, minus the agent's position, scaled; zero without such
    /// neighbours.
    pub open spec fn spec_cohesion(&self, vis: Seq<Boid>, cur_pos: Vec2) -> Vec2 {
        if vis.len() <= 1 {
            Vec2 { x: 0, y: 0 }
        } else {
            let ax = div_t(sum_of(vis, |b: Boid| b.pos.x as int) - cur_pos.x, vis.len() - 1);
            let ay = div_t(sum_of(vis, |b: Boid| b.pos.y as int) - cur_pos.y, vis.len() - 1);
            Vec2 {
                x: scaled(ax - cur_pos.x, self.spec_cohesion_factor() as int) as i64,
                y: scaled(ay - cur_pos.y, self.spec_cohesion_factor() as int) as i64,
            }
        }
    }

    /// Margin steering, independent per axis: inside the low margin steer
    /// by `+turn_factor`, inside the high margin by `-turn_factor`.
    pub open spec fn spec_margin_force(&self, p: Vec2) -> Vec2 {
        Vec2 {
            x: (if p.x < self.spec_margin() {
                self.spec_turn_factor() as int
            } else if p.x > self.spec_dims().x - self.spec_margin() {
                -(self.spec_turn_factor() as int)
            } else {
                0int
            }) as i64,
            y: (if p.y < self.spec_margin() {
                self.spec_turn_factor() as int
            } else if p.y > self.spec_dims().y - self.spec_margin() {
                -(self.spec_turn_factor() as int)
            } else {
                0int
            }) as i64,
        }
    }

    /// Separation force for an agent at `cur_pos` from the handed-in close
    /// neighbours (normally a `protect_range` query result).
    pub fn separation(&self, cur_pos: Vec2, protected_boids: &Vec<Boid>) -> (r: Vec2)
        requires
            self.config_wf(),
            in_coord_bounds(cur_pos),
            protected_boids@.len() <= MAX_BOIDS,
            forall|k: int|
                0 <= k < protected_boids@.len() ==> in_coord_bounds(
                    (#[trigger] protected_boids@[k]).pos,
                ),
        ensures
            r == self.spec_separation(protected_boids@, cur_pos),
            -2_000_000_000_000_000_000 <= r.x <= 2_000_000_000_000_000_000,
            -2_000_000_000_000_000_000 <= r.y <= 2_000_000_000_000_000_000,
    {
        let ghost fx = |b: Boid| cur_pos.x - b.pos.x;
        let ghost fy = |b: Boid| cur_pos.y - b.pos.y;
        let n = protected_boids.len();
        let mut ax: i64 = 0;
        let mut ay: i64 = 0;
        let mut k: usize = 0;
        while k < n
            invariant
                n == protected_boids@.len(),
                k <= n,
                ax == sum_of(protected_boids@.take(k as int), fx),
                ay == sum_of(protected_boids@.take(k as int), fy),
                -2_000_000_000 * (k as int) <= ax <= 2_000_000_000 * (k as int),
                -2_000_000_000 * (k as int) <= ay <= 2_000_000_000 * (k as int),
            decreases n - k,
        {
            let b = protected_boids[k];
            proof {
                crate::sums::lemma_sum_of_take_step(protected_boids@, fx, k as int);
                crate::sums::lemma_sum_of_take_step(protected_boids@, fy, k as int);
            }
            ax = ax + (cur_pos.x - b.pos.x);
            ay = ay + (cur_pos.y - b.pos.y);
            k = k + 1;
        }
        proof {
            assert(protected_boids@.take(n as int) =~= protected_boids@);
        }
        let rx = scale_by_factor(ax, self.avoid_factor);
        let ry = scale_by_factor(ay, self.avoid_factor);
        Vec2 { x: rx, y: ry }
    }

    /// Alignment force for an agent with velocity `cur_vel` from the
    /// handed-in visible neighbours, which include the agent itself.
    pub fn alignment(&self, cur_vel: Vec2, visible_boids: &Vec<Boid>) -> (r: Vec2)
        requires
            self.config_wf(),
            in_coord_bounds(cur_vel),
            visible_boids@.len() <= MAX_BOIDS,
            forall|k: int|
                0 <= k < visible_boids@.len() ==> in_coord_bounds(
                    (#[trigger] visible_boids@[k]).vel,
                ),
        ensures
            r == self.spec_alignment(visible_boids@, cur_vel),
            -2_000_000_000_000_000_000 <= r.x <= 2_000_000_000_000_000_000,
            -2_000_000_000_000_000_000 <= r.y <= 2_000_000_000_000_000_000,
    {
        let ghost fvx = |b: Boid| b.vel.x as int;
        let ghost fvy = |b: Boid| b.vel.y as int;
        let n = visible_boids.len();
        if n <= 1 {
            return Vec2 { x: 0, y: 0 };
        }
        let mut sx: i64 = 0;
        let mut sy: i64 = 0;
        let mut k: usize = 0;
        while k < n
            invariant
                n == visible_boids@.len(),
                k <= n,
                sx == sum_of(visible_boids@.take(k as int), fvx),
                sy == sum_of(visible_boids@.take(k as int), fvy),
                -1_000_000_000 * (k as int) <= sx <= 1_000_000_000 * (k as int),
                -1_000_000_000 * (k as int) <= sy <= 1_000_000_000 * (k as int),
            decreases n - k,
        {
            let b = visible_boids[k];
            proof {
                crate::sums::lemma_sum_of_take_step(visible_boids@, fvx, k as int);
                crate::sums::lemma_sum_of_take_step(visible_boids@, fvy, k as int);
            }
            sx = sx + b.vel.x;
            sy = sy + b.vel.y;
            k = k + 1;
        }
        proof {
            assert(visible_boids@.take(n as int) =~= visible_boids@);
        }
        let dx = sx - cur_vel.x;
        let dy = sy - cur_vel.y;
        let qx = crate::vec2::div_trunc_i128(dx as i128, (n - 1) as i128);
        let qy = crate::vec2::div_trunc_i128(dy as i128, (n - 1) as i128);
        proof {
            crate::vec2::lemma_div_t_magnitude(dx as int, (n - 1) as int);
            crate::vec2::lemma_div_t_magnitude(dy as int, (n - 1) as int);
        }
        let axi = qx as i64;
        let ayi = qy as i64;
        let rx = scale_by_factor(axi - cur_vel.x, self.align_factor);
        let ry = scale_by_factor(ayi - cur_vel.y, self.align_factor);
        Vec2 { x: rx, y: ry }
    }

    /// Cohesion force for an agent at `cur_pos` from the handed-in visible
    /// neighbours, which include the agent itself.
    pub fn cohesion(&self, cur_pos: Vec2, visible_boids: &Vec<Boid>) -> (r: Vec2)
        requires
            self.config_wf(),
            in_coord_bounds(cur_pos),
            visible_boids@.len() <= MAX_BOIDS,
            forall|k: int|
                0 <= k < visible_boids@.len() ==> in_coord_bounds(
                    (#[trigger] visible_boids@[k]).pos,
                ),
        ensures
            r == self.spec_cohesion(visible_boids@, cur_pos),
            -2_000_000_000_000_000_000 <= r.x <= 2_000_000_000_000_000_000,
            -2_000_000_000_000_000_000 <= r.y <= 2_000_000_000_000_000_000,
    {
        let ghost fpx = |b: Boid| b.pos.x as int;
        let ghost fpy = |b: Boid| b.pos.y as int;
        let n = visible_boids.len();
        if n <= 1 {
            return Vec2 { x: 0, y: 0 };
        }
        let mut sx: i64 = 0;
        let mut sy: i64 = 0;
        let mut k: usize = 0;
        while k < n
            invariant
                n == visible_boids@.len(),
                k <= n,
                sx == sum_of(visible_boids@.take(k as int), fpx),
                sy == sum_of(visible_boids@.take(k as int), fpy),
                -1_000_000_000 * (k as int) <= sx <= 1_000_000_000 * (k as int),
                -1_000_000_000 * (k as int) <= sy <= 1_000_000_000 * (k as int),
            decreases n - k,
        {
            let b = visible_boids[k];
            proof {
                crate::sums::lemma_sum_of_take_step(visible_boids@, fpx, k as int);
                crate::sums::lemma_sum_of_take_step(visible_boids@, fpy, k as int);
            }
            sx = sx + b.pos.x;
            sy = sy + b.pos.y;
            k = k + 1;
        }
        proof {
            assert(visible_boids@.take(n as int) =~= visible_boids@);
        }
        let dx = sx - cur_pos.x;
        let dy = sy - cur_pos.y;
        let qx = crate::vec2::div_trunc_i128(dx as i128, (n - 1) as i128);
        let qy = crate::vec2::div_trunc_i128(dy as i128, (n - 1) as i128);
        proof {
            crate::vec2::lemma_div_t_magnitude(dx as int, (n - 1) as int);
            crate::vec2::lemma_div_t_magnitude(dy as int, (n - 1) as int);
        }
        let axi = qx as i64;
        let ayi = qy as i64;
        let rx = scale_by_factor(axi - cur_pos.x, self.cohesion_factor);
        let ry = scale_by_factor(ayi - cur_pos.y, self.cohesion_factor);
        Vec2 { x: rx, y: ry }
    }

    /// Margin steering for an agent at `cur_pos`.
    pub fn handle_margins(&self, cur_pos: Vec2) -> (r: Vec2)
        requires
            self.config_wf(),
            in_coord_bounds(cur_pos),
        ensures
            r == self.spec_margin_force(cur_pos),
            -FACTOR_LIMIT <= r.x <= FACTOR_LIMIT,
            -FACTOR_LIMIT <= r.y <= FACTOR_LIMIT,
    {
        proof {
            assert(crate::quadtree::node_ok(self.spec_quadtree().spec_nodes(), 0));
        }
        let tx: i64 = if cur_pos.x < self.margin {
            self.turn_factor
        } else if cur_pos.x > self.dims.x - self.margin {
            -self.turn_factor
        } else {
            0
        };
        let ty: i64 = if cur_pos.y < self.margin {
            self.turn_factor
        } else if cur_pos.y > self.dims.y - self.margin {
            -self.turn_factor
        } else {
            0
        };
        Vec2 { x: tx, y: ty }
    }
}

/// Elements drawn (as a multiset) from a filtered bounded sequence are
/// bounded themselves.
proof fn lemma_subset_bounds(bs: Seq<Boid>, q: Seq<Boid>, pred: spec_fn(Boid) -> bool)
    requires
        q.to_multiset() == bs.to_multiset().filter(pred),
        forall|k: int|
            0 <= k < bs.len() ==> in_coord_bounds((#[trigger] bs[k]).pos) && in_coord_bounds(
                bs[k].vel,
            ),
    ensures
        forall|k: int|
            0 <= k < q.len() ==> in_coord_bounds((#[trigger] q[k]).pos) && in_coord_bounds(
                q[k].vel,
            ),
{
    assert forall|k: int|
        0 <= k < q.len() implies in_coord_bounds((#[trigger] q[k]).pos) && in_coord_bounds(
        q[k].vel,
    ) by {
        let t = q[k];
        assert(q.contains(t));
        assert(q.to_multiset().count(t) > 0);
        assert(bs.to_multiset().count(t) > 0);
        assert(bs.contains(t));
        let w = choose|w: int| 0 <= w < bs.len() && bs[w] == t;
        assert(in_coord_bounds(bs[w].pos) && in_coord_bounds(bs[w].vel));
    }
}

impl World {
    /// One tick's update for one agent, with neighbours read through the
    /// spatial index: gather the protected and visible neighbour sets,
    /// compute the three flocking forces, and integrate.
    pub open spec fn spec_step(&self, bs: Seq<Boid>, b: Boid) -> Boid {
        let prot = self.spec_neighbors(bs, b.pos, self.spec_protect_range());
        let vis = self.spec_neighbors(bs, b.pos, self.spec_visible_range());
        self.spec_integrate(
            b,
            self.spec_separation(prot, b.pos),
            self.spec_alignment(vis, b.vel),
            self.spec_cohesion(vis, b.pos),
        )
    }

    /// One tick's update for one agent, with neighbours found by scanning
    /// every agent.
    pub open spec fn spec_brute_step(&self, bs: Seq<Boid>, b: Boid) -> Boid {
        let prot = Self::spec_brute_neighbors(bs, b.pos, self.spec_protect_range());
        let vis = Self::spec_brute_neighbors(bs, b.pos, self.spec_visible_range());
        self.spec_integrate(
            b,
            self.spec_separation(prot, b.pos),
            self.spec_alignment(vis, b.vel),
            self.spec_cohesion(vis, b.pos),
        )
    }

    /// Integration: add the forces and the margin steering to the velocity,
    /// clamp its length into `[min_speed, max_speed]`, and advance the
    /// position by one step of the new velocity.
    pub open spec fn spec_integrate(&self, b: Boid, sep: Vec2, ali: Vec2, coh: Vec2) -> Boid {
        let mar = self.spec_margin_force(b.pos);
        let v1 = Vec2 {
            x: (b.vel.x + sep.x + ali.x + coh.x + mar.x) as i64,
            y: (b.vel.y + sep.y + ali.y + coh.y + mar.y) as i64,
        };
        let v2 = clamp_len_spec(v1, self.spec_min_speed() as int, self.spec_max_speed() as int);
        Boid {
            pos: Vec2 { x: (b.pos.x + v2.x) as i64, y: (b.pos.y + v2.y) as i64 },
            vel: v2,
        }
    }

    /// Integration step shared by the indexed and brute-force ticks.
    fn integrate(&self, b: Boid, sep: Vec2, ali: Vec2, coh: Vec2) -> (nb: Boid)
        requires
            self.config_wf(),
            in_coord_bounds(b.pos),
            in_coord_bounds(b.vel),
            -2_000_000_000_000_000_000 <= sep.x <= 2_000_000_000_000_000_000,
            -2_000_000_000_000_000_000 <= sep.y <= 2_000_000_000_000_000_000,
            -2_000_000_000_000_000_000 <= ali.x <= 2_000_000_000_000_000_000,
            -2_000_000_000_000_000_000 <= ali.y <= 2_000_000_000_000_000_000,
            -2_000_000_000_000_000_000 <= coh.x <= 2_000_000_000_000_000_000,
            -2_000_000_000_000_000_000 <= coh.y <= 2_000_000_000_000_000_000,
        ensures
            nb == self.spec_integrate(b, sep, ali, coh),
            -FACTOR_LIMIT <= nb.vel.x <= FACTOR_LIMIT,
            -FACTOR_LIMIT <= nb.vel.y <= FACTOR_LIMIT,
            -COORD_LIMIT - FACTOR_LIMIT <= nb.pos.x <= COORD_LIMIT + FACTOR_LIMIT,
            -COORD_LIMIT - FACTOR_LIMIT <= nb.pos.y <= COORD_LIMIT + FACTOR_LIMIT,
            -FACTOR_LIMIT <= nb.pos.x - b.pos.x <= FACTOR_LIMIT,
            -FACTOR_LIMIT <= nb.pos.y - b.pos.y <= FACTOR_LIMIT,
    {
        let mar = self.handle_margins(b.pos);
        let v1x = b.vel.x + sep.x + ali.x + coh.x + mar.x;
        let v1y = b.vel.y + sep.y + ali.y + coh.y + mar.y;
        let v1 = Vec2 { x: v1x, y: v1y };
        let v2 = v1.clamp_length(self.min_speed, self.max_speed);
        let np = Vec2 { x: b.pos.x + v2.x, y: b.pos.y + v2.y };
        Boid { pos: np, vel: v2 }
    }

    /// Separation for agent `i`, scanning every agent: agents within the
    /// protect range contribute their displacement (the agent itself
    /// contributes zero).
    pub fn separation_brute_force(&self, i: usize) -> (r: Vec2)
        requires
            self.config_wf(),
            i < self.spec_boids().len(),
            self.spec_boids().len() <= MAX_BOIDS,
            forall|k: int|
                0 <= k < self.spec_boids().len() ==> in_coord_bounds(
                    (#[trigger] self.spec_boids()[k]).pos,
                ),
        ensures
            r == self.spec_separation(
                Self::spec_brute_neighbors(
                    self.spec_boids(),
                    self.spec_boids()[i as int].pos,
                    self.spec_protect_range(),
                ),
                self.spec_boids()[i as int].pos,
            ),
            -2_000_000_000_000_000_000 <= r.x <= 2_000_000_000_000_000_000,
            -2_000_000_000_000_000_000 <= r.y <= 2_000_000_000_000_000_000,
    {
        let p = self.boids[i].pos;
        let ghost circ = brute_circle_pred(p, self.spec_protect_range());
        let ghost fx = |b: Boid| p.x - b.pos.x;
        let ghost fy = |b: Boid| p.y - b.pos.y;
        proof {
            assert(0 <= (self.spec_protect_range() as int) * (self.spec_protect_range() as int)
                <= 1_000_000_000_000_000_000int) by (nonlinear_arith)
                requires 0 <= self.spec_protect_range() <= 1_000_000_000;
            assert(self.spec_boids().take(0).filter(circ) =~= Seq::<Boid>::empty()) by {
                reveal(Seq::filter);
            }
        }
        let r2 = self.protect_range * self.protect_range;
        let n = self.boids.len();
        let mut ax: i64 = 0;
        let mut ay: i64 = 0;
        let mut j: usize = 0;
        while j < n
            invariant
                n == self.spec_boids().len(),
                j <= n,
                ax == sum_of(self.spec_boids().take(j as int).filter(circ), fx),
                ay == sum_of(self.spec_boids().take(j as int).filter(circ), fy),
                -2_000_000_000 * (j as int) <= ax <= 2_000_000_000 * (j as int),
                -2_000_000_000 * (j as int) <= ay <= 2_000_000_000 * (j as int),
            decreases n - j,
        {
            let b = self.boids[j];
            let d2 = b.pos.distance_squared(&p);
            proof {
                assert(self.spec_boids().take(j + 1 as int) =~= self.spec_boids().take(
                    j as int,
                ).push(b));
                lemma_filter_push(self.spec_boids().take(j as int), b, circ);
                if circ(b) {
                    crate::sums::lemma_sum_of_push(
                        self.spec_boids().take(j as int).filter(circ),
                        fx,
                        b,
                    );
                    crate::sums::lemma_sum_of_push(
                        self.spec_boids().take(j as int).filter(circ),
                        fy,
                        b,
                    );
                }
            }
            if d2 <= r2 {
                ax = ax + (p.x - b.pos.x);
                ay = ay + (p.y - b.pos.y);
            }
            j = j + 1;
        }
        proof {
            assert(self.spec_boids().take(n as int) =~= self.spec_boids());
        }
        let rx = scale_by_factor(ax, self.avoid_factor);
        let ry = scale_by_factor(ay, self.avoid_factor);
        Vec2 { x: rx, y: ry }
    }

    /// Alignment for agent `i`, scanning every agent within the visible
    /// range (the agent's own velocity is excluded from the average).
    pub fn alignment_brute_force(&self, i: usize) -> (r: Vec2)
        requires
            self.config_wf(),
            i < self.spec_boids().len(),
            self.spec_boids().len() <= MAX_BOIDS,
            forall|k: int|
                0 <= k < self.spec_boids().len() ==> in_coord_bounds(
                    (#[trigger] self.spec_boids()[k]).pos,
                ) && in_coord_bounds(self.spec_boids()[k].vel),
        ensures
            r == self.spec_alignment(
                Self::spec_brute_neighbors(
                    self.spec_boids(),
                    self.spec_boids()[i as int].pos,
                    self.spec_visible_range(),
                ),
                self.spec_boids()[i as int].vel,
            ),
            -2_000_000_000_000_000_000 <= r.x <= 2_000_000_000_000_000_000,
            -2_000_000_000_000_000_000 <= r.y <= 2_000_000_000_000_000_000,
    {
        let p = self.boids[i].pos;
        let v = self.boids[i].vel;
        let ghost circ = brute_circle_pred(p, self.spec_visible_range());
        let ghost fvx = |b: Boid| b.vel.x as int;
        let ghost fvy = |b: Boid| b.vel.y as int;
        proof {
            assert(0 <= (self.spec_visible_range() as int) * (self.spec_visible_range() as int)
                <= 1_000_000_000_000_000_000int) by (nonlinear_arith)
                requires 0 <= self.spec_visible_range() <= 1_000_000_000;
            assert(self.spec_boids().take(0).filter(circ) =~= Seq::<Boid>::empty()) by {
                reveal(Seq::filter);
            }
        }
        let r2 = self.visible_range * self.visible_range;
        let n = self.boids.len();
        let mut cnt: usize = 0;
        let mut sx: i64 = 0;
        let mut sy: i64 = 0;
        let mut j: usize = 0;
        while j < n
            invariant
                n == self.spec_boids().len(),
                j <= n,
                cnt == self.spec_boids().take(j as int).filter(circ).len(),
                cnt <= j,
                sx == sum_of(self.spec_boids().take(j as int).filter(circ), fvx),
                sy == sum_of(self.spec_boids().take(j as int).filter(circ), fvy),
                -1_000_000_000 * (j as int) <= sx <= 1_000_000_000 * (j as int),
                -1_000_000_000 * (j as int) <= sy <= 1_000_000_000 * (j as int),
            decreases n - j,
        {
            let b = self.boids[j];
            let d2 = b.pos.distance_squared(&p);
            proof {
                assert(self.spec_boids().take(j + 1 as int) =~= self.spec_boids().take(
                    j as int,
                ).push(b));
                lemma_filter_push(self.spec_boids().take(j as int), b, circ);
                if circ(b) {
                    crate::sums::lemma_sum_of_push(
                        self.spec_boids().take(j as int).filter(circ),
                        fvx,
                        b,
                    );
                    crate::sums::lemma_sum_of_push(
                        self.spec_boids().take(j as int).filter(circ),
                        fvy,
                        b,
                    );
                }
            }
            if d2 <= r2 {
                cnt = cnt + 1;
                sx = sx + b.vel.x;
                sy = sy + b.vel.y;
            }
            j = j + 1;
        }
        proof {
            assert(self.spec_boids().take(n as int) =~= self.spec_boids());
        }
        if cnt <= 1 {
            return Vec2 { x: 0, y: 0 };
        }
        let dx = sx - v.x;
        let dy = sy - v.y;
        let qx = crate::vec2::div_trunc_i128(dx as i128, (cnt - 1) as i128);
        let qy = crate::vec2::div_trunc_i128(dy as i128, (cnt - 1) as i128);
        proof {
            crate::vec2::lemma_div_t_magnitude(dx as int, (cnt - 1) as int);
            crate::vec2::lemma_div_t_magnitude(dy as int, (cnt - 1) as int);
        }
        let rx = scale_by_factor((qx as i64) - v.x, self.align_factor);
        let ry = scale_by_factor((qy as i64) - v.y, self.align_factor);
        Vec2 { x: rx, y: ry }
    }

    /// Cohesion for agent `i`, scanning every agent within the visible
    /// range (the agent's own position is excluded from the average).
    pub fn cohesion_brute_force(&self, i: usize) -> (r: Vec2)
        requires
            self.config_wf(),
            i < self.spec_boids().len(),
            self.spec_boids().len() <= MAX_BOIDS,
            forall|k: int|
                0 <= k < self.spec_boids().len() ==> in_coord_bounds(
                    (#[trigger] self.spec_boids()[k]).pos,
                ),
        ensures
            r == self.spec_cohesion(
                Self::spec_brute_neighbors(
                    self.spec_boids(),
                    self.spec_boids()[i as int].pos,
                    self.spec_visible_range(),
                ),
                self.spec_boids()[i as int].pos,
            ),
            -2_000_000_000_000_000_000 <= r.x <= 2_000_000_000_000_000_000,
            -2_000_000_000_000_000_000 <= r.y <= 2_000_000_000_000_000_000,
    {
        let p = self.boids[i].pos;
        let ghost circ = brute_circle_pred(p, self.spec_visible_range());
        let ghost fpx = |b: Boid| b.pos.x as int;
        let ghost fpy = |b: Boid| b.pos.y as int;
        proof {
            assert(0 <= (self.spec_visible_range() as int) * (self.spec_visible_range() as int)
                <= 1_000_000_000_000_000_000int) by (nonlinear_arith)
                requires 0 <= self.spec_visible_range() <= 1_000_000_000;
            assert(self.spec_boids().take(0).filter(circ) =~= Seq::<Boid>::empty()) by {
                reveal(Seq::filter);
            }
        }
        let r2 = self.visible_range * self.visible_range;
        let n = self.boids.len();
        let mut cnt: usize = 0;
        let mut sx: i64 = 0;
        let mut sy: i64 = 0;
        let mut j: usize = 0;
        while j < n
            invariant
                n == self.spec_boids().len(),
                j <= n,
                cnt == self.spec_boids().take(j as int).filter(circ).len(),
                cnt <= j,
                sx == sum_of(self.spec_boids().take(j as int).filter(circ), fpx),
                sy == sum_of(self.spec_boids().take(j as int).filter(circ), fpy),
                -1_000_000_000 * (j as int) <= sx <= 1_000_000_000 * (j as int),
                -1_000_000_000 * (j as int) <= sy <= 1_000_000_000 * (j as int),
            decreases n - j,
        {
            let b = self.boids[j];
            let d2 = b.pos.distance_squared(&p);
            proof {
                assert(self.spec_boids().take(j + 1 as int) =~= self.spec_boids().take(
                    j as int,
                ).push(b));
                lemma_filter_push(self.spec_boids().take(j as int), b, circ);
                if circ(b) {
                    crate::sums::lemma_sum_of_push(
                        self.spec_boids().take(j as int).filter(circ),
                        fpx,
                        b,
                    );
                    crate::sums::lemma_sum_of_push(
                        self.spec_boids().take(j as int).filter(circ),
                        fpy,
                        b,
                    );
                }
            }
            if d2 <= r2 {
                cnt = cnt + 1;
                sx = sx + b.pos.x;
                sy = sy + b.pos.y;
            }
            j = j + 1;
        }
        proof {
            assert(self.spec_boids().take(n as int) =~= self.spec_boids());
        }
        if cnt <= 1 {
            return Vec2 { x: 0, y: 0 };
        }
        let dx = sx - p.x;
        let dy = sy - p.y;
        let qx = crate::vec2::div_trunc_i128(dx as i128, (cnt - 1) as i128);
        let qy = crate::vec2::div_trunc_i128(dy as i128, (cnt - 1) as i128);
        proof {
            crate::vec2::lemma_div_t_magnitude(dx as int, (cnt - 1) as int);
            crate::vec2::lemma_div_t_magnitude(dy as int, (cnt - 1) as int);
        }
        let rx = scale_by_factor((qx as i64) - p.x, self.cohesion_factor);
        let ry = scale_by_factor((qy as i64) - p.y, self.cohesion_factor);
        Vec2 { x: rx, y: ry }
    }
}

/// A circular index query returns exactly the in-world boids within range,
/// as a multiset.
proof fn lemma_query_is_neighbors(w: World, bs: Seq<Boid>, q: Seq<Boid>, p: Vec2, range: i64)
    requires
        w.index_synced_with(bs),
        q.to_multiset() == w.spec_quadtree().items().to_multiset().filter(
            circle_pred::<Boid>(p, range),
        ),
    ensures
        q.to_multiset() == w.spec_neighbors(bs, p, range).to_multiset(),
        q.to_multiset() == bs.to_multiset().filter(world_circle_pred(w.spec_dims(), p, range)),
{
    let dims = w.spec_dims();
    let inw = in_world_pred(dims);
    let circ = circle_pred::<Boid>(p, range);
    let wcp = world_circle_pred(dims, p, range);
    lemma_filter_to_multiset(bs, inw);
    assert(q.to_multiset() == bs.to_multiset().filter(inw).filter(circ));
    assert forall|b: Boid| #[trigger] wcp(b) == (inw(b) && circ(b)) by {}
    lemma_ms_filter_compose(bs.to_multiset(), inw, circ, wcp);
    lemma_filter_to_multiset(bs, wcp);
}

impl World {
    /// One agent's update, reading neighbours through the index; `bs` is
    /// the agent sequence the index is in sync with.
    fn step_boid(&self, Ghost(bs): Ghost<Seq<Boid>>, b: Boid) -> (nb: Boid)
        requires
            self.config_wf(),
            self.index_synced_with(bs),
            bs.len() <= MAX_BOIDS,
            forall|k: int|
                0 <= k < bs.len() ==> in_coord_bounds((#[trigger] bs[k]).pos) && in_coord_bounds(
                    bs[k].vel,
                ),
            in_coord_bounds(b.pos),
            in_coord_bounds(b.vel),
        ensures
            nb == self.spec_step(bs, b),
            -FACTOR_LIMIT <= nb.vel.x <= FACTOR_LIMIT,
            -FACTOR_LIMIT <= nb.vel.y <= FACTOR_LIMIT,
            -FACTOR_LIMIT <= nb.pos.x - b.pos.x <= FACTOR_LIMIT,
            -FACTOR_LIMIT <= nb.pos.y - b.pos.y <= FACTOR_LIMIT,
    {
        let visible = self.quadtree.query_circle(b.pos, self.visible_range);
        let protected_boids = self.quadtree.query_circle(b.pos, self.protect_range);
        let ghost vis_spec = self.spec_neighbors(bs, b.pos, self.spec_visible_range());
        let ghost prot_spec = self.spec_neighbors(bs, b.pos, self.spec_protect_range());
        proof {
            lemma_query_is_neighbors(*self, bs, visible@, b.pos, self.spec_visible_range());
            lemma_query_is_neighbors(*self, bs, protected_boids@, b.pos, self.spec_protect_range());
            lemma_subset_bounds(
                bs,
                visible@,
                world_circle_pred(self.spec_dims(), b.pos, self.spec_visible_range()),
            );
            lemma_subset_bounds(
                bs,
                protected_boids@,
                world_circle_pred(self.spec_dims(), b.pos, self.spec_protect_range()),
            );
            assert(visible@.to_multiset().len() == visible@.len());
            assert(vis_spec.to_multiset().len() == vis_spec.len());
            assert(protected_boids@.to_multiset().len() == protected_boids@.len());
            assert(prot_spec.to_multiset().len() == prot_spec.len());
            assert(visible@.len() <= bs.len()) by {
                assert(bs.filter(world_circle_pred(self.spec_dims(), b.pos, self.spec_visible_range())).len() <= bs.len());
            }
            assert(protected_boids@.len() <= bs.len()) by {
                assert(bs.filter(world_circle_pred(self.spec_dims(), b.pos, self.spec_protect_range())).len() <= bs.len());
            }
        }
        let sep = self.separation(b.pos, &protected_boids);
        let ali = self.alignment(b.vel, &visible);
        let coh = self.cohesion(b.pos, &visible);
        proof {
            lemma_sum_of_permutation(protected_boids@, prot_spec, |bb: Boid| b.pos.x - bb.pos.x);
            lemma_sum_of_permutation(protected_boids@, prot_spec, |bb: Boid| b.pos.y - bb.pos.y);
            lemma_sum_of_permutation(visible@, vis_spec, |bb: Boid| bb.vel.x as int);
            lemma_sum_of_permutation(visible@, vis_spec, |bb: Boid| bb.vel.y as int);
            lemma_sum_of_permutation(visible@, vis_spec, |bb: Boid| bb.pos.x as int);
            lemma_sum_of_permutation(visible@, vis_spec, |bb: Boid| bb.pos.y as int);
            assert(sep == self.spec_separation(prot_spec, b.pos));
            assert(ali == self.spec_alignment(vis_spec, b.vel));
            assert(coh == self.spec_cohesion(vis_spec, b.pos));
        }
        self.integrate(b, sep, ali, coh)
    }

    /// Discard and refill the index from the current agent positions.
    fn rebuild_index(&mut self)
        requires
            old(self).config_wf(),
            old(self).spec_boids().len() + 1 < usize::MAX,
        ensures
            final(self).config_wf(),
            final(self).index_synced_with(final(self).spec_boids()),
            final(self).spec_boids() == old(self).spec_boids(),
            final(self).spec_dims() == old(self).spec_dims(),
            final(self).spec_protect_range() == old(self).spec_protect_range(),
            final(self).spec_visible_range() == old(self).spec_visible_range(),
            final(self).spec_avoid_factor() == old(self).spec_avoid_factor(),
            final(self).spec_align_factor() == old(self).spec_align_factor(),
            final(self).spec_cohesion_factor() == old(self).spec_cohesion_factor(),
            final(self).spec_margin() == old(self).spec_margin(),
            final(self).spec_turn_factor() == old(self).spec_turn_factor(),
            final(self).spec_max_speed() == old(self).spec_max_speed(),
            final(self).spec_min_speed() == old(self).spec_min_speed(),
    {
        let ghost inw = in_world_pred(self.spec_dims());
        self.quadtree.clear();
        proof {
            assert(self.spec_boids().take(0).filter(inw) =~= Seq::<Boid>::empty()) by {
                reveal(Seq::filter);
            }
            assert(self.spec_quadtree().items().to_multiset() =~= self.spec_boids().take(
                0,
            ).filter(inw).to_multiset());
        }
        let n = self.boids.len();
        let mut k: usize = 0;
        while k < n
            invariant
                n == self.spec_boids().len(),
                k <= n,
                self.spec_boids() == old(self).spec_boids(),
                self.spec_dims() == old(self).spec_dims(),
                inw == in_world_pred(self.spec_dims()),
                self.spec_quadtree().inv(),
                self.spec_quadtree().spec_lo() == old(self).spec_quadtree().spec_lo(),
                self.spec_quadtree().spec_hi() == old(self).spec_quadtree().spec_hi(),
                self.spec_quadtree().items().to_multiset() == self.spec_boids().take(
                    k as int,
                ).filter(inw).to_multiset(),
                self.spec_quadtree().items().len() <= k,
                self.spec_protect_range() == old(self).spec_protect_range(),
                self.spec_visible_range() == old(self).spec_visible_range(),
                self.spec_avoid_factor() == old(self).spec_avoid_factor(),
                self.spec_align_factor() == old(self).spec_align_factor(),
                self.spec_cohesion_factor() == old(self).spec_cohesion_factor(),
                self.spec_margin() == old(self).spec_margin(),
                self.spec_turn_factor() == old(self).spec_turn_factor(),
                self.spec_max_speed() == old(self).spec_max_speed(),
                self.spec_min_speed() == old(self).spec_min_speed(),
            decreases n - k,
        {
            let b = self.boids[k];
            proof {
                assert(self.spec_boids().take(k + 1 as int) =~= self.spec_boids().take(
                    k as int,
                ).push(b));
                lemma_filter_push(self.spec_boids().take(k as int), b, inw);
            }
            let ghost pre_items = self.spec_quadtree().items();
            let _ = self.quadtree.push(&b);
            proof {
                let taken = self.spec_boids().take(k as int).filter(inw);
                if in_world(self.spec_dims(), b) {
                    assert(self.spec_boids().take(k + 1 as int).filter(inw) == taken.push(b));
                } else {
                    assert(self.spec_boids().take(k + 1 as int).filter(inw) == taken);
                }
                assert(self.spec_quadtree().items().to_multiset().len()
                    == self.spec_quadtree().items().len());
            }
            k = k + 1;
        }
        proof {
            assert(self.spec_boids().take(n as int) =~= self.spec_boids());
        }
    }

    /// Advance the simulation one tick: every agent is updated from the
    /// pre-tick snapshot held by the spatial index (so agent order cannot
    /// affect the result), and the index is then rebuilt from the new
    /// positions.
    pub fn tick(&mut self)
        requires
            old(self).inv(),
            old(self).spec_boids().len() <= MAX_BOIDS,
            forall|k: int|
                0 <= k < old(self).spec_boids().len() ==> in_coord_bounds(
                    (#[trigger] old(self).spec_boids()[k]).pos,
                ) && in_coord_bounds(old(self).spec_boids()[k].vel),
        ensures
            final(self).inv(),
            final(self).spec_boids().len() == old(self).spec_boids().len(),
            forall|k: int|
                0 <= k < old(self).spec_boids().len() ==> final(self).spec_boids()[k] == old(
                    self,
                ).spec_step(old(self).spec_boids(), old(self).spec_boids()[k]),
            forall|k: int|
                0 <= k < old(self).spec_boids().len() ==> {
                    &&& -FACTOR_LIMIT <= (#[trigger] final(self).spec_boids()[k]).vel.x
                        <= FACTOR_LIMIT
                    &&& -FACTOR_LIMIT <= final(self).spec_boids()[k].vel.y <= FACTOR_LIMIT
                    &&& -FACTOR_LIMIT <= final(self).spec_boids()[k].pos.x - old(
                        self,
                    ).spec_boids()[k].pos.x <= FACTOR_LIMIT
                    &&& -FACTOR_LIMIT <= final(self).spec_boids()[k].pos.y - old(
                        self,
                    ).spec_boids()[k].pos.y <= FACTOR_LIMIT
                },
            final(self).spec_dims() == old(self).spec_dims(),
            final(self).spec_protect_range() == old(self).spec_protect_range(),
            final(self).spec_visible_range() == old(self).spec_visible_range(),
            final(self).spec_avoid_factor() == old(self).spec_avoid_factor(),
            final(self).spec_align_factor() == old(self).spec_align_factor(),
            final(self).spec_cohesion_factor() == old(self).spec_cohesion_factor(),
            final(self).spec_margin() == old(self).spec_margin(),
            final(self).spec_turn_factor() == old(self).spec_turn_factor(),
            final(self).spec_max_speed() == old(self).spec_max_speed(),
            final(self).spec_min_speed() == old(self).spec_min_speed(),
    {
        let ghost bs0 = self.boids@;
        let n = self.boids.len();
        let mut i: usize = 0;
        while i < n
            invariant
                n == self.boids@.len(),
                i <= n,
                bs0 == old(self).spec_boids(),
                self.spec_quadtree() == old(self).spec_quadtree(),
                self.spec_dims() == old(self).spec_dims(),
                self.spec_protect_range() == old(self).spec_protect_range(),
                self.spec_visible_range() == old(self).spec_visible_range(),
                self.spec_avoid_factor() == old(self).spec_avoid_factor(),
                self.spec_align_factor() == old(self).spec_align_factor(),
                self.spec_cohesion_factor() == old(self).spec_cohesion_factor(),
                self.spec_margin() == old(self).spec_margin(),
                self.spec_turn_factor() == old(self).spec_turn_factor(),
                self.spec_max_speed() == old(self).spec_max_speed(),
                self.spec_min_speed() == old(self).spec_min_speed(),
                forall|j: int| i <= j < n ==> self.spec_boids()[j] == bs0[j],
                forall|j: int|
                    0 <= j < i ==> self.spec_boids()[j] == old(self).spec_step(bs0, bs0[j]),
                forall|j: int|
                    0 <= j < i ==> {
                        &&& -FACTOR_LIMIT <= (#[trigger] self.spec_boids()[j]).vel.x
                            <= FACTOR_LIMIT
                        &&& -FACTOR_LIMIT <= self.spec_boids()[j].vel.y <= FACTOR_LIMIT
                        &&& -FACTOR_LIMIT <= self.spec_boids()[j].pos.x - bs0[j].pos.x
                            <= FACTOR_LIMIT
                        &&& -FACTOR_LIMIT <= self.spec_boids()[j].pos.y - bs0[j].pos.y
                            <= FACTOR_LIMIT
                    },
            decreases n - i,
        {
            let b = self.boids[i];
            proof {
                assert(b == bs0[i as int]);
                assert(in_coord_bounds(old(self).spec_boids()[i as int].pos));
                assert(in_coord_bounds(old(self).spec_boids()[i as int].vel));
            }
            let nb = self.step_boid(Ghost(bs0), b);
            proof {
                assert(self.spec_step(bs0, b) == old(self).spec_step(bs0, b));
            }
            self.boids[i] = nb;
            i = i + 1;
        }
        self.rebuild_index();
    }

    /// Advance the simulation one tick with neighbours found by scanning
    /// every agent, from the same pre-tick snapshot semantics as [`Self::tick`].
    pub fn tick_brute_force(&mut self)
        requires
            old(self).inv(),
            old(self).spec_boids().len() <= MAX_BOIDS,
            forall|k: int|
                0 <= k < old(self).spec_boids().len() ==> in_coord_bounds(
                    (#[trigger] old(self).spec_boids()[k]).pos,
                ) && in_coord_bounds(old(self).spec_boids()[k].vel),
        ensures
            final(self).inv(),
            final(self).spec_boids().len() == old(self).spec_boids().len(),
            forall|k: int|
                0 <= k < old(self).spec_boids().len() ==> final(self).spec_boids()[k] == old(
                    self,
                ).spec_brute_step(old(self).spec_boids(), old(self).spec_boids()[k]),
            forall|k: int|
                0 <= k < old(self).spec_boids().len() ==> {
                    &&& -FACTOR_LIMIT <= (#[trigger] final(self).spec_boids()[k]).vel.x
                        <= FACTOR_LIMIT
                    &&& -FACTOR_LIMIT <= final(self).spec_boids()[k].vel.y <= FACTOR_LIMIT
                    &&& -FACTOR_LIMIT <= final(self).spec_boids()[k].pos.x - old(
                        self,
                    ).spec_boids()[k].pos.x <= FACTOR_LIMIT
                    &&& -FACTOR_LIMIT <= final(self).spec_boids()[k].pos.y - old(
                        self,
                    ).spec_boids()[k].pos.y <= FACTOR_LIMIT
                },
            final(self).spec_dims() == old(self).spec_dims(),
            final(self).spec_protect_range() == old(self).spec_protect_range(),
            final(self).spec_visible_range() == old(self).spec_visible_range(),
            final(self).spec_avoid_factor() == old(self).spec_avoid_factor(),
            final(self).spec_align_factor() == old(self).spec_align_factor(),
            final(self).spec_cohesion_factor() == old(self).spec_cohesion_factor(),
            final(self).spec_margin() == old(self).spec_margin(),
            final(self).spec_turn_factor() == old(self).spec_turn_factor(),
            final(self).spec_max_speed() == old(self).spec_max_speed(),
            final(self).spec_min_speed() == old(self).spec_min_speed(),
    {
        let ghost bs0 = self.boids@;
        let n = self.boids.len();
        let mut new_boids: Vec<Boid> = Vec::new();
        let mut i: usize = 0;
        while i < n
            invariant
                n == self.spec_boids().len(),
                i <= n,
                bs0 == self.spec_boids(),
                new_boids@.len() == i,
                forall|j: int|
                    0 <= j < i ==> new_boids@[j] == self.spec_brute_step(bs0, bs0[j]),
                forall|j: int|
                    0 <= j < i ==> {
                        &&& -FACTOR_LIMIT <= (#[trigger] new_boids@[j]).vel.x <= FACTOR_LIMIT
                        &&& -FACTOR_LIMIT <= new_boids@[j].vel.y <= FACTOR_LIMIT
                        &&& -FACTOR_LIMIT <= new_boids@[j].pos.x - bs0[j].pos.x <= FACTOR_LIMIT
                        &&& -FACTOR_LIMIT <= new_boids@[j].pos.y - bs0[j].pos.y <= FACTOR_LIMIT
                    },
            decreases n - i,
        {
            let b = self.boids[i];
            let sep = self.separation_brute_force(i);
            let ali = self.alignment_brute_force(i);
            let coh = self.cohesion_brute_force(i);
            let nb = self.integrate(b, sep, ali, coh);
            new_boids.push(nb);
            i = i + 1;
        }
        self.boids = new_boids;
        self.rebuild_index();
    }
}

/// Law: when every agent lies inside the world rectangle, the per-agent
/// update computed through the spatial index and the brute-force reference
/// update are one and the same function of the agent set — the index
/// changes how neighbours are found, never what a tick computes.
pub proof fn lemma_step_matches_brute_force(w: World, bs: Seq<Boid>, b: Boid)
    requires
        forall|k: int| 0 <= k < bs.len() ==> in_world(w.spec_dims(), #[trigger] bs[k]),
    ensures
        w.spec_step(bs, b) == w.spec_brute_step(bs, b),
{
    let pr = w.spec_protect_range();
    let vr = w.spec_visible_range();
    let dims = w.spec_dims();
    assert forall|k: int| 0 <= k < bs.len() implies world_circle_pred(dims, b.pos, pr)(
        #[trigger] bs[k],
    ) == brute_circle_pred(b.pos, pr)(bs[k]) by {}
    assert forall|k: int| 0 <= k < bs.len() implies world_circle_pred(dims, b.pos, vr)(
        #[trigger] bs[k],
    ) == brute_circle_pred(b.pos, vr)(bs[k]) by {}
    lemma_filter_congruence(bs, world_circle_pred(dims, b.pos, pr), brute_circle_pred(b.pos, pr));
    lemma_filter_congruence(bs, world_circle_pred(dims, b.pos, vr), brute_circle_pred(b.pos, vr));
}

} // verus!

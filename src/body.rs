use vstd::prelude::*;
use crate::fixed::{
    fx_ok, sat, trunc_div, spec_fx_mul, spec_fx_div, lemma_isqrt_is, saturate, div_toward_zero, fx_add,
    fx_sub, fx_mul, fx_div, SCALE, FX_MAX,
};
use crate::vector::{
    Vec2, vec_ok, zero_vec, spec_add, spec_sub, spec_scale, spec_dot, spec_length, spec_normalize,
    v_add, v_sub, v_scale, v_dot, v_length, normalize_or_zero,
};

verus! {

/// Springs shorter than this exert no force.
pub const SPRING_EPSILON: i64 = 1_000;

pub const PERIMETER_STIFFNESS: i64 = 100 * SCALE;

pub const DIAGONAL_STIFFNESS: i64 = 50 * SCALE;

pub const SPRING_DAMPING: i64 = 2 * SCALE;

pub const NODE_MASS: i64 = SCALE;

pub const NODE_RADIUS: i64 = 5 * SCALE;

pub const PRESSURE_CONSTANT: i64 = 10 * SCALE;

/// Pi, rounded to the fixed-point grid.
pub const PI_FX: i64 = 3_141_593;

/// Velocity factor applied on a wall bounce.
pub const RESTITUTION: i64 = -500_000;

/// Velocity factor applied every tick as ambient friction.
pub const DRAG: i64 = 990_000;

/// Largest number of nodes a body may have.
pub const MAX_NODES: usize = 1_000_000;

/// An RGBA color.
#[derive(Clone, Copy, Debug, PartialEq, Eq, Structural)]
pub struct Color {
    pub r: u8,
    pub g: u8,
    pub b: u8,
    pub a: u8,
}

/// A point mass of a body's mesh.
#[derive(Clone, Copy, Debug, PartialEq, Eq, Structural)]
pub struct Node {
    pub pos: Vec2,
    pub vel: Vec2,
    pub mass: i64,
    pub radius: i64,
}

/// A damped spring between two nodes of one body, addressed by index.
#[derive(Clone, Copy, Debug, PartialEq, Eq, Structural)]
pub struct Spring {
    pub node_a: usize,
    pub node_b: usize,
    pub rest_length: i64,
    pub stiffness: i64,
    pub damping: i64,
}

/// A deformable organism: a ring of nodes held together by springs.
#[derive(Debug)]
pub struct Amoeba {
    pub nodes: Vec<Node>,
    pub springs: Vec<Spring>,
    pub color: Color,
    pub center: Vec2,
    pub radius: i64,
}

pub open spec fn node_ok(n: Node) -> bool {
    vec_ok(n.pos) && vec_ok(n.vel) && 0 < n.mass <= FX_MAX && fx_ok(n.radius)
}

pub open spec fn spring_ok(s: Spring, n: int) -> bool {
    s.node_a < n && s.node_b < n && fx_ok(s.rest_length) && fx_ok(s.stiffness) && fx_ok(
        s.damping,
    )
}

pub open spec fn nodes_ok(nodes: Seq<Node>) -> bool {
    3 <= nodes.len() <= MAX_NODES && forall|i: int| 0 <= i < nodes.len() ==> node_ok(#[trigger] nodes[i])
}

pub open spec fn springs_ok(springs: Seq<Spring>, n: int) -> bool {
    forall|i: int| 0 <= i < springs.len() ==> spring_ok(#[trigger] springs[i], n)
}

/// Index of the node after `i` on a ring of `n`.
pub open spec fn next_index(i: int, n: int) -> int {
    if i + 1 < n {
        i + 1
    } else {
        0
    }
}

/// Force a spring exerts on its first endpoint; the second receives its negation.
pub open spec fn spec_spring_force(pa: Vec2, pb: Vec2, va: Vec2, vb: Vec2, s: Spring) -> Vec2 {
    let delta = spec_sub(pb, pa);
    let dist = spec_length(delta);
    if dist > SPRING_EPSILON {
        let dir = spec_normalize(delta, dist);
        let stretch = spec_fx_mul(sat(dist - s.rest_length), s.stiffness as int);
        let damp = spec_fx_mul(spec_dot(spec_sub(vb, va), dir), s.damping as int);
        spec_scale(dir, sat(stretch + damp) as i64)
    } else {
        zero_vec()
    }
}

/// Cross product of two consecutive ring vertices, in raw steps squared.
pub open spec fn cross(a: Vec2, b: Vec2) -> int {
    a.x * b.y - b.x * a.y
}

/// Shoelace sum over the first `k` edges of the ring: twice the signed area once `k` is the ring's length.
pub open spec fn shoelace(nodes: Seq<Node>, k: int) -> int
    decreases k,
{
    if k <= 0 {
        0
    } else {
        shoelace(nodes, k - 1) + cross(nodes[k - 1].pos, nodes[next_index(k - 1, nodes.len() as int)].pos)
    }
}

pub open spec fn abs(v: int) -> int {
    if v < 0 {
        -v
    } else {
        v
    }
}

/// Unsigned area enclosed by the ring, in fixed point.
pub open spec fn spec_area(nodes: Seq<Node>) -> int {
    sat(abs(shoelace(nodes, nodes.len() as int)) / (2 * SCALE))
}

/// Node `i` of a freshly built body.
pub open spec fn fresh_node(x: i64, y: i64, radius: i64, dir: Vec2) -> Node {
    Node {
        pos: spec_add(Vec2 { x, y }, spec_scale(dir, radius)),
        vel: zero_vec(),
        mass: NODE_MASS,
        radius: NODE_RADIUS,
    }
}

/// A spring from node `a` to node `b`, unstressed at the current positions.
pub open spec fn fresh_spring(nodes: Seq<Node>, a: int, b: int, stiffness: i64) -> Spring {
    Spring {
        node_a: a as usize,
        node_b: b as usize,
        rest_length: spec_length(spec_sub(nodes[b].pos, nodes[a].pos)) as i64,
        stiffness,
        damping: SPRING_DAMPING,
    }
}

/// The body `Amoeba::new(x, y, radius, dirs, color)` builds: one node per direction on the
/// circle, a perimeter spring from each node to the next, and a diagonal spring from each node
/// of the first half to its opposite.
pub open spec fn is_fresh(a: AmoebaView, x: i64, y: i64, radius: i64, dirs: Seq<Vec2>, color: Color) -> bool {
    let n = dirs.len() as int;
    &&& a.nodes.len() == n
    &&& forall|i: int| 0 <= i < n ==> #[trigger] a.nodes[i] == fresh_node(x, y, radius, dirs[i])
    &&& a.springs.len() == n + (n - n / 2)
    &&& forall|i: int|
        0 <= i < n ==> #[trigger] a.springs[i] == fresh_spring(a.nodes, i, next_index(i, n), PERIMETER_STIFFNESS)
    &&& forall|i: int|
        0 <= i < n - n / 2 ==> #[trigger] a.springs[n + i] == fresh_spring(a.nodes, i, i + n / 2, DIAGONAL_STIFFNESS)
    &&& a.color == color
    &&& a.center == (Vec2 { x, y })
    &&& a.radius == radius
}

/// Pressure pushing the ring toward the area of a circle of the body's radius.
pub open spec fn spec_pressure(a: AmoebaView) -> int {
    let target = spec_fx_mul(spec_fx_mul(PI_FX as int, a.radius as int), a.radius as int);
    spec_fx_mul(sat(target - spec_area(a.nodes)), PRESSURE_CONSTANT as int)
}

/// Forces on every node after applying the first `k` springs.
pub open spec fn spring_forces(nodes: Seq<Node>, springs: Seq<Spring>, k: int) -> Seq<Vec2>
    decreases k,
{
    if k <= 0 {
        Seq::new(nodes.len(), |i: int| zero_vec())
    } else {
        let f = spring_forces(nodes, springs, k - 1);
        let s = springs[k - 1];
        let a = s.node_a as int;
        let b = s.node_b as int;
        let t = spec_spring_force(nodes[a].pos, nodes[b].pos, nodes[a].vel, nodes[b].vel, s);
        let f1 = f.update(a, spec_add(f[a], t));
        f1.update(b, spec_sub(f1[b], t))
    }
}

/// Unit normal of the edge from `a` to `b` that points out of the ring: to the right of the
/// edge for a counter-clockwise ring (`ccw`, positive signed area), to the left otherwise;
/// the zero vector for an edge of zero length.
pub open spec fn outward_normal(a: Vec2, b: Vec2, ccw: bool) -> Vec2 {
    let nv = if ccw {
        Vec2 { x: sat(b.y - a.y) as i64, y: sat(a.x - b.x) as i64 }
    } else {
        Vec2 { x: sat(a.y - b.y) as i64, y: sat(b.x - a.x) as i64 }
    };
    spec_normalize(nv, spec_length(nv))
}

/// Spring forces keep one entry per node, each within range.
pub proof fn lemma_spring_forces_ok(nodes: Seq<Node>, springs: Seq<Spring>, k: int)
    requires
        springs_ok(springs, nodes.len() as int),
        k <= springs.len(),
    ensures
        spring_forces(nodes, springs, k).len() == nodes.len(),
        forall|i: int| 0 <= i < nodes.len() ==> vec_ok(#[trigger] spring_forces(nodes, springs, k)[i]),
    decreases k,
{
    if k > 0 {
        lemma_spring_forces_ok(nodes, springs, k - 1);
        assert(spring_ok(springs[k - 1], nodes.len() as int));
    }
}

/// Springs after the one at `m` are applied in the same order whether or not it is there.
proof fn lemma_drop_idle_spring_upto(nodes: Seq<Node>, springs: Seq<Spring>, m: int, k: int)
    requires
        springs_ok(springs, nodes.len() as int),
        0 <= m < k <= springs.len(),
        nodes[springs[m].node_a as int].pos == nodes[springs[m].node_b as int].pos,
    ensures
        spring_forces(nodes, springs.remove(m), k - 1) == spring_forces(nodes, springs, k),
    decreases k,
{
    let r = springs.remove(m);
    if k == m + 1 {
        assert forall|j: int| 0 <= j <= m implies spring_forces(nodes, r, j) == spring_forces(nodes, springs, j) by {
            lemma_prefix_forces(nodes, springs, m, j);
        }
        lemma_spring_forces_ok(nodes, springs, m);
        let f = spring_forces(nodes, springs, m);
        let s = springs[m];
        assert(spring_ok(s, nodes.len() as int));
        lemma_isqrt_is(0, 0);
        assert(spec_sub(nodes[s.node_b as int].pos, nodes[s.node_a as int].pos) == zero_vec());
        let f1 = f.update(s.node_a as int, spec_add(f[s.node_a as int], zero_vec()));
        assert(f1 =~= f);
        assert(f1.update(s.node_b as int, spec_sub(f1[s.node_b as int], zero_vec())) =~= f);
    } else {
        lemma_drop_idle_spring_upto(nodes, springs, m, k - 1);
        assert(r[k - 2] == springs[k - 1]);
    }
}

proof fn lemma_prefix_forces(nodes: Seq<Node>, springs: Seq<Spring>, m: int, j: int)
    requires
        0 <= j <= m < springs.len(),
    ensures
        spring_forces(nodes, springs.remove(m), j) == spring_forces(nodes, springs, j),
    decreases j,
{
    if j > 0 {
        lemma_prefix_forces(nodes, springs, m, j - 1);
        assert(springs.remove(m)[j - 1] == springs[j - 1]);
    }
}

/// A spring whose endpoints coincide adds no force: the body's forces, and so its step, are
/// the same without it.
pub proof fn lemma_coincident_spring_adds_nothing(a: AmoebaView, dt: i64, w: i64, h: i64, m: int)
    requires
        a.wf(),
        0 <= m < a.springs.len(),
        a.nodes[a.springs[m].node_a as int].pos == a.nodes[a.springs[m].node_b as int].pos,
    ensures
        total_forces(AmoebaView { springs: a.springs.remove(m), ..a }, dt) == total_forces(a, dt),
        stepped(AmoebaView { springs: a.springs.remove(m), ..a }, dt, w, h).nodes == stepped(a, dt, w, h).nodes,
        stepped(AmoebaView { springs: a.springs.remove(m), ..a }, dt, w, h).center == stepped(a, dt, w, h).center,
{
    lemma_drop_idle_spring_upto(a.nodes, a.springs, m, a.springs.len() as int);
    let b = AmoebaView { springs: a.springs.remove(m), ..a };
    assert(total_forces(b, dt) == total_forces(a, dt));
    assert(stepped(b, dt, w, h).nodes =~= stepped(a, dt, w, h).nodes);
}

/// Outward push on both endpoints of edge `i` under pressure `p` over time `dt`, for a ring
/// of orientation `ccw`.
pub open spec fn edge_push(nodes: Seq<Node>, i: int, p: i64, dt: i64, ccw: bool) -> Vec2 {
    let a = nodes[i].pos;
    let b = nodes[next_index(i, nodes.len() as int)].pos;
    spec_scale(spec_scale(outward_normal(a, b, ccw), p), dt)
}

/// Forces `f0` after adding the pressure push of the first `k` edges.
pub open spec fn pressure_forces(nodes: Seq<Node>, f0: Seq<Vec2>, p: i64, dt: i64, ccw: bool, k: int) -> Seq<Vec2>
    decreases k,
{
    if k <= 0 {
        f0
    } else {
        let f = pressure_forces(nodes, f0, p, dt, ccw, k - 1);
        let i = k - 1;
        let j = next_index(i, nodes.len() as int);
        let t = edge_push(nodes, i, p, dt, ccw);
        let f1 = f.update(i, spec_add(f[i], t));
        f1.update(j, spec_add(f1[j], t))
    }
}

/// Total force on every node of the body at the start of a tick.
pub open spec fn total_forces(a: AmoebaView, dt: i64) -> Seq<Vec2> {
    pressure_forces(
        a.nodes,
        spring_forces(a.nodes, a.springs, a.springs.len() as int),
        spec_pressure(a) as i64,
        dt,
        shoelace(a.nodes, a.nodes.len() as int) >= 0,
        a.nodes.len() as int,
    )
}

/// Position and velocity along one axis after a wall check against `[0, limit]`.
pub open spec fn spec_bounce(p: int, v: int, limit: int) -> (int, int) {
    if p < 0 {
        (0, spec_fx_mul(v, RESTITUTION as int))
    } else if p > limit {
        (limit, spec_fx_mul(v, RESTITUTION as int))
    } else {
        (p, v)
    }
}

/// A node after one integration step under `force`: velocity then position, wall bounce, drag.
/// Velocity of a node after this step's force, before the wall check and drag.
pub open spec fn pre_wall_vel(n: Node, force: Vec2, dt: i64) -> Vec2 {
    let accel = Vec2 {
        x: spec_fx_div(force.x as int, n.mass as int) as i64,
        y: spec_fx_div(force.y as int, n.mass as int) as i64,
    };
    spec_add(n.vel, spec_scale(accel, dt))
}

/// Position of a node after this step's motion, before the wall check.
pub open spec fn pre_wall_pos(n: Node, force: Vec2, dt: i64) -> Vec2 {
    spec_add(n.pos, spec_scale(pre_wall_vel(n, force, dt), dt))
}

/// A node after one integration step under `force`: velocity then position, wall bounce, drag.
pub open spec fn spec_integrate(n: Node, force: Vec2, dt: i64, w: i64, h: i64) -> Node {
    let vel = pre_wall_vel(n, force, dt);
    let pos = pre_wall_pos(n, force, dt);
    let bx = spec_bounce(pos.x as int, vel.x as int, w as int);
    let by = spec_bounce(pos.y as int, vel.y as int, h as int);
    Node {
        pos: Vec2 { x: bx.0 as i64, y: by.0 as i64 },
        vel: spec_scale(Vec2 { x: bx.1 as i64, y: by.1 as i64 }, DRAG),
        mass: n.mass,
        radius: n.radius,
    }
}

/// A node that this step's motion carries past the left wall is clamped onto it within the
/// same step, its horizontal velocity reversed and halved, and then slowed by drag.
pub proof fn lemma_left_wall_in_same_step(a: AmoebaView, dt: i64, w: i64, h: i64, i: int)
    requires
        a.wf(),
        0 <= i < a.nodes.len(),
        pre_wall_pos(a.nodes[i], total_forces(a, dt)[i], dt).x < 0,
    ensures
        stepped(a, dt, w, h).nodes[i].pos.x == 0,
        stepped(a, dt, w, h).nodes[i].vel.x == spec_fx_mul(
            spec_fx_mul(pre_wall_vel(a.nodes[i], total_forces(a, dt)[i], dt).x as int, RESTITUTION as int),
            DRAG as int,
        ),
{
}

pub open spec fn sum_x(nodes: Seq<Node>, k: int) -> int
    decreases k,
{
    if k <= 0 {
        0
    } else {
        sum_x(nodes, k - 1) + nodes[k - 1].pos.x
    }
}

pub open spec fn sum_y(nodes: Seq<Node>, k: int) -> int
    decreases k,
{
    if k <= 0 {
        0
    } else {
        sum_y(nodes, k - 1) + nodes[k - 1].pos.y
    }
}

/// Arithmetic mean of the node positions.
pub open spec fn spec_centroid(nodes: Seq<Node>) -> Vec2 {
    Vec2 {
        x: sat(trunc_div(sum_x(nodes, nodes.len() as int), nodes.len() as int)) as i64,
        y: sat(trunc_div(sum_y(nodes, nodes.len() as int), nodes.len() as int)) as i64,
    }
}

/// The body after one physics step of `dt` in a world of size `w` by `h`.
pub open spec fn stepped(a: AmoebaView, dt: i64, w: i64, h: i64) -> AmoebaView {
    let nodes = Seq::new(
        a.nodes.len(),
        |i: int| spec_integrate(a.nodes[i], total_forces(a, dt)[i], dt, w, h),
    );
    AmoebaView { nodes, center: spec_centroid(nodes), ..a }
}

/// What a body is, as a value.
pub struct AmoebaView {
    pub nodes: Seq<Node>,
    pub springs: Seq<Spring>,
    pub color: Color,
    pub center: Vec2,
    pub radius: i64,
}

impl View for Amoeba {
    type V = AmoebaView;

    open spec fn view(&self) -> AmoebaView {
        AmoebaView {
            nodes: self.nodes@,
            springs: self.springs@,
            color: self.color,
            center: self.center,
            radius: self.radius,
        }
    }
}

impl AmoebaView {
    pub open spec fn wf(self) -> bool {
        &&& nodes_ok(self.nodes)
        &&& springs_ok(self.springs, self.nodes.len() as int)
        &&& vec_ok(self.center)
        &&& 0 < self.radius <= FX_MAX
    }
}

/// Force that spring `s` exerts on its first endpoint, given both endpoints' positions and
/// velocities; the second endpoint receives its negation. A spring whose endpoints lie within
/// `SPRING_EPSILON` of each other exerts none.
pub fn spring_force(pa: Vec2, pb: Vec2, va: Vec2, vb: Vec2, s: &Spring) -> (r: Vec2)
    requires
        vec_ok(pa),
        vec_ok(pb),
        vec_ok(va),
        vec_ok(vb),
        fx_ok(s.rest_length),
        fx_ok(s.stiffness),
        fx_ok(s.damping),
    ensures
        r == spec_spring_force(pa, pb, va, vb, *s),
        vec_ok(r),
        pa == pb ==> r == zero_vec(),
{
    let delta = v_sub(pb, pa);
    let dist = v_length(delta);
    proof {
        if pa == pb {
            lemma_isqrt_is(0, 0);
        }
    }
    if dist > SPRING_EPSILON {
        let dir = Vec2 { x: fx_div(delta.x, dist), y: fx_div(delta.y, dist) };
        let stretch = fx_mul(fx_sub(dist, s.rest_length), s.stiffness);
        let damp = fx_mul(v_dot(v_sub(vb, va), dir), s.damping);
        v_scale(dir, fx_add(stretch, damp))
    } else {
        Vec2 { x: 0, y: 0 }
    }
}

/// Twice the signed area of the ring of `nodes` by the shoelace formula, exact.
pub fn shoelace_sum(nodes: &Vec<Node>) -> (r: i128)
    requires
        nodes_ok(nodes@),
    ensures
        r == shoelace(nodes@, nodes@.len() as int),
        -2_000_000_000_000_000_000_000_000_000_000_000_000 <= r <= 2_000_000_000_000_000_000_000_000_000_000_000_000,
{
    let n = nodes.len();
    let mut acc: i128 = 0;
    let mut i: usize = 0;
    let ghost b: int = 2 * FX_MAX * FX_MAX;
    while i < n
        invariant
            n == nodes@.len(),
            nodes_ok(nodes@),
            0 <= i <= n,
            acc == shoelace(nodes@, i as int),
            b == 2 * FX_MAX * FX_MAX,
            -(b * i) <= acc <= b * i,
        decreases n - i,
    {
        let j: usize = if i + 1 < n {
            i + 1
        } else {
            0
        };
        let p = nodes[i].pos;
        let q = nodes[j].pos;
        assert(node_ok(nodes@[i as int]) && node_ok(nodes@[j as int]));
        assert(-FX_MAX * FX_MAX <= p.x * q.y <= FX_MAX * FX_MAX && -FX_MAX * FX_MAX <= q.x * p.y
            <= FX_MAX * FX_MAX) by (nonlinear_arith)
            requires
                vec_ok(p),
                vec_ok(q),
        ;
        let term: i128 = p.x as i128 * q.y as i128 - q.x as i128 * p.y as i128;
        assert(-b <= term <= b);
        assert(b * (i + 1) == b * i + b && b * (i + 1) <= 2_000_000_000_000_000_000_000_000_000_000_000_000)
            by (nonlinear_arith)
            requires
                i + 1 <= MAX_NODES,
                b == 2 * FX_MAX * FX_MAX,
        ;
        acc = acc + term;
        i = i + 1;
    }
    assert(b * n <= 2_000_000_000_000_000_000_000_000_000_000_000_000) by (nonlinear_arith)
        requires
            n <= MAX_NODES,
            b == 2 * FX_MAX * FX_MAX,
    ;
    acc
}

/// Position and velocity along one axis after a wall check against `[0, limit]`: a position
/// outside is clamped to the nearer wall and the velocity reversed and halved.
pub fn bounce(p: i64, v: i64, limit: i64) -> (r: (i64, i64))
    requires
        fx_ok(p),
        fx_ok(v),
        0 <= limit <= FX_MAX,
    ensures
        r.0 == spec_bounce(p as int, v as int, limit as int).0,
        r.1 == spec_bounce(p as int, v as int, limit as int).1,
        0 <= r.0 <= limit,
        fx_ok(r.1),
{
    if p < 0 {
        (0, fx_mul(v, RESTITUTION))
    } else if p > limit {
        (limit, fx_mul(v, RESTITUTION))
    } else {
        (p, v)
    }
}

/// One integration step of a single node under `force`.
pub fn integrate_node(n: &Node, force: Vec2, dt: i64, w: i64, h: i64) -> (r: Node)
    requires
        node_ok(*n),
        vec_ok(force),
        0 <= dt <= FX_MAX,
        0 < w <= FX_MAX,
        0 < h <= FX_MAX,
    ensures
        r == spec_integrate(*n, force, dt, w, h),
        node_ok(r),
        0 <= r.pos.x <= w,
        0 <= r.pos.y <= h,
{
    let accel = Vec2 { x: fx_div(force.x, n.mass), y: fx_div(force.y, n.mass) };
    let vel = v_add(n.vel, v_scale(accel, dt));
    let pos = v_add(n.pos, v_scale(vel, dt));
    let bx = bounce(pos.x, vel.x, w);
    let by = bounce(pos.y, vel.y, h);
    Node {
        pos: Vec2 { x: bx.0, y: by.0 },
        vel: v_scale(Vec2 { x: bx.1, y: by.1 }, DRAG),
        mass: n.mass,
        radius: n.radius,
    }
}

/// Arithmetic mean of the positions of `nodes`.
pub fn centroid(nodes: &Vec<Node>) -> (r: Vec2)
    requires
        nodes_ok(nodes@),
    ensures
        r == spec_centroid(nodes@),
        vec_ok(r),
{
    let n = nodes.len();
    let mut sx: i128 = 0;
    let mut sy: i128 = 0;
    let mut i: usize = 0;
    let ghost b: int = FX_MAX as int;
    while i < n
        invariant
            n == nodes@.len(),
            nodes_ok(nodes@),
            0 <= i <= n,
            b == FX_MAX,
            sx == sum_x(nodes@, i as int),
            sy == sum_y(nodes@, i as int),
            -(b * i) <= sx <= b * i,
            -(b * i) <= sy <= b * i,
        decreases n - i,
    {
        assert(node_ok(nodes@[i as int]));
        assert(b * (i + 1) == b * i + b && b * (i + 1) <= 1_000_000_000_000_000_000_000) by (nonlinear_arith)
            requires
                i + 1 <= MAX_NODES,
                b == FX_MAX,
        ;
        sx = sx + nodes[i].pos.x as i128;
        sy = sy + nodes[i].pos.y as i128;
        i = i + 1;
    }
    Vec2 { x: saturate(div_toward_zero(sx, n as i128)), y: saturate(div_toward_zero(sy, n as i128)) }
}

impl Amoeba {
    /// A body centred at `(x, y)` with one node at `center + dir * radius` for each of `dirs`
    /// (the unit directions of the angles `2 * pi * i / n`), perimeter springs between
    /// neighbours and diagonal springs between opposite nodes, all unstressed.
    pub fn new(x: i64, y: i64, radius: i64, dirs: &Vec<Vec2>, color: Color) -> (r: Amoeba)
        requires
            fx_ok(x),
            fx_ok(y),
            0 < radius <= FX_MAX,
            3 <= dirs@.len() <= MAX_NODES,
            forall|i: int| 0 <= i < dirs@.len() ==> vec_ok(#[trigger] dirs@[i]),
        ensures
            r@.wf(),
            is_fresh(r@, x, y, radius, dirs@, color),
    {
        let n = dirs.len();
        let center = Vec2 { x, y };
        let mut nodes: Vec<Node> = Vec::new();
        let mut i: usize = 0;
        while i < n
            invariant
                n == dirs@.len(),
                vec_ok(center),
                center == (Vec2 { x, y }),
                fx_ok(radius),
                forall|k: int| 0 <= k < dirs@.len() ==> vec_ok(#[trigger] dirs@[k]),
                0 <= i <= n,
                nodes@.len() == i,
                forall|k: int| 0 <= k < i ==> #[trigger] nodes@[k] == fresh_node(x, y, radius, dirs@[k]),
                forall|k: int| 0 <= k < i ==> node_ok(#[trigger] nodes@[k]),
            decreases n - i,
        {
            let pos = v_add(center, v_scale(dirs[i], radius));
            nodes.push(Node { pos, vel: Vec2 { x: 0, y: 0 }, mass: NODE_MASS, radius: NODE_RADIUS });
            i = i + 1;
        }
        let mut springs: Vec<Spring> = Vec::new();
        i = 0;
        while i < n
            invariant
                n == nodes@.len(),
                nodes_ok(nodes@),
                0 <= i <= n,
                springs@.len() == i,
                forall|k: int|
                    0 <= k < i ==> #[trigger] springs@[k] == fresh_spring(
                        nodes@,
                        k,
                        next_index(k, n as int),
                        PERIMETER_STIFFNESS,
                    ),
                springs_ok(springs@, n as int),
            decreases n - i,
        {
            let next: usize = if i + 1 < n {
                i + 1
            } else {
                0
            };
            assert(node_ok(nodes@[i as int]) && node_ok(nodes@[next as int]));
            let dist = v_length(v_sub(nodes[next].pos, nodes[i].pos));
            springs.push(
                Spring {
                    node_a: i,
                    node_b: next,
                    rest_length: dist,
                    stiffness: PERIMETER_STIFFNESS,
                    damping: SPRING_DAMPING,
                },
            );
            i = i + 1;
        }
        let half: usize = n / 2;
        i = 0;
        while i < n
            invariant
                n == nodes@.len(),
                half == n / 2,
                nodes_ok(nodes@),
                0 <= i <= n,
                springs@.len() == n + if i <= n - half {
                    i as int
                } else {
                    n - half
                },
                forall|k: int|
                    0 <= k < n ==> #[trigger] springs@[k] == fresh_spring(
                        nodes@,
                        k,
                        next_index(k, n as int),
                        PERIMETER_STIFFNESS,
                    ),
                forall|k: int|
                    0 <= k < i && k < n - half ==> #[trigger] springs@[n + k] == fresh_spring(
                        nodes@,
                        k,
                        k + half,
                        DIAGONAL_STIFFNESS,
                    ),
                springs_ok(springs@, n as int),
            decreases n - i,
        {
            let opposite: usize = if i + half < n {
                i + half
            } else {
                i + half - n
            };
            if i < opposite {
                assert(node_ok(nodes@[i as int]) && node_ok(nodes@[opposite as int]));
                let dist = v_length(v_sub(nodes[opposite].pos, nodes[i].pos));
                springs.push(
                    Spring {
                        node_a: i,
                        node_b: opposite,
                        rest_length: dist,
                        stiffness: DIAGONAL_STIFFNESS,
                        damping: SPRING_DAMPING,
                    },
                );
            }
            i = i + 1;
        }
        Amoeba { nodes, springs, color, center, radius }
    }

    /// Unsigned area enclosed by the node ring.
    pub fn area(&self) -> (r: i64)
        requires
            self@.wf(),
        ensures
            r == spec_area(self@.nodes),
    {
        let t = shoelace_sum(&self.nodes);
        let a: i128 = if t < 0 {
            -t
        } else {
            t
        };
        saturate(a / (2 * SCALE as i128))
    }

    /// Pressure toward the target area `pi * radius^2`: positive when the body has lost area.
    pub fn pressure(&self) -> (r: i64)
        requires
            self@.wf(),
        ensures
            r == spec_pressure(self@),
            fx_ok(r),
    {
        let target = fx_mul(fx_mul(PI_FX, self.radius), self.radius);
        fx_mul(fx_sub(target, self.area()), PRESSURE_CONSTANT)
    }

    /// Forces of all springs on every node.
    fn spring_force_field(&self) -> (r: Vec<Vec2>)
        requires
            self@.wf(),
        ensures
            r@ == spring_forces(self@.nodes, self@.springs, self@.springs.len() as int),
            r@.len() == self@.nodes.len(),
            forall|i: int| 0 <= i < r@.len() ==> vec_ok(#[trigger] r@[i]),
    {
        let n = self.nodes.len();
        let mut f: Vec<Vec2> = Vec::new();
        let mut i: usize = 0;
        while i < n
            invariant
                n == self@.nodes.len(),
                0 <= i <= n,
                f@.len() == i,
                forall|k: int| 0 <= k < i ==> #[trigger] f@[k] == zero_vec(),
            decreases n - i,
        {
            f.push(Vec2 { x: 0, y: 0 });
            i = i + 1;
        }
        assert(f@ =~= spring_forces(self@.nodes, self@.springs, 0));
        let m = self.springs.len();
        let mut k: usize = 0;
        while k < m
            invariant
                self@.wf(),
                n == self@.nodes.len(),
                m == self@.springs.len(),
                0 <= k <= m,
                f@ == spring_forces(self@.nodes, self@.springs, k as int),
                f@.len() == n,
                forall|j: int| 0 <= j < n ==> vec_ok(#[trigger] f@[j]),
            decreases m - k,
        {
            let s = self.springs[k];
            assert(spring_ok(self@.springs[k as int], n as int));
            let a = s.node_a;
            let b = s.node_b;
            let na = self.nodes[a];
            let nb = self.nodes[b];
            assert(node_ok(self@.nodes[a as int]) && node_ok(self@.nodes[b as int]));
            let t = spring_force(na.pos, nb.pos, na.vel, nb.vel, &s);
            let fa = v_add(f[a], t);
            f.set(a, fa);
            assert(vec_ok(f@[b as int]));
            let fb = v_sub(f[b], t);
            f.set(b, fb);
            k = k + 1;
        }
        f
    }

    /// Adds the outward pressure push of every edge to `forces`; `ccw` tells the ring's
    /// orientation.
    fn add_pressure(&self, forces: &mut Vec<Vec2>, p: i64, dt: i64, ccw: bool)
        requires
            self@.wf(),
            fx_ok(p),
            fx_ok(dt),
            old(forces)@.len() == self@.nodes.len(),
            forall|i: int| 0 <= i < old(forces)@.len() ==> vec_ok(#[trigger] old(forces)@[i]),
        ensures
            final(forces)@ == pressure_forces(self@.nodes, old(forces)@, p, dt, ccw, self@.nodes.len() as int),
            final(forces)@.len() == self@.nodes.len(),
            forall|i: int| 0 <= i < final(forces)@.len() ==> vec_ok(#[trigger] final(forces)@[i]),
    {
        let ghost f0 = forces@;
        let n = self.nodes.len();
        let mut i: usize = 0;
        while i < n
            invariant
                self@.wf(),
                fx_ok(p),
                fx_ok(dt),
                n == self@.nodes.len(),
                0 <= i <= n,
                forces@ == pressure_forces(self@.nodes, f0, p, dt, ccw, i as int),
                forces@.len() == n,
                forall|j: int| 0 <= j < n ==> vec_ok(#[trigger] forces@[j]),
            decreases n - i,
        {
            let j: usize = if i + 1 < n {
                i + 1
            } else {
                0
            };
            let a = self.nodes[i].pos;
            let b = self.nodes[j].pos;
            assert(node_ok(self@.nodes[i as int]) && node_ok(self@.nodes[j as int]));
            let nv = if ccw {
                Vec2 { x: fx_sub(b.y, a.y), y: fx_sub(a.x, b.x) }
            } else {
                Vec2 { x: fx_sub(a.y, b.y), y: fx_sub(b.x, a.x) }
            };
            let normal = normalize_or_zero(nv);
            let push = v_scale(v_scale(normal, p), dt);
            let fi = v_add(forces[i], push);
            forces.set(i, fi);
            assert(vec_ok(forces@[j as int]));
            let fj = v_add(forces[j], push);
            forces.set(j, fj);
            i = i + 1;
        }
    }

    /// Advances the body by `dt` inside a world of size `w` by `h`: spring and pressure forces,
    /// integration of every node, wall bounces, drag, and a fresh centroid.
    pub fn update(&mut self, dt: i64, w: i64, h: i64)
        requires
            old(self)@.wf(),
            0 <= dt <= FX_MAX,
            0 < w <= FX_MAX,
            0 < h <= FX_MAX,
        ensures
            final(self)@.wf(),
            final(self)@.springs == old(self)@.springs,
            final(self)@.color == old(self)@.color,
            final(self)@.radius == old(self)@.radius,
            final(self)@.nodes.len() == old(self)@.nodes.len(),
            forall|i: int|
                0 <= i < final(self)@.nodes.len() ==> #[trigger] final(self)@.nodes[i] == spec_integrate(
                    old(self)@.nodes[i],
                    total_forces(old(self)@, dt)[i],
                    dt,
                    w,
                    h,
                ),
            forall|i: int|
                0 <= i < final(self)@.nodes.len() ==> 0 <= (#[trigger] final(self)@.nodes[i]).pos.x <= w
                    && 0 <= final(self)@.nodes[i].pos.y <= h,
            final(self)@.center == spec_centroid(final(self)@.nodes),
            final(self)@ == stepped(old(self)@, dt, w, h),
    {
        let ghost before = self@;
        let mut forces = self.spring_force_field();
        let p = self.pressure();
        let ccw = shoelace_sum(&self.nodes) >= 0;
        self.add_pressure(&mut forces, p, dt, ccw);
        assert(forces@ == total_forces(before, dt));
        let n = self.nodes.len();
        let mut i: usize = 0;
        while i < n
            invariant
                before.wf(),
                0 <= dt <= FX_MAX,
                0 < w <= FX_MAX,
                0 < h <= FX_MAX,
                n == before.nodes.len(),
                forces@ == total_forces(before, dt),
                forces@.len() == n,
                forall|j: int| 0 <= j < n ==> vec_ok(#[trigger] forces@[j]),
                0 <= i <= n,
                self@.nodes.len() == n,
                self@.springs == before.springs,
                self@.color == before.color,
                self@.radius == before.radius,
                vec_ok(self@.center),
                forall|k: int|
                    0 <= k < i ==> #[trigger] self@.nodes[k] == spec_integrate(before.nodes[k], forces@[k], dt, w, h),
                forall|k: int| 0 <= k < i ==> 0 <= (#[trigger] self@.nodes[k]).pos.x <= w && 0 <= self@.nodes[k].pos.y <= h,
                forall|k: int| 0 <= k < i ==> node_ok(#[trigger] self@.nodes[k]),
                forall|k: int| i <= k < n ==> #[trigger] self@.nodes[k] == before.nodes[k],
            decreases n - i,
        {
            assert(node_ok(before.nodes[i as int]));
            let nd = integrate_node(&self.nodes[i], forces[i], dt, w, h);
            self.nodes.set(i, nd);
            i = i + 1;
        }
        assert(nodes_ok(self@.nodes));
        self.center = centroid(&self.nodes);
        assert(self@.nodes =~= stepped(before, dt, w, h).nodes);
    }
}

} // verus!

use vstd::prelude::*;
use crate::fixed::{fx_ok, sat, trunc_div, spec_fx_mul, fx_add, fx_mul, div_toward_zero, SCALE, FX_MAX};
use crate::vector::{
    Vec2, vec_ok, spec_dist_sq, dist_sq, spec_add, spec_sub, spec_scale, spec_normalize, spec_length,
    v_add, v_sub, v_scale, normalize_or_zero,
};
use crate::body::{Amoeba, AmoebaView, Node, Spring, Color, spring_ok, node_ok, is_fresh, stepped, MAX_NODES};

verus! {

/// Nutritional value of a fresh food item.
pub const FOOD_VALUE: i64 = 10 * SCALE;

/// Factor applied to every rest length of a body that eats.
pub const GROWTH: i64 = 1_020_000;

/// Radius a body gains per food item eaten.
pub const GROWTH_STEP: i64 = SCALE;

/// The color of food.
pub open spec fn green() -> Color {
    Color { r: 0, g: 228, b: 48, a: 255 }
}

/// A food item lying in the world.
#[derive(Clone, Copy, Debug, PartialEq, Eq, Structural)]
pub struct Food {
    pub pos: Vec2,
    pub value: i64,
    pub color: Color,
}

impl Food {
    /// A fresh food item at `(x, y)`.
    pub fn new(x: i64, y: i64) -> (r: Food)
        ensures
            r.pos == (Vec2 { x, y }),
            r.value == FOOD_VALUE,
            r.color == green(),
    {
        Food { pos: Vec2 { x, y }, value: FOOD_VALUE, color: Color { r: 0, g: 228, b: 48, a: 255 } }
    }
}

/// Chance, in fixed point, that a food item appears during one tick at `temperature`:
/// a hundredth of `temperature / 20`, but never less than a thousandth.
pub open spec fn spec_spawn_probability(temperature: int) -> int {
    let scaled = trunc_div(temperature, 20);
    let floor = SCALE / 10;
    (if scaled > floor {
        scaled
    } else {
        floor
    }) / 100
}

/// Chance, in fixed point, that a food item appears during one tick at `temperature`.
pub fn spawn_probability(temperature: i64) -> (r: i64)
    requires
        fx_ok(temperature),
    ensures
        r == spec_spawn_probability(temperature as int),
{
    let scaled = div_toward_zero(temperature as i128, 20) as i64;
    let floor: i64 = SCALE / 10;
    let m = if scaled > floor {
        scaled
    } else {
        floor
    };
    m / 100
}

/// Whether a food item appears this tick, given a uniform draw `sample` from `[0, SCALE)`.
pub fn should_spawn(temperature: i64, sample: i64) -> (r: bool)
    requires
        fx_ok(temperature),
    ensures
        r == (sample < spec_spawn_probability(temperature as int)),
{
    sample < spawn_probability(temperature)
}

pub open spec fn food_dist(c: Vec2, foods: Seq<Food>, j: int) -> int {
    spec_dist_sq(c, foods[j].pos)
}

/// Index of the food nearest to `c` among the first `k`, the earliest on ties; -1 if `k` is 0.
pub open spec fn nearest_upto(c: Vec2, foods: Seq<Food>, k: int) -> int
    decreases k,
{
    if k <= 0 {
        -1
    } else {
        let r = nearest_upto(c, foods, k - 1);
        if r < 0 || food_dist(c, foods, k - 1) < food_dist(c, foods, r) {
            k - 1
        } else {
            r
        }
    }
}

pub open spec fn foods_ok(foods: Seq<Food>) -> bool {
    forall|i: int| 0 <= i < foods.len() ==> vec_ok(#[trigger] foods[i].pos)
}

/// The food nearest to `c`, the earliest in `foods` on ties; `None` when there is none.
pub fn nearest_food(c: Vec2, foods: &Vec<Food>) -> (r: Option<usize>)
    requires
        vec_ok(c),
        foods_ok(foods@),
    ensures
        r.is_none() <==> foods@.len() == 0,
        r.is_some() ==> r.unwrap() == nearest_upto(c, foods@, foods@.len() as int),
        r.is_some() ==> r.unwrap() < foods@.len(),
        r.is_some() ==> forall|j: int|
            0 <= j < foods@.len() ==> food_dist(c, foods@, r.unwrap() as int) <= #[trigger] food_dist(c, foods@, j),
        r.is_some() ==> forall|j: int|
            0 <= j < r.unwrap() ==> food_dist(c, foods@, r.unwrap() as int) < #[trigger] food_dist(c, foods@, j),
{
    let n = foods.len();
    let mut best: Option<usize> = None;
    let mut best_d: i128 = 0;
    let mut i: usize = 0;
    while i < n
        invariant
            n == foods@.len(),
            vec_ok(c),
            foods_ok(foods@),
            0 <= i <= n,
            best.is_none() <==> i == 0,
            best.is_none() ==> nearest_upto(c, foods@, i as int) == -1,
            best.is_some() ==> best.unwrap() == nearest_upto(c, foods@, i as int),
            best.is_some() ==> best.unwrap() < i,
            best.is_some() ==> best_d == food_dist(c, foods@, best.unwrap() as int),
            best.is_some() ==> forall|j: int|
                0 <= j < i ==> food_dist(c, foods@, best.unwrap() as int) <= #[trigger] food_dist(c, foods@, j),
            best.is_some() ==> forall|j: int|
                0 <= j < best.unwrap() ==> food_dist(c, foods@, best.unwrap() as int) < #[trigger] food_dist(c, foods@, j),
        decreases n - i,
    {
        assert(vec_ok(foods@[i as int].pos));
        let d = dist_sq(c, foods[i].pos);
        if best.is_none() || d < best_d {
            best = Some(i);
            best_d = d;
        }
        i = i + 1;
    }
    best
}

/// Whether food at `p` lies strictly within the radius of body `a`.
pub open spec fn in_reach(a: AmoebaView, p: Vec2) -> bool {
    spec_dist_sq(a.center, p) < a.radius * a.radius
}

/// Index of the first of the first `k` bodies that reaches `p`; -1 if none does.
pub open spec fn first_reach(bodies: Seq<AmoebaView>, p: Vec2, k: int) -> int
    decreases k,
{
    if k <= 0 {
        -1
    } else {
        let r = first_reach(bodies, p, k - 1);
        if r >= 0 {
            r
        } else if in_reach(bodies[k - 1], p) {
            k - 1
        } else {
            -1
        }
    }
}

/// Once a body is found, scanning further bodies keeps it.
pub proof fn lemma_first_reach_stays(bodies: Seq<AmoebaView>, p: Vec2, m: int, k: int)
    requires
        0 <= m <= k,
        first_reach(bodies, p, m) >= 0,
    ensures
        first_reach(bodies, p, k) == first_reach(bodies, p, m),
    decreases k - m,
{
    if k > m {
        lemma_first_reach_stays(bodies, p, m, k - 1);
    }
}

pub open spec fn views(amoebas: Seq<Amoeba>) -> Seq<AmoebaView> {
    amoebas.map_values(|a: Amoeba| a@)
}

/// The first body that reaches food at `p`.
pub fn first_eater(amoebas: &Vec<Amoeba>, p: Vec2) -> (r: Option<usize>)
    requires
        vec_ok(p),
        forall|i: int| 0 <= i < amoebas@.len() ==> (#[trigger] amoebas@[i])@.wf(),
    ensures
        r.is_none() ==> first_reach(views(amoebas@), p, amoebas@.len() as int) == -1,
        r.is_some() ==> r.unwrap() == first_reach(views(amoebas@), p, amoebas@.len() as int),
        r.is_none() <==> forall|j: int| 0 <= j < amoebas@.len() ==> !in_reach(#[trigger] views(amoebas@)[j], p),
        r.is_some() ==> r.unwrap() < amoebas@.len() && in_reach(views(amoebas@)[r.unwrap() as int], p),
        r.is_some() ==> forall|j: int| 0 <= j < r.unwrap() ==> !in_reach(#[trigger] views(amoebas@)[j], p),
{
    let n = amoebas.len();
    let mut i: usize = 0;
    while i < n
        invariant
            n == amoebas@.len(),
            vec_ok(p),
            forall|k: int| 0 <= k < amoebas@.len() ==> (#[trigger] amoebas@[k])@.wf(),
            0 <= i <= n,
            first_reach(views(amoebas@), p, i as int) == -1,
            forall|j: int| 0 <= j < i ==> !in_reach(#[trigger] views(amoebas@)[j], p),
        decreases n - i,
    {
        let a = &amoebas[i];
        assert(a@.wf());
        let d = dist_sq(a.center, p);
        assert(0 < a.radius * a.radius <= FX_MAX * FX_MAX) by (nonlinear_arith)
            requires
                0 < a.radius <= FX_MAX,
        ;
        let r2: i128 = a.radius as i128 * a.radius as i128;
        assert(views(amoebas@)[i as int] == a@);
        if d < r2 {
            proof {
                lemma_first_reach_stays(views(amoebas@), p, i + 1, n as int);
            }
            return Some(i);
        }
        i = i + 1;
    }
    None
}

/// A spring after its body has eaten.
pub open spec fn grown_spring(s: Spring) -> Spring {
    Spring { rest_length: spec_fx_mul(s.rest_length as int, GROWTH as int) as i64, ..s }
}

/// A body after it has eaten: one unit more radius, every rest length scaled by `GROWTH`.
pub open spec fn grown(a: AmoebaView) -> AmoebaView {
    AmoebaView {
        radius: sat(a.radius + GROWTH_STEP) as i64,
        springs: a.springs.map_values(|s: Spring| grown_spring(s)),
        ..a
    }
}

impl Amoeba {
    /// Growth after eating one food item.
    pub fn grow(&mut self)
        requires
            old(self)@.wf(),
        ensures
            final(self)@ == grown(old(self)@),
            final(self)@.wf(),
    {
        self.radius = fx_add(self.radius, GROWTH_STEP);
        let n = self.springs.len();
        let ghost before = self@;
        let mut i: usize = 0;
        while i < n
            invariant
                n == self@.springs.len(),
                before.wf(),
                0 <= i <= n,
                self@.nodes == before.nodes,
                self@.center == before.center,
                self@.color == before.color,
                self@.radius == before.radius,
                self@.springs.len() == n,
                before.springs.len() == n,
                forall|k: int| 0 <= k < i ==> #[trigger] self@.springs[k] == grown_spring(before.springs[k]),
                forall|k: int| i <= k < n ==> #[trigger] self@.springs[k] == before.springs[k],
            decreases n - i,
        {
            let mut s = self.springs[i];
            assert(spring_ok(before.springs[i as int], before.nodes.len() as int));
            s.rest_length = fx_mul(s.rest_length, GROWTH);
            self.springs.set(i, s);
            i = i + 1;
        }
        assert(self@.springs =~= before.springs.map_values(|s: Spring| grown_spring(s)));
        assert forall|k: int| 0 <= k < self@.springs.len() implies spring_ok(#[trigger] self@.springs[k], self@.nodes.len() as int) by {
            assert(spring_ok(before.springs[k], before.nodes.len() as int));
        }
    }
}

/// Items of `s` among the first `k` whose index is not in `gone`, in their order.
pub open spec fn kept(s: Seq<Food>, gone: Set<int>, k: int) -> Seq<Food>
    decreases k,
{
    if k <= 0 {
        Seq::empty()
    } else if gone.contains(k - 1) {
        kept(s, gone, k - 1)
    } else {
        kept(s, gone, k - 1).push(s[k - 1])
    }
}

/// The indices listed in `e` from position `from` on.
pub open spec fn index_set(e: Seq<usize>, from: int) -> Set<int> {
    Set::new(|i: int| exists|m: int| from <= m < e.len() && e[m] as int == i)
}

pub open spec fn strictly_increasing(e: Seq<usize>) -> bool {
    forall|a: int, b: int| 0 <= a < b < e.len() ==> e[a] < e[b]
}

/// With no index removed below `k`, the first `k` items are kept as they are.
pub proof fn lemma_kept_prefix(s: Seq<Food>, gone: Set<int>, k: int)
    requires
        0 <= k <= s.len(),
        forall|i: int| gone.contains(i) ==> i >= k,
    ensures
        kept(s, gone, k) == s.subrange(0, k),
    decreases k,
{
    if k > 0 {
        lemma_kept_prefix(s, gone, k - 1);
        assert(s.subrange(0, k) =~= s.subrange(0, k - 1).push(s[k - 1]));
    }
}

/// Dropping index `x`, below every index already gone, removes position `x` of what is kept.
pub proof fn lemma_kept_remove(s: Seq<Food>, gone: Set<int>, x: int, k: int)
    requires
        0 <= x < k <= s.len(),
        forall|i: int| gone.contains(i) ==> i > x,
    ensures
        kept(s, gone, k).len() > x,
        kept(s, gone.insert(x), k) == kept(s, gone, k).remove(x),
    decreases k,
{
    if k == x + 1 {
        lemma_kept_prefix(s, gone, k);
        lemma_kept_prefix(s, gone.insert(x), x);
        assert(s.subrange(0, k).remove(x) =~= s.subrange(0, x));
    } else {
        lemma_kept_remove(s, gone, x, k - 1);
        let a = kept(s, gone, k - 1);
        if !gone.contains(k - 1) {
            assert(a.push(s[k - 1]).remove(x) =~= a.remove(x).push(s[k - 1]));
        }
    }
}

/// Removes the items at the indices `eaten`, taken from the highest down so that no removal
/// shifts an index still to come: every other item stays, unchanged and in order.
pub fn remove_indices(foods: &mut Vec<Food>, eaten: &Vec<usize>)
    requires
        strictly_increasing(eaten@),
        forall|m: int| 0 <= m < eaten@.len() ==> #[trigger] eaten@[m] < old(foods)@.len(),
    ensures
        final(foods)@ == kept(old(foods)@, index_set(eaten@, 0), old(foods)@.len() as int),
{
    let ghost s = foods@;
    let mut m: usize = eaten.len();
    proof {
        assert(index_set(eaten@, m as int) =~= Set::empty());
        lemma_kept_prefix(s, index_set(eaten@, m as int), s.len() as int);
        assert(s.subrange(0, s.len() as int) =~= s);
    }
    while m > 0
        invariant
            strictly_increasing(eaten@),
            forall|k: int| 0 <= k < eaten@.len() ==> #[trigger] eaten@[k] < s.len(),
            0 <= m <= eaten@.len(),
            foods@ == kept(s, index_set(eaten@, m as int), s.len() as int),
        decreases m,
    {
        m = m - 1;
        let idx = eaten[m];
        proof {
            let upper = index_set(eaten@, m + 1);
            assert forall|i: int| upper.contains(i) implies i > idx by {
                let w = choose|w: int| m + 1 <= w < eaten@.len() && eaten@[w] as int == i;
                assert(eaten@[m as int] < eaten@[w]);
            }
            lemma_kept_remove(s, upper, idx as int, s.len() as int);
            assert forall|i: int| #[trigger] index_set(eaten@, m as int).contains(i) == upper.insert(idx as int).contains(i) by {
                if index_set(eaten@, m as int).contains(i) {
                    let w = choose|w: int| m <= w < eaten@.len() && eaten@[w] as int == i;
                    if w > m {
                        assert(upper.contains(i));
                    }
                }
                if upper.contains(i) {
                    let w = choose|w: int| m + 1 <= w < eaten@.len() && eaten@[w] as int == i;
                    assert(m <= w < eaten@.len() && eaten@[w] as int == i);
                }
                if i == idx {
                    assert(m <= m < eaten@.len() && eaten@[m as int] as int == i);
                }
            }
            assert(index_set(eaten@, m as int) =~= upper.insert(idx as int));
        }
        foods.remove(idx);
    }
}

/// Speed gained per unit time toward the nearest food.
pub const MOTILITY: i64 = 50 * SCALE;

/// Radius of the body a world starts with.
pub const SEED_RADIUS: i64 = 30 * SCALE;

/// Number of nodes of the body a world starts with.
pub const SEED_NODES: usize = 12;

/// Temperature a world starts with, in degrees Celsius.
pub const DEFAULT_TEMPERATURE: i64 = 20 * SCALE;

/// The color of the body a world starts with.
pub open spec fn blue() -> Color {
    Color { r: 0, g: 121, b: 241, a: 255 }
}

/// Velocity a node gains while steering: toward `target` at `MOTILITY`, or by its jitter
/// draw when there is no food.
pub open spec fn steer_push(a: AmoebaView, target: Option<Vec2>, jitter: Seq<Vec2>, dt: i64, i: int) -> Vec2 {
    match target {
        Some(t) => {
            let d = spec_sub(t, a.center);
            spec_scale(spec_scale(spec_normalize(d, spec_length(d)), MOTILITY), dt)
        },
        None => spec_scale(jitter[i], dt),
    }
}

/// The body after steering.
pub open spec fn steered(a: AmoebaView, target: Option<Vec2>, jitter: Seq<Vec2>, dt: i64) -> AmoebaView {
    AmoebaView {
        nodes: Seq::new(
            a.nodes.len(),
            |i: int| Node { vel: spec_add(a.nodes[i].vel, steer_push(a, target, jitter, dt, i)), ..a.nodes[i] },
        ),
        ..a
    }
}

pub open spec fn jitter_ok(a: AmoebaView, jitter: Seq<Vec2>) -> bool {
    jitter.len() == a.nodes.len() && forall|i: int| 0 <= i < jitter.len() ==> vec_ok(#[trigger] jitter[i])
}

impl Amoeba {
    /// Adds the steering velocity to every node: toward `target` when there is one, else each
    /// node's own jitter draw, all scaled by `dt`.
    pub fn steer(&mut self, target: Option<Vec2>, jitter: &Vec<Vec2>, dt: i64)
        requires
            old(self)@.wf(),
            jitter_ok(old(self)@, jitter@),
            target.is_some() ==> vec_ok(target.unwrap()),
            fx_ok(dt),
        ensures
            final(self)@ == steered(old(self)@, target, jitter@, dt),
            final(self)@.wf(),
    {
        let ghost before = self@;
        let n = self.nodes.len();
        let toward: Option<Vec2> = match target {
            Some(t) => Some(v_scale(v_scale(normalize_or_zero(v_sub(t, self.center)), MOTILITY), dt)),
            None => None,
        };
        let mut i: usize = 0;
        while i < n
            invariant
                before.wf(),
                jitter_ok(before, jitter@),
                fx_ok(dt),
                n == before.nodes.len(),
                0 <= i <= n,
                self@.nodes.len() == n,
                self@.springs == before.springs,
                self@.color == before.color,
                self@.center == before.center,
                self@.radius == before.radius,
                toward.is_some() <==> target.is_some(),
                toward.is_some() ==> vec_ok(toward.unwrap()),
                toward.is_some() ==> toward.unwrap() == steer_push(before, target, jitter@, dt, 0),
                forall|k: int|
                    0 <= k < i ==> #[trigger] self@.nodes[k] == steered(before, target, jitter@, dt).nodes[k],
                forall|k: int| 0 <= k < i ==> node_ok(#[trigger] self@.nodes[k]),
                forall|k: int| i <= k < n ==> #[trigger] self@.nodes[k] == before.nodes[k],
            decreases n - i,
        {
            let mut nd = self.nodes[i];
            assert(node_ok(before.nodes[i as int]));
            let push = match toward {
                Some(p) => p,
                None => v_scale(jitter[i], dt),
            };
            nd.vel = v_add(nd.vel, push);
            self.nodes.set(i, nd);
            i = i + 1;
        }
        assert(self@.nodes =~= steered(before, target, jitter@, dt).nodes);
    }
}

/// The simulated world: bodies, food, and the ambient temperature that drives food growth.
#[derive(Debug)]
pub struct World {
    pub amoebas: Vec<Amoeba>,
    pub foods: Vec<Food>,
    pub temperature: i64,
    pub width: i64,
    pub height: i64,
}

/// What a world is, as a value.
pub struct WorldView {
    pub amoebas: Seq<AmoebaView>,
    pub foods: Seq<Food>,
    pub temperature: i64,
    pub width: i64,
    pub height: i64,
}

impl View for World {
    type V = WorldView;

    open spec fn view(&self) -> WorldView {
        WorldView {
            amoebas: views(self.amoebas@),
            foods: self.foods@,
            temperature: self.temperature,
            width: self.width,
            height: self.height,
        }
    }
}

impl WorldView {
    pub open spec fn wf(self) -> bool {
        &&& 0 < self.width <= FX_MAX
        &&& 0 < self.height <= FX_MAX
        &&& fx_ok(self.temperature)
        &&& forall|i: int| 0 <= i < self.amoebas.len() ==> (#[trigger] self.amoebas[i]).wf()
        &&& foods_ok(self.foods)
    }
}

/// Bodies after feeding on the first `k` food items, each eaten by the first body in reach,
/// and the indices of the items eaten.
pub open spec fn feed_state(bodies: Seq<AmoebaView>, foods: Seq<Food>, k: int) -> (Seq<AmoebaView>, Seq<usize>)
    decreases k,
{
    if k <= 0 {
        (bodies, Seq::empty())
    } else {
        let prev = feed_state(bodies, foods, k - 1);
        let j = first_reach(prev.0, foods[k - 1].pos, prev.0.len() as int);
        if j >= 0 {
            (prev.0.update(j, grown(prev.0[j])), prev.1.push((k - 1) as usize))
        } else {
            prev
        }
    }
}

/// A body after one tick of movement: steering toward the nearest food, then physics.
pub open spec fn moved(a: AmoebaView, foods: Seq<Food>, jitter: Seq<Vec2>, dt: i64, w: i64, h: i64) -> AmoebaView {
    let k = nearest_upto(a.center, foods, foods.len() as int);
    let target = if k >= 0 {
        Some(foods[k].pos)
    } else {
        None
    };
    stepped(steered(a, target, jitter, dt), dt, w, h)
}

/// The world after one tick of `dt`, given the per-node jitter draws, the spawn draw `sample`
/// and the position `spawn_pos` drawn for a new food item.
pub open spec fn spec_tick(w: WorldView, jitter: Seq<Seq<Vec2>>, sample: i64, spawn_pos: Vec2, dt: i64) -> WorldView {
    let bodies = Seq::new(
        w.amoebas.len(),
        |b: int| moved(w.amoebas[b], w.foods, jitter[b], dt, w.width, w.height),
    );
    let fed = feed_state(bodies, w.foods, w.foods.len() as int);
    let left = kept(w.foods, index_set(fed.1, 0), w.foods.len() as int);
    let foods = if sample < spec_spawn_probability(w.temperature as int) {
        left.push(Food { pos: spawn_pos, value: FOOD_VALUE, color: green() })
    } else {
        left
    };
    WorldView { amoebas: fed.0, foods, ..w }
}

impl World {
    /// A world of the given size holding one body at its centre, built along `dirs`, and no
    /// food, at the default temperature.
    pub fn new(width: i64, height: i64, dirs: &Vec<Vec2>) -> (r: World)
        requires
            0 < width <= FX_MAX,
            0 < height <= FX_MAX,
            3 <= dirs@.len() <= MAX_NODES,
            forall|i: int| 0 <= i < dirs@.len() ==> vec_ok(#[trigger] dirs@[i]),
        ensures
            r@.wf(),
            r@.amoebas.len() == 1,
            is_fresh(r@.amoebas[0], (width / 2) as i64, (height / 2) as i64, SEED_RADIUS, dirs@, blue()),
            r@.foods.len() == 0,
            r@.temperature == DEFAULT_TEMPERATURE,
            r@.width == width,
            r@.height == height,
    {
        let mut amoebas: Vec<Amoeba> = Vec::new();
        amoebas.push(
            Amoeba::new(width / 2, height / 2, SEED_RADIUS, dirs, Color { r: 0, g: 121, b: 241, a: 255 }),
        );
        let r = World { amoebas, foods: Vec::new(), temperature: DEFAULT_TEMPERATURE, width, height };
        assert(r@.amoebas[0] == r.amoebas@[0]@);
        r
    }

    /// Lets every body eat: each food item, in order, goes to the first body that reaches it,
    /// which grows. Returns the indices of the items eaten, in increasing order.
    pub fn feed(&mut self) -> (eaten: Vec<usize>)
        requires
            old(self)@.wf(),
        ensures
            final(self)@.wf(),
            final(self)@.amoebas == feed_state(old(self)@.amoebas, old(self)@.foods, old(self)@.foods.len() as int).0,
            eaten@ == feed_state(old(self)@.amoebas, old(self)@.foods, old(self)@.foods.len() as int).1,
            final(self)@.foods == old(self)@.foods,
            final(self)@.temperature == old(self)@.temperature,
            final(self)@.width == old(self)@.width,
            final(self)@.height == old(self)@.height,
            strictly_increasing(eaten@),
            forall|m: int| 0 <= m < eaten@.len() ==> #[trigger] eaten@[m] < old(self)@.foods.len(),
    {
        let ghost before = self@;
        let n = self.foods.len();
        let mut eaten: Vec<usize> = Vec::new();
        let mut f: usize = 0;
        while f < n
            invariant
                before.wf(),
                self@.wf(),
                n == before.foods.len(),
                0 <= f <= n,
                self@.foods == before.foods,
                self@.temperature == before.temperature,
                self@.width == before.width,
                self@.height == before.height,
                self@.amoebas == feed_state(before.amoebas, before.foods, f as int).0,
                eaten@ == feed_state(before.amoebas, before.foods, f as int).1,
                strictly_increasing(eaten@),
                forall|m: int| 0 <= m < eaten@.len() ==> #[trigger] eaten@[m] < f,
            decreases n - f,
        {
            let p = self.foods[f].pos;
            assert(vec_ok(before.foods[f as int].pos));
            assert forall|i: int| 0 <= i < self.amoebas@.len() implies (#[trigger] self.amoebas@[i])@.wf() by {
                assert(self@.amoebas[i] == self.amoebas@[i]@);
            }
            match first_eater(&self.amoebas, p) {
                Some(j) => {
                    assert(self@.amoebas[j as int] == self.amoebas@[j as int]@);
                    self.amoebas[j].grow();
                    assert(self@.amoebas =~= feed_state(before.amoebas, before.foods, f + 1).0);
                    eaten.push(f);
                },
                None => {},
            }
            f = f + 1;
        }
        eaten
    }

    /// Advances the world by `dt`. Every body steers toward its nearest food (or by its
    /// `jitter` draws when there is none) and moves; then each food item goes to the first body
    /// in reach, eaten items are removed, and a food item appears at `spawn_pos` when the
    /// uniform draw `sample` falls below the spawn probability at the current temperature.
    pub fn update(&mut self, dt: i64, jitter: &Vec<Vec<Vec2>>, sample: i64, spawn_pos: Vec2)
        requires
            old(self)@.wf(),
            0 <= dt <= FX_MAX,
            jitter@.len() == old(self)@.amoebas.len(),
            forall|b: int| 0 <= b < jitter@.len() ==> jitter_ok(old(self)@.amoebas[b], (#[trigger] jitter@[b])@),
            vec_ok(spawn_pos),
        ensures
            final(self)@ == spec_tick(old(self)@, jitter@.map_values(|v: Vec<Vec2>| v@), sample, spawn_pos, dt),
            final(self)@.wf(),
    {
        let ghost before = self@;
        let ghost jit = jitter@.map_values(|v: Vec<Vec2>| v@);
        let n = self.amoebas.len();
        let w = self.width;
        let h = self.height;
        let mut b: usize = 0;
        while b < n
            invariant
                before.wf(),
                self@.wf(),
                0 <= dt <= FX_MAX,
                n == before.amoebas.len(),
                jitter@.len() == n,
                jit == jitter@.map_values(|v: Vec<Vec2>| v@),
                forall|k: int| 0 <= k < jitter@.len() ==> jitter_ok(before.amoebas[k], (#[trigger] jitter@[k])@),
                w == before.width,
                h == before.height,
                0 <= b <= n,
                self@.amoebas.len() == n,
                self@.foods == before.foods,
                self@.temperature == before.temperature,
                self@.width == before.width,
                self@.height == before.height,
                forall|k: int|
                    0 <= k < b ==> #[trigger] self@.amoebas[k] == moved(before.amoebas[k], before.foods, jit[k], dt, w, h),
                forall|k: int| b <= k < n ==> #[trigger] self@.amoebas[k] == before.amoebas[k],
            decreases n - b,
        {
            assert(self@.amoebas[b as int] == self.amoebas@[b as int]@);
            let c = self.amoebas[b].center;
            let target: Option<Vec2> = match nearest_food(c, &self.foods) {
                Some(k) => Some(self.foods[k].pos),
                None => None,
            };
            assert(jitter_ok(before.amoebas[b as int], jitter@[b as int]@));
            let ghost prev = self.amoebas@;
            let ghost pv = self@.amoebas;
            self.amoebas[b].steer(target, &jitter[b], dt);
            self.amoebas[b].update(dt, w, h);
            assert(self.amoebas@.len() == prev.len());
            assert forall|k: int| 0 <= k < n && k != b implies self.amoebas@[k] == prev[k] by {}
            assert(self@.amoebas =~= pv.update(b as int, self.amoebas@[b as int]@));
            assert(jit[b as int] == jitter@[b as int]@);
            assert forall|k: int| 0 <= k < n implies (#[trigger] self@.amoebas[k]).wf() by {
                if k != b {
                    assert(self@.amoebas[k] == pv[k]);
                }
            }
            b = b + 1;
        }
        let ghost bodies = self@.amoebas;
        assert(bodies =~= Seq::new(n as nat, |k: int| moved(before.amoebas[k], before.foods, jit[k], dt, w, h)));
        let eaten = self.feed();
        remove_indices(&mut self.foods, &eaten);
        proof {
            lemma_kept_ok(before.foods, index_set(eaten@, 0), before.foods.len() as int);
        }
        if should_spawn(self.temperature, sample) {
            self.foods.push(Food::new(spawn_pos.x, spawn_pos.y));
        }
        assert(self@.foods =~= spec_tick(before, jit, sample, spawn_pos, dt).foods);
    }
}

/// What is kept of well-formed food stays well-formed.
pub proof fn lemma_kept_ok(s: Seq<Food>, gone: Set<int>, k: int)
    requires
        foods_ok(s),
        k <= s.len(),
    ensures
        foods_ok(kept(s, gone, k)),
    decreases k,
{
    if k > 0 {
        lemma_kept_ok(s, gone, k - 1);
        assert(vec_ok(s[k - 1].pos));
    }
}

/// The body found for food at `p`, if any, is the first of the first `k` that reaches it.
pub proof fn lemma_first_reach_is_first(bodies: Seq<AmoebaView>, p: Vec2, k: int)
    requires
        0 <= k <= bodies.len(),
    ensures
        -1 <= first_reach(bodies, p, k) < k,
        first_reach(bodies, p, k) >= 0 ==> in_reach(bodies[first_reach(bodies, p, k)], p),
        forall|l: int| 0 <= l < k && (first_reach(bodies, p, k) < 0 || l < first_reach(bodies, p, k)) ==> !in_reach(
            #[trigger] bodies[l],
            p,
        ),
    decreases k,
{
    if k > 0 {
        lemma_first_reach_is_first(bodies, p, k - 1);
    }
}

/// Feeding keeps the number of bodies and lists each eaten index once, in increasing order.
pub proof fn lemma_feed_state_indices(bodies: Seq<AmoebaView>, foods: Seq<Food>, k: int)
    requires
        0 <= k <= foods.len() <= usize::MAX,
    ensures
        feed_state(bodies, foods, k).0.len() == bodies.len(),
        strictly_increasing(feed_state(bodies, foods, k).1),
        forall|m: int| 0 <= m < feed_state(bodies, foods, k).1.len() ==> #[trigger] feed_state(bodies, foods, k).1[m] < k,
    decreases k,
{
    if k > 0 {
        lemma_feed_state_indices(bodies, foods, k - 1);
        let prev = feed_state(bodies, foods, k - 1);
        lemma_first_reach_is_first(prev.0, foods[k - 1].pos, prev.0.len() as int);
        let e = prev.1;
        let e2 = e.push((k - 1) as usize);
        assert forall|x: int, y: int| 0 <= x < y < e2.len() implies e2[x] < e2[y] by {
            if y == e.len() {
                assert(e2[y] == (k - 1) as usize);
                assert(e2[x] == e[x]);
                assert(e[x] < k - 1);
            } else {
                assert(e[x] < e[y]);
            }
        }
    }
}

/// Eating grows the eater alone: its radius gains `GROWTH_STEP` (exactly, short of the largest
/// representable value), every rest length of its springs is scaled by `GROWTH`, and every
/// other body stays as it was.
pub proof fn lemma_eating_grows_only_eater(bodies: Seq<AmoebaView>, foods: Seq<Food>, k: int)
    requires
        0 < k <= foods.len(),
    ensures
        ({
            let prev = feed_state(bodies, foods, k - 1).0;
            let next = feed_state(bodies, foods, k).0;
            let j = first_reach(prev, foods[k - 1].pos, prev.len() as int);
            &&& next.len() == prev.len()
            &&& j >= 0 ==> {
                &&& next[j].radius == sat(prev[j].radius + GROWTH_STEP)
                &&& 0 <= prev[j].radius && prev[j].radius + GROWTH_STEP <= FX_MAX ==> next[j].radius
                    == prev[j].radius + GROWTH_STEP
                &&& next[j].springs.len() == prev[j].springs.len()
                &&& forall|i: int|
                    0 <= i < next[j].springs.len() ==> (#[trigger] next[j].springs[i]).rest_length
                        == spec_fx_mul(prev[j].springs[i].rest_length as int, GROWTH as int)
                        && next[j].springs[i].stiffness == prev[j].springs[i].stiffness
                        && next[j].springs[i].damping == prev[j].springs[i].damping
                &&& next[j].nodes == prev[j].nodes
            }
            &&& forall|i: int| 0 <= i < prev.len() && i != j ==> #[trigger] next[i] == prev[i]
        }),
{
    let prev = feed_state(bodies, foods, k - 1).0;
    let next = feed_state(bodies, foods, k).0;
    lemma_first_reach_is_first(prev, foods[k - 1].pos, prev.len() as int);
    let j = first_reach(prev, foods[k - 1].pos, prev.len() as int);
    if j >= 0 {
        assert(next[j] == grown(prev[j]));
        assert(next[j].springs.len() == prev[j].springs.len());
        assert(next[j].radius == sat(prev[j].radius + GROWTH_STEP));
        assert(next[j].nodes == prev[j].nodes);
        assert forall|i: int| 0 <= i < next[j].springs.len() implies (#[trigger] next[j].springs[i]).rest_length
            == spec_fx_mul(prev[j].springs[i].rest_length as int, GROWTH as int) by {
            assert(next[j].springs[i] == grown_spring(prev[j].springs[i]));
        }
    }
    assert forall|i: int| 0 <= i < prev.len() && i != j implies #[trigger] next[i] == prev[i] by {}
}

/// Food that several bodies reach goes to the first of them alone, and its index is listed
/// as eaten exactly once.
pub proof fn lemma_first_match_wins(bodies: Seq<AmoebaView>, foods: Seq<Food>, k: int, a: int, b: int)
    requires
        0 < k <= foods.len() <= usize::MAX,
        0 <= a < b < bodies.len(),
        in_reach(feed_state(bodies, foods, k - 1).0[a], foods[k - 1].pos),
        in_reach(feed_state(bodies, foods, k - 1).0[b], foods[k - 1].pos),
    ensures
        feed_state(bodies, foods, k).1 == feed_state(bodies, foods, k - 1).1.push((k - 1) as usize),
        feed_state(bodies, foods, k).0[b] == feed_state(bodies, foods, k - 1).0[b],
        forall|m: int|
            0 <= m < feed_state(bodies, foods, k - 1).1.len() ==> #[trigger] feed_state(bodies, foods, k - 1).1[m] != k - 1,
{
    lemma_feed_state_indices(bodies, foods, k - 1);
    let prev = feed_state(bodies, foods, k - 1).0;
    lemma_first_reach_is_first(prev, foods[k - 1].pos, prev.len() as int);
}

/// In a tick with one food item, the first body that reaches it after moving, and that body
/// alone, grows: its radius gains `GROWTH_STEP` and every rest length of its springs is scaled
/// by `GROWTH`, the springs being otherwise as they were; every other body keeps its radius
/// and springs.
pub proof fn lemma_tick_grows_only_first_eater(
    w: WorldView,
    jitter: Seq<Seq<Vec2>>,
    sample: i64,
    spawn_pos: Vec2,
    dt: i64,
)
    requires
        w.foods.len() == 1,
    ensures
        ({
            let bodies = Seq::new(
                w.amoebas.len(),
                |b: int| moved(w.amoebas[b], w.foods, jitter[b], dt, w.width, w.height),
            );
            let j = first_reach(bodies, w.foods[0].pos, bodies.len() as int);
            let t = spec_tick(w, jitter, sample, spawn_pos, dt);
            &&& t.amoebas.len() == w.amoebas.len()
            &&& j >= 0 ==> {
                &&& t.amoebas[j].radius == sat(w.amoebas[j].radius + GROWTH_STEP)
                &&& t.amoebas[j].springs.len() == w.amoebas[j].springs.len()
                &&& forall|i: int|
                    0 <= i < t.amoebas[j].springs.len() ==> #[trigger] t.amoebas[j].springs[i] == (Spring {
                        rest_length: spec_fx_mul(w.amoebas[j].springs[i].rest_length as int, GROWTH as int) as i64,
                        ..w.amoebas[j].springs[i]
                    })
            }
            &&& forall|i: int|
                0 <= i < w.amoebas.len() && i != j ==> (#[trigger] t.amoebas[i]).radius == w.amoebas[i].radius
                    && t.amoebas[i].springs == w.amoebas[i].springs
        }),
{
    let bodies = Seq::new(
        w.amoebas.len(),
        |b: int| moved(w.amoebas[b], w.foods, jitter[b], dt, w.width, w.height),
    );
    lemma_eating_grows_only_eater(bodies, w.foods, 1);
    lemma_first_reach_is_first(bodies, w.foods[0].pos, bodies.len() as int);
    let j = first_reach(bodies, w.foods[0].pos, bodies.len() as int);
    let t = spec_tick(w, jitter, sample, spawn_pos, dt);
    assert(feed_state(bodies, w.foods, 0).0 == bodies);
    if j >= 0 {
        assert(bodies[j].radius == w.amoebas[j].radius);
        assert(bodies[j].springs == w.amoebas[j].springs);
        assert(t.amoebas[j] == grown(bodies[j]));
    }
    assert forall|i: int| 0 <= i < w.amoebas.len() && i != j implies (#[trigger] t.amoebas[i]).radius
        == w.amoebas[i].radius && t.amoebas[i].springs == w.amoebas[i].springs by {
        assert(bodies[i].radius == w.amoebas[i].radius);
        assert(bodies[i].springs == w.amoebas[i].springs);
    }
}

} // verus!

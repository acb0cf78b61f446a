use vstd::prelude::*;

use rand::Rng;
use rand_pcg::Lcg128Xsl64;

use crate::agent::AgentMessage;
use crate::consts::{AGENT_RADIUS, CELL_SIZE, DISTANCE_TO_TARGET, GRID_HALF_SIZE};
use crate::geometry::{sq_dist, squared_distance, Vec2};

verus! {

#[verifier::external_type_specification]
#[verifier::external_body]
pub struct ExLcg128Xsl64(Lcg128Xsl64);

/// Relies on `rand_pcg::Lcg128Xsl64::new`: a generator seeded by a state and a stream.
pub assume_specification[ Lcg128Xsl64::new ](state: u128, stream: u128) -> Lcg128Xsl64;

/// Relies on `rand::Rng::gen_range`: a value drawn from `low..high`, which must
/// not be empty (it panics on an empty range).
#[verifier::external_body]
fn draw_between(rng: &mut Lcg128Xsl64, low: i32, high: i32) -> (r: i32)
    requires
        low < high,
    ensures
        low <= r < high,
{
    rng.gen_range(low..high)
}

/// A target point that one agent is expected to travel to.
#[derive(Clone, Copy, Debug)]
pub struct Mission {
    pub id: usize,
    pub agent: Option<usize>,
    pub target: Vec2,
}

/// A batch of newly created missions, as announced to every agent.
#[derive(Clone, Debug)]
pub struct MissionMessage(pub Vec<Mission>);

/// `p` lies inside the square `[-half, half]^2`, farther than `margin` from each
/// of its four edges.
pub open spec fn inset(p: Vec2, half: int, margin: int) -> bool {
    &&& p.x + half > margin
    &&& half - p.x > margin
    &&& p.y + half > margin
    &&& half - p.y > margin
}

/// `batch` holds new missions: consecutive ids from `first`, no claimant, and
/// targets inset by `margin` in the square `[-half, half]^2`.
pub open spec fn fresh_batch(batch: Seq<Mission>, first: nat, half: int, margin: int) -> bool {
    forall|k: int|
        0 <= k < batch.len() ==> #[trigger] batch[k].id == first + k && batch[k].agent is None
            && inset(batch[k].target, half, margin)
}

/// The mission that the reporting agent completes with this state: its own,
/// where it is closer than `DISTANCE_TO_TARGET` to the target.
pub open spec fn completed_mission(msg: AgentMessage) -> Option<usize> {
    match msg.mission {
        Some(m) => if sq_dist(msg.kinematics.p, m.target) < DISTANCE_TO_TARGET * DISTANCE_TO_TARGET {
            Some(m.id)
        } else {
            None
        },
        None => None,
    }
}

/// The missions of `ms` whose id is not `id`.
pub open spec fn without_id(ms: Seq<Mission>, id: usize) -> Seq<Mission> {
    ms.filter(|m: Mission| m.id != id)
}

pub(crate) proof fn lemma_without_id_push(ms: Seq<Mission>, m: Mission, id: usize)
    ensures
        without_id(ms.push(m), id) == if m.id != id {
            without_id(ms, id).push(m)
        } else {
            without_id(ms, id)
        },
{
    reveal(Seq::filter);
    assert(ms.push(m).drop_last() == ms);
}

/// Ids strictly increase along `ms`.
pub open spec fn ids_increasing(ms: Seq<Mission>) -> bool {
    forall|a: int, b: int| 0 <= a < b < ms.len() ==> ms[a].id < ms[b].id
}

/// No two missions in `ms` have the same id.
pub open spec fn mission_ids_unique(ms: Seq<Mission>) -> bool {
    forall|i: int, j: int| 0 <= i < j < ms.len() ==> ms[i].id != ms[j].id
}

/// Some mission of `ms` has id `id`.
pub open spec fn has_id(ms: Seq<Mission>, id: usize) -> bool {
    exists|i: int| 0 <= i < ms.len() && #[trigger] ms[i].id == id
}

/// How many missions `replenish` creates for `n` agents on a pool of `len`:
/// none where there are already `2 * n`, else one batch of `n` where that is
/// enough, else two.
pub open spec fn batch_count(len: nat, n: nat) -> nat {
    if len >= 2 * n {
        0
    } else if len + n >= 2 * n {
        n
    } else {
        2 * n
    }
}

/// What `without_id` keeps comes from `ms` and has another id.
pub(crate) proof fn lemma_without_id_members(ms: Seq<Mission>, id: usize)
    ensures
        forall|k: int|
            0 <= k < without_id(ms, id).len() ==> #[trigger] without_id(ms, id)[k].id != id
                && ms.contains(without_id(ms, id)[k]),
    decreases ms.len(),
{
    if ms.len() == 0 {
        reveal(Seq::filter);
    } else {
        let pre = ms.drop_last();
        let m = ms.last();
        lemma_without_id_members(pre, id);
        assert(ms == pre.push(m));
        lemma_without_id_push(pre, m, id);
        let r = without_id(ms, id);
        let rp = without_id(pre, id);
        assert forall|k: int| 0 <= k < r.len() implies #[trigger] r[k].id != id && ms.contains(r[k]) by {
            if k < rp.len() {
                assert(r[k] == rp[k]);
                assert(pre.contains(rp[k]));
                let j = choose|j: int| 0 <= j < pre.len() && pre[j] == rp[k];
                assert(ms[j] == pre[j]);
            } else {
                assert(r[k] == m);
                assert(ms[ms.len() - 1] == m);
            }
        }
    }
}

/// `without_id` keeps ids increasing and unique, and removes exactly one
/// mission where the id occurs once, none where it does not occur.
pub(crate) proof fn lemma_without_id_shape(ms: Seq<Mission>, id: usize)
    ensures
        ids_increasing(ms) ==> ids_increasing(without_id(ms, id)),
        mission_ids_unique(ms) ==> mission_ids_unique(without_id(ms, id)),
        mission_ids_unique(ms) && has_id(ms, id) ==> without_id(ms, id).len() == ms.len() - 1,
        !has_id(ms, id) ==> without_id(ms, id) == ms,
    decreases ms.len(),
{
    if ms.len() == 0 {
        reveal(Seq::filter);
    } else {
        let pre = ms.drop_last();
        let m = ms.last();
        let n = ms.len() - 1;
        assert(ms == pre.push(m));
        assert(forall|i: int| 0 <= i < n ==> pre[i] == ms[i]);
        lemma_without_id_shape(pre, id);
        lemma_without_id_members(pre, id);
        lemma_without_id_push(pre, m, id);
        let r = without_id(ms, id);
        let rp = without_id(pre, id);
        if m.id != id {
            assert(r == rp.push(m));
            if ids_increasing(ms) {
                assert forall|a: int, b: int| 0 <= a < b < r.len() implies r[a].id < r[b].id by {
                    if b == rp.len() {
                        assert(pre.contains(rp[a]));
                        let j = choose|j: int| 0 <= j < pre.len() && pre[j] == rp[a];
                        assert(ms[j].id < ms[n].id);
                    } else {
                        assert(r[a] == rp[a] && r[b] == rp[b]);
                    }
                }
            }
            if mission_ids_unique(ms) {
                assert forall|a: int, b: int| 0 <= a < b < r.len() implies r[a].id != r[b].id by {
                    if b == rp.len() {
                        assert(pre.contains(rp[a]));
                        let j = choose|j: int| 0 <= j < pre.len() && pre[j] == rp[a];
                        assert(ms[j].id != ms[n].id);
                    } else {
                        assert(r[a] == rp[a] && r[b] == rp[b]);
                    }
                }
            }
            if has_id(ms, id) {
                let i = choose|i: int| 0 <= i < ms.len() && #[trigger] ms[i].id == id;
                assert(pre[i].id == id);
            }
            if !has_id(ms, id) {
                assert forall|i: int| 0 <= i < pre.len() implies #[trigger] pre[i].id != id by {
                    assert(ms[i].id != id);
                }
            }
        } else {
            assert(r == rp);
            if mission_ids_unique(ms) {
                assert forall|i: int| 0 <= i < pre.len() implies #[trigger] pre[i].id != id by {
                    assert(ms[i].id != ms[n].id);
                }
                assert(rp == pre);
            }
            if ids_increasing(ms) {
                assert(ids_increasing(pre));
            }
        }
    }
}

/// The missions of `ms` whose id is not `id`, in order.
pub(crate) fn without_mission(ms: &Vec<Mission>, id: usize) -> (r: Vec<Mission>)
    ensures
        r@ == without_id(ms@, id),
{
    let mut kept: Vec<Mission> = Vec::new();
    let mut i: usize = 0;
    while i < ms.len()
        invariant
            i <= ms.len(),
            kept@ == without_id(ms@.subrange(0, i as int), id),
        decreases ms.len() - i,
    {
        let m = ms[i];
        proof {
            assert(ms@.subrange(0, i + 1) == ms@.subrange(0, i as int).push(m));
            lemma_without_id_push(ms@.subrange(0, i as int), m, id);
        }
        if m.id != id {
            kept.push(m);
        }
        i = i + 1;
    }
    proof {
        assert(ms@.subrange(0, ms@.len() as int) == ms@);
    }
    kept
}

proof fn lemma_without_id_twice(ms: Seq<Mission>, id: usize)
    ensures
        without_id(without_id(ms, id), id) == without_id(ms, id),
    decreases ms.len(),
{
    if ms.len() == 0 {
        reveal(Seq::filter);
    } else {
        let pre = ms.drop_last();
        let m = ms.last();
        lemma_without_id_twice(pre, id);
        assert(ms == pre.push(m));
        lemma_without_id_push(pre, m, id);
        if m.id != id {
            lemma_without_id_push(without_id(pre, id), m, id);
        }
    }
}

/// Retiring a mission id twice in succession leaves the pool as retiring it once.
pub proof fn lemma_retire_idempotent(s0: MissionManager, s1: MissionManager, s2: MissionManager, id: usize)
    requires
        s1.retires(s0, id),
        s2.retires(s1, id),
    ensures
        s2.pool() == s1.pool(),
        s2.next_id() == s1.next_id(),
        s2.generator() == s1.generator(),
        s2.half_size() == s1.half_size(),
        s2.margin() == s1.margin(),
{
    lemma_without_id_twice(s0.pool(), id);
}

/// The pool of outstanding missions. Every mission gets a fresh id, larger
/// than those before it, and a target drawn from the interior of the grid.
pub struct MissionManager {
    missions: Vec<Mission>,
    id_counter: usize,
    rng: Lcg128Xsl64,
    half_size: i32,
    margin: i32,
}

impl MissionManager {
    /// The outstanding missions, oldest first.
    pub closed spec fn pool(self) -> Seq<Mission> {
        self.missions@
    }

    /// The id that the next mission will get.
    pub closed spec fn next_id(self) -> nat {
        self.id_counter as nat
    }

    /// The grid spans `[-half_size, half_size]` on both axes.
    pub closed spec fn half_size(self) -> int {
        self.half_size as int
    }

    /// How far a target stays from the grid's edges.
    pub closed spec fn margin(self) -> int {
        self.margin as int
    }

    /// The random source that targets are drawn from.
    pub closed spec fn generator(self) -> Lcg128Xsl64 {
        self.rng
    }

    /// The pool's invariant: ids strictly increase and stay below the next id,
    /// targets are inset, and an inset target exists.
    pub closed spec fn wf(self) -> bool {
        &&& 0 <= self.margin
        &&& 2 * self.margin + 1 < 2 * self.half_size
        &&& forall|i: int, j: int|
            0 <= i < j < self.missions@.len() ==> self.missions@[i].id < self.missions@[j].id
        &&& forall|i: int|
            0 <= i < self.missions@.len() ==> #[trigger] self.missions@[i].id < self.id_counter
        &&& forall|i: int|
            0 <= i < self.missions@.len() ==> inset(
                #[trigger] self.missions@[i].target,
                self.half_size as int,
                self.margin as int,
            )
    }

    /// `self` is `before` with mission `id` retired: no mission of that id is
    /// left, and nothing else changed.
    pub open spec fn retires(self, before: Self, id: usize) -> bool {
        &&& self.pool() == without_id(before.pool(), id)
        &&& self.next_id() == before.next_id()
        &&& self.generator() == before.generator()
        &&& self.half_size() == before.half_size()
        &&& self.margin() == before.margin()
    }

    /// The ids in the pool strictly increase and are all below the next id,
    /// so a new mission's id is never in the pool.
    pub open spec fn ids_valid(self) -> bool {
        &&& ids_increasing(self.pool())
        &&& forall|k: int| 0 <= k < self.pool().len() ==> #[trigger] self.pool()[k].id < self.next_id()
    }

    /// An empty pool over the standard grid, with targets kept an agent radius
    /// and a cell away from the edges, and a fixed seed.
    pub fn new() -> (r: Self)
        ensures
            r.wf(),
            r.ids_valid(),
            r.pool().len() == 0,
            r.next_id() == 0,
            r.half_size() == GRID_HALF_SIZE,
            r.margin() == CELL_SIZE + AGENT_RADIUS,
    {
        Self::with_area(GRID_HALF_SIZE, CELL_SIZE + AGENT_RADIUS, 0)
    }

    /// An empty pool over the grid `[-half_size, half_size]^2` whose targets
    /// stay farther than `margin` from the edges, drawn from a generator seeded
    /// with `seed`.
    pub fn with_area(half_size: i32, margin: i32, seed: u128) -> (r: Self)
        requires
            0 <= margin,
            2 * margin + 1 < 2 * half_size,
        ensures
            r.wf(),
            r.ids_valid(),
            r.pool().len() == 0,
            r.next_id() == 0,
            r.half_size() == half_size,
            r.margin() == margin,
    {
        MissionManager {
            missions: Vec::new(),
            id_counter: 0,
            rng: Lcg128Xsl64::new(seed, 0),
            half_size,
            margin,
        }
    }

    /// Create `n` missions with consecutive fresh ids and inset targets, add
    /// them to the pool and return them.
    pub fn create_new_missions(&mut self, n: usize) -> (r: Vec<Mission>)
        requires
            old(self).wf(),
            old(self).next_id() + n <= usize::MAX,
        ensures
            final(self).wf(),
            final(self).ids_valid(),
            r@.len() == n,
            final(self).pool() == old(self).pool() + r@,
            final(self).next_id() == old(self).next_id() + n,
            final(self).half_size() == old(self).half_size(),
            final(self).margin() == old(self).margin(),
            fresh_batch(r@, old(self).next_id(), old(self).half_size(), old(self).margin()),
    {
        let ghost old_pool = self.missions@;
        let ghost first = self.id_counter;
        let low = self.margin - self.half_size + 1;
        let high = self.half_size - self.margin;
        let mut out: Vec<Mission> = Vec::new();
        let mut i: usize = 0;
        while i < n
            invariant
                i <= n,
                low == self.margin - self.half_size + 1,
                high == self.half_size - self.margin,
                low < high,
                self.id_counter == first + i,
                first + n <= usize::MAX,
                out@.len() == i,
                self.missions@ == old_pool + out@,
                0 <= self.margin,
                2 * self.margin + 1 < 2 * self.half_size,
                self.half_size == old(self).half_size,
                self.margin == old(self).margin,
                forall|a: int, b: int|
                    0 <= a < b < old_pool.len() ==> old_pool[a].id < old_pool[b].id,
                forall|a: int| 0 <= a < old_pool.len() ==> #[trigger] old_pool[a].id < first,
                forall|a: int|
                    0 <= a < old_pool.len() ==> inset(
                        #[trigger] old_pool[a].target,
                        self.half_size as int,
                        self.margin as int,
                    ),
                forall|k: int|
                    0 <= k < i ==> #[trigger] out@[k].id == first + k && out@[k].agent is None
                        && inset(out@[k].target, self.half_size as int, self.margin as int),
            decreases n - i,
        {
            let x = draw_between(&mut self.rng, low, high);
            let y = draw_between(&mut self.rng, low, high);
            let mission = Mission { id: self.id_counter, agent: None, target: Vec2 { x, y } };
            self.missions.push(mission);
            out.push(mission);
            assert(out@[i as int] == mission);
            assert(inset(mission.target, self.half_size as int, self.margin as int));
            self.id_counter = self.id_counter + 1;
            i = i + 1;
        }
        proof {
            let ms = self.missions@;
            assert forall|a: int, b: int| 0 <= a < b < ms.len() implies ms[a].id < ms[b].id by {
                if b >= old_pool.len() {
                    assert(ms[b] == out@[b - old_pool.len()]);
                    if a >= old_pool.len() {
                        assert(ms[a] == out@[a - old_pool.len()]);
                    } else {
                        assert(ms[a] == old_pool[a]);
                    }
                } else {
                    assert(ms[a] == old_pool[a] && ms[b] == old_pool[b]);
                }
            }
            assert forall|a: int| 0 <= a < ms.len() implies ms[a].id < self.id_counter
                && inset(ms[a].target, self.half_size as int, self.margin as int) by {
                if a >= old_pool.len() {
                    assert(ms[a] == out@[a - old_pool.len()]);
                } else {
                    assert(ms[a] == old_pool[a]);
                }
            }
            assert(self.wf());
        }
        out
    }

    /// Retire mission `id`. Retiring an id that is not in the pool changes nothing.
    pub fn finish_mission(&mut self, id: usize)
        requires
            old(self).wf(),
        ensures
            final(self).wf(),
            final(self).ids_valid(),
            final(self).retires(*old(self), id),
            has_id(old(self).pool(), id) ==> final(self).pool().len() == old(self).pool().len() - 1,
            !has_id(old(self).pool(), id) ==> final(self).pool() == old(self).pool(),
    {
        let ghost before = self.missions@;
        let kept = without_mission(&self.missions, id);
        proof {
            lemma_without_id_members(before, id);
            lemma_without_id_shape(before, id);
            assert forall|k: int| 0 <= k < kept@.len() implies #[trigger] kept@[k].id < self.id_counter
                && inset(kept@[k].target, self.half_size as int, self.margin as int) by {
                assert(before.contains(kept@[k]));
            }
            assert(mission_ids_unique(before));
        }
        self.missions = kept;
    }

    /// Keep the pool stocked for `agent_count` agents: while fewer than twice
    /// that many missions are outstanding, create a batch of `agent_count`.
    /// Returns the missions created, in order.
    pub fn replenish(&mut self, agent_count: usize) -> (r: Vec<Mission>)
        requires
            old(self).wf(),
            old(self).next_id() + 2 * agent_count <= usize::MAX,
        ensures
            final(self).wf(),
            final(self).ids_valid(),
            final(self).pool() == old(self).pool() + r@,
            final(self).pool().len() >= 2 * agent_count,
            r@.len() == batch_count(old(self).pool().len(), agent_count as nat),
            final(self).next_id() == old(self).next_id() + r@.len(),
            final(self).half_size() == old(self).half_size(),
            final(self).margin() == old(self).margin(),
            fresh_batch(r@, old(self).next_id(), old(self).half_size(), old(self).margin()),
    {
        let ghost start = self.missions@;
        let ghost first = self.id_counter as int;
        let ghost area = (self.half_size(), self.margin());
        let mut out: Vec<Mission> = Vec::new();
        let mut batches: usize = 0;
        let wanted: usize = 2 * agent_count;
        while self.missions.len() < wanted
            invariant
                wanted == 2 * agent_count,
                batches > 0 ==> start.len() < 2 * agent_count,
                batches == 2 ==> start.len() + agent_count < 2 * agent_count,
                self.wf(),
                first + 2 * agent_count <= usize::MAX,
                self.missions@ == start + out@,
                out@.len() == batches * agent_count,
                batches <= 2,
                batches == 2 ==> self.missions@.len() >= 2 * agent_count,
                self.id_counter == first + out@.len(),
                self.half_size == old(self).half_size,
                self.margin == old(self).margin,
                forall|k: int|
                    0 <= k < out@.len() ==> #[trigger] out@[k].id == first + k && out@[k].agent
                        is None && inset(out@[k].target, self.half_size as int, self.margin as int),
            decreases 2 - batches,
        {
            assert(batches < 2 && agent_count > 0) by (nonlinear_arith)
                requires
                    start.len() + batches * agent_count < 2 * agent_count,
                    batches <= 2,
            ;
            assert(first + out@.len() + agent_count <= usize::MAX) by (nonlinear_arith)
                requires
                    first + 2 * agent_count <= usize::MAX,
                    out@.len() == batches * agent_count,
                    batches < 2,
            ;
            let ghost before = out@;
            let batch = self.create_new_missions(agent_count);
            let mut j: usize = 0;
            while j < batch.len()
                invariant
                    j <= batch.len(),
                    out@ == before + batch@.subrange(0, j as int),
                decreases batch.len() - j,
            {
                out.push(batch[j]);
                proof {
                    assert(batch@.subrange(0, j + 1) == batch@.subrange(0, j as int).push(batch@[j as int]));
                }
                j = j + 1;
            }
            proof {
                assert(batch@.subrange(0, batch@.len() as int) == batch@);
                assert forall|k: int| 0 <= k < out@.len() implies #[trigger] out@[k].id == first + k
                    && out@[k].agent is None && inset(
                    out@[k].target,
                    self.half_size as int,
                    self.margin as int,
                ) by {
                    if k >= before.len() {
                        let i = k - before.len();
                        assert(out@[k] == batch@[i]);
                        assert(batch@[i].id == first + before.len() + i);
                    } else {
                        assert(out@[k] == before[k]);
                        assert(before[k].id == first + k);
                    }
                }
                assert((batches + 1) * agent_count == batches * agent_count + agent_count)
                    by (nonlinear_arith);
            }
            batches = batches + 1;
            proof {
                if batches == 2 {
                    assert(self.missions@.len() >= 2 * agent_count);
                }
            }
        }
        proof {
            if batches == 1 {
                assert(out@.len() == agent_count) by (nonlinear_arith)
                    requires
                        out@.len() == batches * agent_count,
                        batches == 1,
                ;
            } else if batches == 2 {
                assert(out@.len() == 2 * agent_count) by (nonlinear_arith)
                    requires
                        out@.len() == batches * agent_count,
                        batches == 2,
                ;
            }
            assert(out@.len() == batch_count(start.len(), agent_count as nat));
            assert(out@.len() <= 2 * agent_count) by (nonlinear_arith)
                requires
                    out@.len() == batches * agent_count,
                    batches <= 2,
            ;
            assert(area == (old(self).half_size(), old(self).margin()));
            assert(first == old(self).next_id());
            assert(fresh_batch(out@, first as nat, area.0, area.1));
        }
        out
    }

    /// The id that the next mission will get.
    pub fn next_mission_id(&self) -> (r: usize)
        ensures
            r == self.next_id(),
    {
        self.id_counter
    }

    /// The number of outstanding missions.
    pub fn number_missions_left(&self) -> (r: usize)
        ensures
            r == self.pool().len(),
    {
        self.missions.len()
    }

    /// Where the reporting agent has come within the completion radius of its
    /// mission's target, retire that mission and return its id.
    pub fn mission_to_finish(&mut self, agent_message: &AgentMessage) -> (r: Option<usize>)
        requires
            old(self).wf(),
        ensures
            final(self).wf(),
            final(self).ids_valid(),
            r == completed_mission(*agent_message),
            r is Some ==> final(self).retires(*old(self), r->Some_0),
            r is None ==> *final(self) == *old(self),
    {
        match &agent_message.mission {
            Some(m) => {
                let d = squared_distance(agent_message.kinematics.p, m.target);
                let radius: u128 = DISTANCE_TO_TARGET as u128;
                assert(radius == 5_000_000);
                if d < radius * radius {
                    self.finish_mission(m.id);
                    Some(m.id)
                } else {
                    None
                }
            },
            None => None,
        }
    }
}

} // verus!

use vstd::prelude::*;

use crate::consts::{MAX_ACCEL, RETENTION_DEN, RETENTION_NUM};
use crate::geometry::{sq_dist, squared_distance, Vec2};
use crate::kinematics::{pulls_toward, step_fits, stepped, steering_component, Kinematics};
use crate::missions::{
    has_id, lemma_without_id_shape, mission_ids_unique, without_id, without_mission, Mission, MissionMessage,
};

verus! {

/// What the relay delivers to an agent.
#[derive(Clone, Debug)]
pub enum Message {
    /// Newly created missions.
    Mission(MissionMessage),
    /// The mission with this id was completed and retired from the pool.
    MissionFinished(usize),
    /// The latest state of another agent.
    Agent(AgentMessage),
}

/// A snapshot of one agent's state, as broadcast to its peers.
#[derive(Clone, Copy, Debug)]
pub struct AgentMessage {
    pub id: usize,
    pub kinematics: Kinematics,
    pub mission: Option<Mission>,
}

/// An agent: its identity, its physical state and the mission it claims.
#[derive(Debug)]
pub struct Agent {
    pub id: usize,
    pub kinematics: Kinematics,
    pub mission: Option<Mission>,
}

/// What one agent knows of the others and of the missions, built from the
/// messages it received: the last state of each peer, and each known mission,
/// one entry per id, in the order they were first heard of.
pub struct LocalView {
    pub agents: Vec<AgentMessage>,
    pub missions: Vec<Mission>,
}

/// No two states in `s` have the same agent id.
pub open spec fn agent_ids_unique(s: Seq<AgentMessage>) -> bool {
    forall|i: int, j: int| 0 <= i < j < s.len() ==> s[i].id != s[j].id
}

/// `s` with `msg` recorded: it replaces the state of the same agent, or is
/// appended if that agent is new.
pub open spec fn with_agent(s: Seq<AgentMessage>, msg: AgentMessage) -> Seq<AgentMessage> {
    if exists|i: int| 0 <= i < s.len() && #[trigger] s[i].id == msg.id {
        s.map_values(|a: AgentMessage| if a.id == msg.id { msg } else { a })
    } else {
        s.push(msg)
    }
}

/// `s` with `m` recorded: it replaces the mission of the same id, or is
/// appended if its id is new.
pub open spec fn with_mission(s: Seq<Mission>, m: Mission) -> Seq<Mission> {
    if exists|i: int| 0 <= i < s.len() && #[trigger] s[i].id == m.id {
        s.map_values(|x: Mission| if x.id == m.id { m } else { x })
    } else {
        s.push(m)
    }
}

/// `s` with each mission of `batch` recorded in turn.
pub open spec fn with_missions(s: Seq<Mission>, batch: Seq<Mission>) -> Seq<Mission>
    decreases batch.len(),
{
    if batch.len() == 0 {
        s
    } else {
        with_mission(with_missions(s, batch.drop_last()), batch.last())
    }
}

/// `s` claims the mission with id `mid`.
pub open spec fn claims(s: AgentMessage, mid: usize) -> bool {
    s.mission is Some && s.mission->Some_0.id == mid
}

/// Some peer other than `self_id` claims the mission with id `mid`.
pub open spec fn claimed_by_peer(peers: Seq<AgentMessage>, self_id: usize, mid: usize) -> bool {
    exists|j: int| 0 <= j < peers.len() && peers[j].id != self_id && #[trigger] claims(peers[j], mid)
}

/// Some mission of `missions` is claimed by no peer of `self_id`.
pub open spec fn has_unclaimed(missions: Seq<Mission>, peers: Seq<AgentMessage>, self_id: usize) -> bool {
    exists|j: int| 0 <= j < missions.len() && !claimed_by_peer(peers, self_id, #[trigger] missions[j].id)
}

/// `missions[i]` is unclaimed by the peers, no unclaimed mission is nearer to `p`,
/// and every unclaimed mission before it is strictly farther (the first nearest wins).
pub open spec fn is_nearest_unclaimed(
    p: Vec2,
    missions: Seq<Mission>,
    peers: Seq<AgentMessage>,
    self_id: usize,
    i: int,
) -> bool {
    &&& 0 <= i < missions.len()
    &&& !claimed_by_peer(peers, self_id, missions[i].id)
    &&& forall|j: int|
        0 <= j < missions.len() && !claimed_by_peer(peers, self_id, #[trigger] missions[j].id)
            ==> sq_dist(p, missions[i].target) <= sq_dist(p, missions[j].target)
    &&& forall|j: int|
        0 <= j < i && !claimed_by_peer(peers, self_id, #[trigger] missions[j].id)
            ==> sq_dist(p, missions[i].target) < sq_dist(p, missions[j].target)
}

/// The first unclaimed mission nearest to `p`, if there is an unclaimed one.
pub open spec fn nearest_unclaimed(
    p: Vec2,
    missions: Seq<Mission>,
    peers: Seq<AgentMessage>,
    self_id: usize,
) -> Option<Mission> {
    if has_unclaimed(missions, peers, self_id) {
        Some(missions[choose|i: int| is_nearest_unclaimed(p, missions, peers, self_id, i)])
    } else {
        None
    }
}

/// Acquisition: the nearest unclaimed mission, unless the current one is at
/// least as near (a held mission is only replaced by a strictly nearer one).
pub open spec fn acquired(
    id: usize,
    p: Vec2,
    current: Option<Mission>,
    peers: Seq<AgentMessage>,
    missions: Seq<Mission>,
) -> Option<Mission> {
    match nearest_unclaimed(p, missions, peers, id) {
        None => current,
        Some(c) => match current {
            Some(m) => if sq_dist(p, c.target) < sq_dist(p, m.target) {
                Some(c)
            } else {
                current
            },
            None => Some(c),
        },
    }
}

/// `missions[i]` is the first mission of the cache with id `mid`.
pub open spec fn is_first_with_id(missions: Seq<Mission>, mid: usize, i: int) -> bool {
    &&& 0 <= i < missions.len()
    &&& missions[i].id == mid
    &&& forall|j: int| 0 <= j < i ==> #[trigger] missions[j].id != mid
}

/// The cached record of mission `mid`, if the cache holds one.
pub open spec fn cached_mission(missions: Seq<Mission>, mid: usize) -> Option<Mission> {
    if has_id(missions, mid) {
        Some(missions[choose|i: int| is_first_with_id(missions, mid, i)])
    } else {
        None
    }
}

/// The agent `id` at `p` loses its claim on mission `mid`, whose cached
/// target is `t`: some peer claims the same mission and is strictly nearer to `t`.
pub open spec fn concedes(id: usize, p: Vec2, mid: usize, t: Vec2, peers: Seq<AgentMessage>) -> bool {
    exists|j: int|
        0 <= j < peers.len() && peers[j].id != id && #[trigger] claims(peers[j], mid) && sq_dist(
            peers[j].kinematics.p,
            t,
        ) < sq_dist(p, t)
}

/// Conflict resolution: an agent that concedes drops its mission and takes
/// the nearest mission that no peer claims, or none; otherwise nothing
/// changes. A claim on a mission that the cache no longer holds is a stale
/// reference and stays as it is.
pub open spec fn resolved(
    id: usize,
    p: Vec2,
    current: Option<Mission>,
    peers: Seq<AgentMessage>,
    missions: Seq<Mission>,
) -> Option<Mission> {
    match current {
        Some(m) => match cached_mission(missions, m.id) {
            Some(c) => if concedes(id, p, m.id, c.target, peers) {
                nearest_unclaimed(p, missions, peers, id)
            } else {
                current
            },
            None => current,
        },
        None => None,
    }
}

/// The acceleration an agent commands: the steering command toward its
/// mission's target, or zero without a mission.
pub open spec fn commanded_acceleration(k: Kinematics, mission: Option<Mission>, dt: int) -> Vec2 {
    match mission {
        Some(m) => Vec2 {
            x: steering_component(k.p.x as int, k.v.x as int, m.target.x as int, dt, MAX_ACCEL as int) as i32,
            y: steering_component(k.p.y as int, k.v.y as int, m.target.y as int, dt, MAX_ACCEL as int) as i32,
        },
        None => Vec2 { x: 0, y: 0 },
    }
}

/// At most one index is the first nearest unclaimed mission.
proof fn lemma_nearest_unique(
    p: Vec2,
    missions: Seq<Mission>,
    peers: Seq<AgentMessage>,
    self_id: usize,
    i: int,
)
    requires
        is_nearest_unclaimed(p, missions, peers, self_id, i),
    ensures
        nearest_unclaimed(p, missions, peers, self_id) == Some(missions[i]),
{
    assert(has_unclaimed(missions, peers, self_id)) by {
        assert(!claimed_by_peer(peers, self_id, missions[i].id));
    }
    let k = choose|k: int| is_nearest_unclaimed(p, missions, peers, self_id, k);
    assert(is_nearest_unclaimed(p, missions, peers, self_id, k));
    if k < i {
        assert(!claimed_by_peer(peers, self_id, missions[k].id));
    } else if i < k {
        assert(!claimed_by_peer(peers, self_id, missions[i].id));
    }
}

/// Where some mission is unclaimed, a first nearest unclaimed one exists.
proof fn lemma_nearest_exists(p: Vec2, missions: Seq<Mission>, peers: Seq<AgentMessage>, self_id: usize)
    requires
        has_unclaimed(missions, peers, self_id),
    ensures
        exists|i: int| is_nearest_unclaimed(p, missions, peers, self_id, i),
    decreases missions.len(),
{
    let n = missions.len() - 1;
    let pre = missions.drop_last();
    assert(forall|j: int| 0 <= j < n ==> pre[j] == missions[j]);
    if has_unclaimed(pre, peers, self_id) {
        lemma_nearest_exists(p, pre, peers, self_id);
        let i = choose|i: int| is_nearest_unclaimed(p, pre, peers, self_id, i);
        if claimed_by_peer(peers, self_id, missions[n].id) || sq_dist(p, missions[i].target) <= sq_dist(
            p,
            missions[n].target,
        ) {
            assert forall|j: int|
                0 <= j < missions.len() && !claimed_by_peer(peers, self_id, #[trigger] missions[j].id)
                    implies sq_dist(p, missions[i].target) <= sq_dist(p, missions[j].target) by {
                if j < n {
                    assert(!claimed_by_peer(peers, self_id, pre[j].id));
                }
            }
            assert forall|j: int|
                0 <= j < i && !claimed_by_peer(peers, self_id, #[trigger] missions[j].id)
                    implies sq_dist(p, missions[i].target) < sq_dist(p, missions[j].target) by {
                assert(!claimed_by_peer(peers, self_id, pre[j].id));
            }
            assert(is_nearest_unclaimed(p, missions, peers, self_id, i));
        } else {
            assert forall|j: int|
                0 <= j < missions.len() && !claimed_by_peer(peers, self_id, #[trigger] missions[j].id)
                    implies sq_dist(p, missions[n].target) <= sq_dist(p, missions[j].target) by {
                if j < n {
                    assert(!claimed_by_peer(peers, self_id, pre[j].id));
                }
            }
            assert forall|j: int|
                0 <= j < n && !claimed_by_peer(peers, self_id, #[trigger] missions[j].id)
                    implies sq_dist(p, missions[n].target) < sq_dist(p, missions[j].target) by {
                assert(!claimed_by_peer(peers, self_id, pre[j].id));
            }
            assert(is_nearest_unclaimed(p, missions, peers, self_id, n));
        }
    } else {
        let w = choose|j: int| 0 <= j < missions.len() && !claimed_by_peer(peers, self_id, #[trigger] missions[j].id);
        if w < n {
            assert(!claimed_by_peer(peers, self_id, pre[w].id));
        }
        assert forall|j: int|
            0 <= j < n implies claimed_by_peer(peers, self_id, #[trigger] missions[j].id) by {
            assert(pre[j] == missions[j]);
            if !claimed_by_peer(peers, self_id, pre[j].id) {
                assert(has_unclaimed(pre, peers, self_id));
            }
        }
        assert(is_nearest_unclaimed(p, missions, peers, self_id, n));
    }
}

/// What the nearest unclaimed mission is, when there is one.
proof fn lemma_nearest_unclaimed_spec(p: Vec2, missions: Seq<Mission>, peers: Seq<AgentMessage>, self_id: usize)
    ensures
        nearest_unclaimed(p, missions, peers, self_id) is Some ==> exists|i: int|
            is_nearest_unclaimed(p, missions, peers, self_id, i) && nearest_unclaimed(
                p,
                missions,
                peers,
                self_id,
            ) == Some(#[trigger] missions[i]),
{
    if has_unclaimed(missions, peers, self_id) {
        lemma_nearest_exists(p, missions, peers, self_id);
        let i = choose|i: int| is_nearest_unclaimed(p, missions, peers, self_id, i);
        assert(is_nearest_unclaimed(p, missions, peers, self_id, i));
    }
}

/// An agent that concedes mission `m` ends up without it: it holds no mission,
/// or one whose id differs from `m`'s.
proof fn lemma_concession_drops_claim(
    id: usize,
    p: Vec2,
    m: Mission,
    peers: Seq<AgentMessage>,
    missions: Seq<Mission>,
)
    requires
        cached_mission(missions, m.id) is Some,
        concedes(id, p, m.id, cached_mission(missions, m.id)->Some_0.target, peers),
    ensures
        ({
            let r = resolved(id, p, Some(m), peers, missions);
            r is None || r->Some_0.id != m.id
        }),
{
    lemma_nearest_unclaimed_spec(p, missions, peers, id);
    let t = cached_mission(missions, m.id)->Some_0.target;
    let j = choose|j: int|
        0 <= j < peers.len() && peers[j].id != id && #[trigger] claims(peers[j], m.id) && sq_dist(
            peers[j].kinematics.p,
            t,
        ) < sq_dist(p, t);
    assert(claimed_by_peer(peers, id, m.id));
}

/// Of two agents that claim the same mission, held in the mission cache with
/// target `t`, the one strictly farther from `t` gives the claim up when it
/// next resolves conflicts, while the nearer one keeps its claim; at equal
/// distances both keep their claims. A mission that the cache does not hold
/// causes no change.
pub proof fn lemma_conflict_resolution(a: AgentMessage, b: AgentMessage, missions: Seq<Mission>)
    requires
        a.id != b.id,
        a.mission is Some,
        b.mission is Some,
        a.mission->Some_0.id == b.mission->Some_0.id,
    ensures
        ({
            let mid = a.mission->Some_0.id;
            let ra = resolved(a.id, a.kinematics.p, a.mission, seq![b], missions);
            let rb = resolved(b.id, b.kinematics.p, b.mission, seq![a], missions);
            match cached_mission(missions, mid) {
                Some(c) => {
                    let da = sq_dist(a.kinematics.p, c.target);
                    let db = sq_dist(b.kinematics.p, c.target);
                    &&& da > db ==> (ra is None || ra->Some_0.id != mid) && rb == b.mission
                    &&& da < db ==> ra == a.mission && (rb is None || rb->Some_0.id != mid)
                    &&& da == db ==> ra == a.mission && rb == b.mission
                },
                None => ra == a.mission && rb == b.mission,
            }
        }),
{
    let m = a.mission->Some_0;
    let n = b.mission->Some_0;
    let pa = seq![b];
    let pb = seq![a];
    assert(pa[0] == b && pb[0] == a);
    assert(claims(pa[0], m.id) && claims(pb[0], n.id));
    if cached_mission(missions, m.id) is Some {
        let t = cached_mission(missions, m.id)->Some_0.target;
        let da = sq_dist(a.kinematics.p, t);
        let db = sq_dist(b.kinematics.p, t);
        if da > db {
            assert(concedes(a.id, a.kinematics.p, m.id, t, pa));
            lemma_concession_drops_claim(a.id, a.kinematics.p, m, pa, missions);
        }
        if da < db {
            assert(concedes(b.id, b.kinematics.p, n.id, t, pb));
            lemma_concession_drops_claim(b.id, b.kinematics.p, n, pb, missions);
        }
    }
}

/// In a snapshot of agent states where conflict resolution changes nobody's
/// claim (a fixed point), each mission is claimed by at most one agent,
/// provided that agent ids are distinct, every claimed mission is in the
/// mission cache, and no two claimants of one mission are at the same
/// distance from its cached target (at equal distances both keep it).
pub proof fn lemma_fixed_point_single_claim(snapshot: Seq<AgentMessage>, missions: Seq<Mission>)
    requires
        forall|i: int, j: int|
            0 <= i < snapshot.len() && 0 <= j < snapshot.len() && i != j ==> snapshot[i].id
                != snapshot[j].id,
        forall|i: int|
            0 <= i < snapshot.len() && #[trigger] snapshot[i].mission is Some ==> has_id(
                missions,
                snapshot[i].mission->Some_0.id,
            ),
        forall|i: int, j: int|
            0 <= i < snapshot.len() && 0 <= j < snapshot.len() && i != j && snapshot[i].mission is Some
                && snapshot[j].mission is Some && snapshot[i].mission->Some_0.id
                == snapshot[j].mission->Some_0.id ==> sq_dist(
                snapshot[i].kinematics.p,
                cached_mission(missions, snapshot[i].mission->Some_0.id)->Some_0.target,
            ) != sq_dist(
                snapshot[j].kinematics.p,
                cached_mission(missions, snapshot[i].mission->Some_0.id)->Some_0.target,
            ),
        forall|i: int|
            0 <= i < snapshot.len() ==> resolved(
                #[trigger] snapshot[i].id,
                snapshot[i].kinematics.p,
                snapshot[i].mission,
                snapshot,
                missions,
            ) == snapshot[i].mission,
    ensures
        forall|i: int, j: int|
            0 <= i < snapshot.len() && 0 <= j < snapshot.len() && i != j && snapshot[i].mission is Some
                && snapshot[j].mission is Some ==> snapshot[i].mission->Some_0.id
                != snapshot[j].mission->Some_0.id,
{
    assert forall|i: int, j: int|
        0 <= i < snapshot.len() && 0 <= j < snapshot.len() && i != j && snapshot[i].mission is Some
            && snapshot[j].mission is Some implies snapshot[i].mission->Some_0.id
            != snapshot[j].mission->Some_0.id by {
        if snapshot[i].mission->Some_0.id == snapshot[j].mission->Some_0.id {
            let si = snapshot[i];
            let sj = snapshot[j];
            let m = si.mission->Some_0;
            let n = sj.mission->Some_0;
            assert(has_id(missions, m.id));
            let t = cached_mission(missions, m.id)->Some_0.target;
            assert(claims(snapshot[i], m.id) && claims(snapshot[j], m.id));
            if sq_dist(sj.kinematics.p, t) < sq_dist(si.kinematics.p, t) {
                assert(concedes(si.id, si.kinematics.p, m.id, t, snapshot));
                lemma_concession_drops_claim(si.id, si.kinematics.p, m, snapshot, missions);
                assert(resolved(snapshot[i].id, si.kinematics.p, si.mission, snapshot, missions)
                    == si.mission);
            } else {
                assert(concedes(sj.id, sj.kinematics.p, n.id, t, snapshot));
                lemma_concession_drops_claim(sj.id, sj.kinematics.p, n, snapshot, missions);
                assert(resolved(snapshot[j].id, sj.kinematics.p, sj.mission, snapshot, missions)
                    == sj.mission);
            }
        }
    }
}

/// The cached record of mission `mid`: the first with that id.
fn find_cached(missions: &Vec<Mission>, mid: usize) -> (r: Option<Mission>)
    ensures
        r == cached_mission(missions@, mid),
{
    let mut i: usize = 0;
    while i < missions.len()
        invariant
            i <= missions.len(),
            forall|j: int| 0 <= j < i ==> #[trigger] missions@[j].id != mid,
        decreases missions.len() - i,
    {
        if missions[i].id == mid {
            proof {
                assert(is_first_with_id(missions@, mid, i as int));
                assert(has_id(missions@, mid));
                let k = choose|k: int| is_first_with_id(missions@, mid, k);
                if k < i {
                } else if k > i {
                    assert(missions@[i as int].id != mid);
                }
            }
            return Some(missions[i]);
        }
        i = i + 1;
    }
    None
}

/// Whether a peer other than `self_id` claims mission `mid`.
fn peer_claims(peers: &Vec<AgentMessage>, self_id: usize, mid: usize) -> (r: bool)
    ensures
        r == claimed_by_peer(peers@, self_id, mid),
{
    let mut j: usize = 0;
    while j < peers.len()
        invariant
            j <= peers.len(),
            forall|k: int| 0 <= k < j ==> !(peers@[k].id != self_id && #[trigger] claims(peers@[k], mid)),
        decreases peers.len() - j,
    {
        let s = &peers[j];
        if s.id != self_id {
            if let Some(m) = &s.mission {
                if m.id == mid {
                    assert(claims(peers@[j as int], mid));
                    return true;
                }
            }
        }
        j += 1;
    }
    false
}

/// Index of the first mission nearest to `p` among those no peer claims.
fn find_nearest_unclaimed(
    p: Vec2,
    missions: &Vec<Mission>,
    peers: &Vec<AgentMessage>,
    self_id: usize,
) -> (r: Option<usize>)
    ensures
        r is None <==> !has_unclaimed(missions@, peers@, self_id),
        r is Some ==> is_nearest_unclaimed(p, missions@, peers@, self_id, r->Some_0 as int),
{
    let mut best: Option<usize> = None;
    let mut best_d: u128 = 0;
    let mut i: usize = 0;
    while i < missions.len()
        invariant
            i <= missions.len(),
            best is None ==> forall|j: int|
                0 <= j < i ==> claimed_by_peer(peers@, self_id, #[trigger] missions@[j].id),
            best is Some ==> {
                let b = best->Some_0 as int;
                &&& 0 <= b < i
                &&& best_d == sq_dist(p, missions@[b].target)
                &&& !claimed_by_peer(peers@, self_id, missions@[b].id)
                &&& forall|j: int|
                    0 <= j < i && !claimed_by_peer(peers@, self_id, #[trigger] missions@[j].id)
                        ==> best_d <= sq_dist(p, missions@[j].target)
                &&& forall|j: int|
                    0 <= j < b && !claimed_by_peer(peers@, self_id, #[trigger] missions@[j].id)
                        ==> best_d < sq_dist(p, missions@[j].target)
            },
        decreases missions.len() - i,
    {
        let m = missions[i];
        if !peer_claims(peers, self_id, m.id) {
            let d = squared_distance(p, m.target);
            if best.is_none() || d < best_d {
                best = Some(i);
                best_d = d;
            }
        }
        i += 1;
    }
    if best.is_none() {
        assert(!has_unclaimed(missions@, peers@, self_id));
    } else {
        assert(has_unclaimed(missions@, peers@, self_id)) by {
            let b = best->Some_0 as int;
            assert(!claimed_by_peer(peers@, self_id, missions@[b].id));
        }
    }
    best
}

/// The first nearest unclaimed mission, as a value.
fn nearest_unclaimed_mission(
    p: Vec2,
    missions: &Vec<Mission>,
    peers: &Vec<AgentMessage>,
    self_id: usize,
) -> (r: Option<Mission>)
    ensures
        r == nearest_unclaimed(p, missions@, peers@, self_id),
{
    match find_nearest_unclaimed(p, missions, peers, self_id) {
        Some(i) => {
            proof {
                lemma_nearest_unique(p, missions@, peers@, self_id, i as int);
            }
            Some(missions[i])
        },
        None => None,
    }
}

impl Agent {
    /// Acquisition: claim the nearest mission that no cached peer claims,
    /// keeping the current mission unless the candidate is strictly nearer.
    pub fn get_new_mission(&mut self, missions: &Vec<Mission>, agents: &Vec<AgentMessage>)
        ensures
            final(self).id == old(self).id,
            final(self).kinematics == old(self).kinematics,
            final(self).mission == acquired(
                old(self).id,
                old(self).kinematics.p,
                old(self).mission,
                agents@,
                missions@,
            ),
    {
        let p = self.kinematics.p;
        let best = nearest_unclaimed_mission(p, missions, agents, self.id);
        if let Some(c) = best {
            let replace = match &self.mission {
                Some(m) => squared_distance(p, c.target) < squared_distance(p, m.target),
                None => true,
            };
            if replace {
                self.mission = Some(c);
            }
        }
    }

    /// This agent's state, as broadcast to its peers.
    pub fn state(&self) -> (r: AgentMessage)
        ensures
            r.id == self.id,
            r.kinematics == self.kinematics,
            r.mission == self.mission,
    {
        AgentMessage { id: self.id, kinematics: self.kinematics, mission: self.mission }
    }

    /// Advance this agent's motion by `dt` ticks under the standard drag.
    /// Returns `false`, changing nothing, where the new position or velocity
    /// would not fit in an `i32`.
    pub fn simulate_motion(&mut self, dt: u32) -> (ok: bool)
        ensures
            final(self).id == old(self).id,
            final(self).mission == old(self).mission,
            ok == step_fits(old(self).kinematics, dt as nat, RETENTION_NUM as int, RETENTION_DEN as int),
            ok ==> final(self).kinematics == stepped(
                old(self).kinematics,
                dt as nat,
                RETENTION_NUM as int,
                RETENTION_DEN as int,
            ),
            !ok ==> final(self).kinematics == old(self).kinematics,
    {
        self.kinematics.integrate(dt, RETENTION_NUM, RETENTION_DEN)
    }

    /// Take in one message: record a peer's state or new missions, or forget a
    /// finished mission, dropping it if it is this agent's own.
    pub fn handle_message(&mut self, view: &mut LocalView, message: Message)
        requires
            old(view).wf(),
        ensures
            final(view).wf(),
            final(self).id == old(self).id,
            final(self).kinematics == old(self).kinematics,
            match message {
                Message::Mission(batch) => final(view).missions@ == with_missions(
                    old(view).missions@,
                    batch.0@,
                ) && final(view).agents@ == old(view).agents@ && final(self).mission == old(
                    self,
                ).mission,
                Message::Agent(msg) => final(view).agents@ == with_agent(old(view).agents@, msg)
                    && final(view).missions@ == old(view).missions@ && final(self).mission == old(
                    self,
                ).mission,
                Message::MissionFinished(id) => final(view).missions@ == without_id(
                    old(view).missions@,
                    id,
                ) && final(view).agents@ == old(view).agents@ && final(self).mission == if old(
                    self,
                ).mission is Some && old(self).mission->Some_0.id == id {
                    None
                } else {
                    old(self).mission
                },
            },
    {
        match message {
            Message::Mission(batch) => {
                view.record_missions(&batch.0);
            },
            Message::Agent(msg) => {
                view.record_agent(msg);
            },
            Message::MissionFinished(id) => {
                view.forget_mission(id);
                if let Some(m) = &self.mission {
                    if m.id == id {
                        self.mission = None;
                    }
                }
            },
        }
    }

    /// One decision: acquire a mission, resolve conflicting claims, then
    /// command the steering acceleration toward the mission's target (zero
    /// without a mission). Position and velocity are left to the integrator.
    pub fn decide(&mut self, view: &LocalView, dt: u32)
        requires
            dt >= 1,
        ensures
            ({
                let k = old(self).kinematics;
                let held = acquired(old(self).id, k.p, old(self).mission, view.agents@, view.missions@);
                let kept = resolved(old(self).id, k.p, held, view.agents@, view.missions@);
                &&& final(self).id == old(self).id
                &&& final(self).mission == kept
                &&& final(self).kinematics == Kinematics { a: commanded_acceleration(k, kept, dt as int), ..k }
            }),
            -MAX_ACCEL <= final(self).kinematics.a.x <= MAX_ACCEL,
            -MAX_ACCEL <= final(self).kinematics.a.y <= MAX_ACCEL,
            ({
                let k = old(self).kinematics;
                let a = final(self).kinematics.a;
                match final(self).mission {
                    Some(m) => pulls_toward(a.x as int, k.p.x as int, k.v.x as int, m.target.x as int)
                        && pulls_toward(a.y as int, k.p.y as int, k.v.y as int, m.target.y as int),
                    None => a.x == 0 && a.y == 0,
                }
            }),
    {
        self.get_new_mission(&view.missions, &view.agents);
        self.check_missions(&view.missions, &view.agents);
        let a = match &self.mission {
            Some(m) => self.kinematics.steering_acceleration(m.target, dt, MAX_ACCEL),
            None => Vec2::zeros(),
        };
        self.kinematics.a = a;
    }

    /// Conflict resolution: if a cached peer claims the same mission and is
    /// strictly nearer to its cached target, give the mission up and claim the
    /// nearest mission that no peer claims (or none). Equal distances keep the
    /// claim, and so does a mission that the cache no longer holds.
    pub fn check_missions(&mut self, missions: &Vec<Mission>, agents: &Vec<AgentMessage>)
        ensures
            final(self).id == old(self).id,
            final(self).kinematics == old(self).kinematics,
            final(self).mission == resolved(
                old(self).id,
                old(self).kinematics.p,
                old(self).mission,
                agents@,
                missions@,
            ),
    {
        let p = self.kinematics.p;
        if let Some(current) = self.mission {
            let cached = find_cached(missions, current.id);
            if cached.is_none() {
                return;
            }
            let t = cached.unwrap().target;
            let my_cost = squared_distance(p, t);
            let mut reassign = false;
            let mut j: usize = 0;
            while j < agents.len()
                invariant
                    j <= agents.len(),
                    my_cost == sq_dist(p, t),
                    reassign == exists|k: int|
                        0 <= k < j && agents@[k].id != self.id && #[trigger] claims(
                            agents@[k],
                            current.id,
                        ) && sq_dist(agents@[k].kinematics.p, t) < sq_dist(p, t),
                decreases agents.len() - j,
            {
                let a = &agents[j];
                if a.id != self.id {
                    if let Some(m) = &a.mission {
                        if m.id == current.id {
                            let other_cost = squared_distance(a.kinematics.p, t);
                            if other_cost < my_cost {
                                assert(claims(agents@[j as int], current.id));
                                reassign = true;
                            }
                        }
                    }
                }
                j += 1;
            }
            if reassign {
                self.mission = nearest_unclaimed_mission(p, missions, agents, self.id);
            }
        }
    }
}

} // verus!

verus! {

impl LocalView {
    /// The view's invariant: one entry per agent id and per mission id.
    pub open spec fn wf(&self) -> bool {
        agent_ids_unique(self.agents@) && mission_ids_unique(self.missions@)
    }

    /// An empty view.
    pub fn new() -> (r: Self)
        ensures
            r.wf(),
            r.agents@.len() == 0,
            r.missions@.len() == 0,
    {
        LocalView { agents: Vec::new(), missions: Vec::new() }
    }

    /// Record the latest state of an agent.
    pub fn record_agent(&mut self, msg: AgentMessage)
        requires
            old(self).wf(),
        ensures
            final(self).wf(),
            final(self).agents@ == with_agent(old(self).agents@, msg),
            final(self).missions@ == old(self).missions@,
    {
        let ghost before = self.agents@;
        let mut i: usize = 0;
        while i < self.agents.len()
            invariant
                i <= self.agents.len(),
                self.agents@ == before,
                old(self).wf(),
                before == old(self).agents@,
                self.missions@ == old(self).missions@,
                forall|k: int| 0 <= k < i ==> #[trigger] before[k].id != msg.id,
            decreases self.agents.len() - i,
        {
            if self.agents[i].id == msg.id {
                self.agents.set(i, msg);
                proof {
                    assert forall|k: int| 0 <= k < before.len() && k != i implies before[k].id != msg.id by {
                        if k > i {
                            assert(before[i as int].id != before[k].id);
                        }
                    }
                    assert(self.agents@ =~= before.map_values(
                        |a: AgentMessage| if a.id == msg.id { msg } else { a },
                    ));
                }
                return;
            }
            i = i + 1;
        }
        self.agents.push(msg);
    }

    /// Record one mission.
    fn record_mission(&mut self, m: Mission)
        requires
            old(self).wf(),
        ensures
            final(self).wf(),
            final(self).missions@ == with_mission(old(self).missions@, m),
            final(self).agents@ == old(self).agents@,
    {
        let ghost before = self.missions@;
        let mut i: usize = 0;
        while i < self.missions.len()
            invariant
                i <= self.missions.len(),
                self.missions@ == before,
                old(self).wf(),
                before == old(self).missions@,
                self.agents@ == old(self).agents@,
                forall|k: int| 0 <= k < i ==> #[trigger] before[k].id != m.id,
            decreases self.missions.len() - i,
        {
            if self.missions[i].id == m.id {
                self.missions.set(i, m);
                proof {
                    assert forall|k: int| 0 <= k < before.len() && k != i implies before[k].id != m.id by {
                        if k > i {
                            assert(before[i as int].id != before[k].id);
                        }
                    }
                    assert(self.missions@ =~= before.map_values(
                        |x: Mission| if x.id == m.id { m } else { x },
                    ));
                }
                return;
            }
            i = i + 1;
        }
        self.missions.push(m);
    }

    /// Record a batch of missions, in order.
    pub fn record_missions(&mut self, batch: &Vec<Mission>)
        requires
            old(self).wf(),
        ensures
            final(self).wf(),
            final(self).missions@ == with_missions(old(self).missions@, batch@),
            final(self).agents@ == old(self).agents@,
    {
        let ghost start = self.missions@;
        let mut j: usize = 0;
        while j < batch.len()
            invariant
                j <= batch.len(),
                self.wf(),
                self.missions@ == with_missions(start, batch@.subrange(0, j as int)),
                self.agents@ == old(self).agents@,
            decreases batch.len() - j,
        {
            proof {
                let next = batch@.subrange(0, j + 1);
                assert(next.drop_last() == batch@.subrange(0, j as int));
                assert(next.last() == batch@[j as int]);
            }
            self.record_mission(batch[j]);
            j = j + 1;
        }
        proof {
            assert(batch@.subrange(0, batch@.len() as int) == batch@);
        }
    }

    /// Forget the mission with this id; an unknown id changes nothing.
    pub fn forget_mission(&mut self, id: usize)
        requires
            old(self).wf(),
        ensures
            final(self).wf(),
            final(self).missions@ == without_id(old(self).missions@, id),
            final(self).agents@ == old(self).agents@,
    {
        let ghost before = self.missions@;
        let kept = without_mission(&self.missions, id);
        proof {
            lemma_without_id_shape(before, id);
        }
        self.missions = kept;
    }
}

} // verus!

use vstd::prelude::*;

use crate::agent::{Agent, AgentMessage, Message};
use crate::kinematics::Kinematics;
use crate::missions::{batch_count, completed_mission, fresh_batch, Mission, MissionManager, MissionMessage};

verus! {

/// `msg` announces exactly the missions `ms`.
pub open spec fn announces(msg: Message, ms: Seq<Mission>) -> bool {
    match msg {
        Message::Mission(batch) => batch.0@ == ms,
        _ => false,
    }
}

/// What subscriber `i` receives when agent `msg.id` reports its state: the
/// state itself unless `i` is the reporting agent, then the completion notice
/// of `finished`, if any, which goes to every subscriber.
pub open spec fn relayed_to(i: int, msg: AgentMessage, finished: Option<usize>) -> Seq<Message> {
    let state: Seq<Message> = if i != msg.id {
        seq![Message::Agent(msg)]
    } else {
        Seq::empty()
    };
    match finished {
        Some(id) => state.push(Message::MissionFinished(id)),
        None => state,
    }
}

/// The relay: one inbound queue per subscribing agent, indexed by the
/// agent's id. State reports go to every agent but the sender; mission
/// announcements and completion notices go to every agent.
pub struct ConnectionManager {
    mailboxes: Vec<Vec<Message>>,
}

/// A copy of a batch of missions.
fn copy_missions(ms: &Vec<Mission>) -> (r: Vec<Mission>)
    ensures
        r@ == ms@,
{
    let mut out: Vec<Mission> = Vec::new();
    let mut i: usize = 0;
    while i < ms.len()
        invariant
            i <= ms.len(),
            out@ == ms@.subrange(0, i as int),
        decreases ms.len() - i,
    {
        out.push(ms[i]);
        proof {
            assert(ms@.subrange(0, i + 1) == ms@.subrange(0, i as int).push(ms@[i as int]));
        }
        i = i + 1;
    }
    proof {
        assert(ms@.subrange(0, ms@.len() as int) == ms@);
    }
    out
}

impl ConnectionManager {
    /// The number of subscribers.
    pub closed spec fn subscribers(self) -> nat {
        self.mailboxes@.len()
    }

    /// The messages waiting for subscriber `i`, oldest first.
    pub closed spec fn inbox(self, i: int) -> Seq<Message> {
        self.mailboxes@[i]@
    }

    /// A relay with no subscribers.
    pub fn new() -> (r: Self)
        ensures
            r.subscribers() == 0,
    {
        ConnectionManager { mailboxes: Vec::new() }
    }

    /// Add a subscriber with an empty queue and return its index.
    pub fn create_new_handle(&mut self) -> (r: usize)
        requires
            old(self).subscribers() < usize::MAX,
        ensures
            r == old(self).subscribers(),
            final(self).subscribers() == old(self).subscribers() + 1,
            final(self).inbox(r as int) == Seq::<Message>::empty(),
            forall|i: int| 0 <= i < r ==> #[trigger] final(self).inbox(i) == old(self).inbox(i),
    {
        let r = self.mailboxes.len();
        self.mailboxes.push(Vec::new());
        proof {
            assert(self.mailboxes@[r as int]@ == Seq::<Message>::empty());
        }
        r
    }

    /// Announce a batch of new missions to every subscriber.
    pub fn send_new_missions(&mut self, new_missions: Vec<Mission>)
        ensures
            final(self).subscribers() == old(self).subscribers(),
            forall|i: int|
                0 <= i < old(self).subscribers() ==> #[trigger] final(self).inbox(i).len() == old(
                    self,
                ).inbox(i).len() + 1 && final(self).inbox(i).drop_last() == old(self).inbox(i)
                    && announces(final(self).inbox(i).last(), new_missions@),
    {
        let ghost before = self.mailboxes@;
        let n = self.mailboxes.len();
        let mut i: usize = 0;
        while i < n
            invariant
                n == before.len(),
                i <= n,
                self.mailboxes@.len() == n,
                forall|k: int| i <= k < n ==> #[trigger] self.mailboxes@[k] == before[k],
                forall|k: int|
                    0 <= k < i ==> #[trigger] self.mailboxes@[k]@.len() == before[k]@.len() + 1
                        && self.mailboxes@[k]@.drop_last() == before[k]@ && announces(
                        self.mailboxes@[k]@.last(),
                        new_missions@,
                    ),
            decreases n - i,
        {
            let mut inbox = self.mailboxes.remove(i);
            let ghost was = inbox@;
            inbox.push(Message::Mission(MissionMessage(copy_missions(&new_missions))));
            proof {
                assert(inbox@.drop_last() == was);
            }
            self.mailboxes.insert(i, inbox);
            i = i + 1;
        }
    }

    /// Pass an agent's state report on: the state to every subscriber but the
    /// reporting agent, then the completion notice of `finished`, if any, to
    /// every subscriber.
    pub fn relay_state(&mut self, msg: AgentMessage, finished: Option<usize>)
        ensures
            final(self).subscribers() == old(self).subscribers(),
            forall|i: int|
                0 <= i < old(self).subscribers() ==> #[trigger] final(self).inbox(i) == old(self).inbox(i)
                    + relayed_to(i, msg, finished),
    {
        let ghost before = self.mailboxes@;
        let n = self.mailboxes.len();
        let mut i: usize = 0;
        while i < n
            invariant
                n == before.len(),
                i <= n,
                self.mailboxes@.len() == n,
                forall|k: int| i <= k < n ==> #[trigger] self.mailboxes@[k] == before[k],
                forall|k: int|
                    0 <= k < i ==> #[trigger] self.mailboxes@[k]@ == before[k]@ + relayed_to(
                        k,
                        msg,
                        finished,
                    ),
            decreases n - i,
        {
            let mut inbox = self.mailboxes.remove(i);
            let ghost was = inbox@;
            if i != msg.id {
                inbox.push(Message::Agent(msg));
            }
            if let Some(id) = finished {
                inbox.push(Message::MissionFinished(id));
            }
            proof {
                assert(inbox@ =~= was + relayed_to(i as int, msg, finished));
            }
            self.mailboxes.insert(i, inbox);
            i = i + 1;
        }
    }

    /// Hand over the messages waiting for subscriber `id`, oldest first,
    /// leaving its queue empty.
    pub fn take_messages(&mut self, id: usize) -> (r: Vec<Message>)
        requires
            id < old(self).subscribers(),
        ensures
            r@ == old(self).inbox(id as int),
            final(self).subscribers() == old(self).subscribers(),
            final(self).inbox(id as int) == Seq::<Message>::empty(),
            forall|i: int|
                0 <= i < old(self).subscribers() && i != id ==> #[trigger] final(self).inbox(i) == old(
                    self,
                ).inbox(i),
    {
        let r = self.mailboxes.remove(id);
        self.mailboxes.insert(id, Vec::new());
        proof {
            assert(self.mailboxes@[id as int]@ == Seq::<Message>::empty());
        }
        r
    }
}

} // verus!

verus! {

/// The hub of the simulation: the mission pool, the relay, and the count of
/// agents, whose ids are handed out in order and index the relay's queues.
pub struct SystemManager {
    connection_manager: ConnectionManager,
    mission_manager: MissionManager,
    id_counter: usize,
}

impl SystemManager {
    /// The mission pool.
    pub closed spec fn pool_state(self) -> MissionManager {
        self.mission_manager
    }

    /// The relay.
    pub closed spec fn relay(self) -> ConnectionManager {
        self.connection_manager
    }

    /// The number of agents added so far.
    pub closed spec fn agent_count(self) -> nat {
        self.id_counter as nat
    }

    /// The invariant: a well-formed pool, and one relay queue per agent.
    pub closed spec fn wf(self) -> bool {
        &&& self.mission_manager.wf()
        &&& self.connection_manager.subscribers() == self.id_counter
    }

    /// A system with no agents and an empty pool over the standard grid.
    pub fn new() -> (r: Self)
        ensures
            r.wf(),
            r.agent_count() == 0,
            r.pool_state().pool().len() == 0,
            r.pool_state().next_id() == 0,
    {
        SystemManager {
            connection_manager: ConnectionManager::new(),
            mission_manager: MissionManager::new(),
            id_counter: 0,
        }
    }

    /// Add an agent with the given kinematics and no mission; it gets the
    /// next id and an empty relay queue.
    pub fn add_agent(&mut self, kinematics: Kinematics) -> (r: Agent)
        requires
            old(self).wf(),
            old(self).agent_count() < usize::MAX,
        ensures
            final(self).wf(),
            r.id == old(self).agent_count(),
            r.kinematics == kinematics,
            r.mission is None,
            final(self).agent_count() == old(self).agent_count() + 1,
            final(self).pool_state() == old(self).pool_state(),
            final(self).relay().inbox(r.id as int) == Seq::<Message>::empty(),
            forall|i: int|
                0 <= i < r.id ==> #[trigger] final(self).relay().inbox(i) == old(self).relay().inbox(i),
    {
        let id = self.connection_manager.create_new_handle();
        let agent = Agent { id: self.id_counter, kinematics, mission: None };
        self.id_counter = self.id_counter + 1;
        agent
    }

    /// Keep the pool stocked: while fewer than twice as many missions as agents
    /// are outstanding, create a batch of one mission per agent, and announce
    /// what was created to every agent. Nothing happens where the ids left
    /// could not cover two batches. Returns the number of missions created.
    pub fn top_up_missions(&mut self) -> (r: usize)
        requires
            old(self).wf(),
        ensures
            final(self).wf(),
            final(self).agent_count() == old(self).agent_count(),
            final(self).relay().subscribers() == old(self).relay().subscribers(),
            ({
                let before = old(self).pool_state();
                let after = final(self).pool_state();
                let n = old(self).agent_count();
                if before.next_id() + 2 * n <= usize::MAX {
                    &&& r == batch_count(before.pool().len(), n)
                    &&& after.pool().len() >= 2 * n
                    &&& after.pool().len() == before.pool().len() + r
                    &&& after.pool().subrange(0, before.pool().len() as int) == before.pool()
                    &&& fresh_batch(
                        after.pool().subrange(before.pool().len() as int, after.pool().len() as int),
                        before.next_id(),
                        before.half_size(),
                        before.margin(),
                    )
                    &&& after.next_id() == before.next_id() + r
                    &&& forall|i: int|
                        0 <= i < n ==> if r > 0 {
                            #[trigger] final(self).relay().inbox(i).drop_last() == old(self).relay().inbox(i)
                                && announces(
                                final(self).relay().inbox(i).last(),
                                after.pool().subrange(before.pool().len() as int, after.pool().len() as int),
                            )
                        } else {
                            final(self).relay().inbox(i) == old(self).relay().inbox(i)
                        }
                } else {
                    r == 0 && after == before && final(self).relay() == old(self).relay()
                }
            }),
    {
        let n = self.id_counter;
        let next = self.mission_manager.next_mission_id();
        if n > (usize::MAX - next) / 2 {
            return 0;
        }
        let ghost before = self.mission_manager.pool();
        let created = self.mission_manager.replenish(n);
        let count = created.len();
        proof {
            let after = self.mission_manager.pool();
            assert(after.subrange(0, before.len() as int) == before);
            assert(after.subrange(before.len() as int, after.len() as int) == created@);
        }
        if count > 0 {
            self.connection_manager.send_new_missions(created);
        }
        count
    }

    /// Take in an agent's state report: retire its mission if it has reached
    /// the target, then relay the state to the other agents and the
    /// completion notice, if any, to all of them. Returns the retired id.
    pub fn on_agent_state(&mut self, msg: AgentMessage) -> (r: Option<usize>)
        requires
            old(self).wf(),
        ensures
            final(self).wf(),
            r == completed_mission(msg),
            r is Some ==> final(self).pool_state().retires(old(self).pool_state(), r->Some_0),
            r is None ==> final(self).pool_state() == old(self).pool_state(),
            final(self).agent_count() == old(self).agent_count(),
            final(self).relay().subscribers() == old(self).relay().subscribers(),
            forall|i: int|
                0 <= i < old(self).agent_count() ==> #[trigger] final(self).relay().inbox(i) == old(
                    self,
                ).relay().inbox(i) + relayed_to(i, msg, r),
    {
        let finished = self.mission_manager.mission_to_finish(&msg);
        self.connection_manager.relay_state(msg, finished);
        finished
    }

    /// Hand over the messages waiting for agent `id`, oldest first.
    pub fn take_messages(&mut self, id: usize) -> (r: Vec<Message>)
        requires
            old(self).wf(),
            id < old(self).agent_count(),
        ensures
            final(self).wf(),
            r@ == old(self).relay().inbox(id as int),
            final(self).relay().inbox(id as int) == Seq::<Message>::empty(),
            final(self).pool_state() == old(self).pool_state(),
            final(self).agent_count() == old(self).agent_count(),
            forall|i: int|
                0 <= i < old(self).agent_count() && i != id ==> #[trigger] final(self).relay().inbox(i)
                    == old(self).relay().inbox(i),
    {
        self.connection_manager.take_messages(id)
    }
}

} // verus!

use swarm::{Agent, AgentMessage, Kinematics, LocalView, Message, Mission, MissionMessage, Vec2};

fn at(x: i32, y: i32) -> Kinematics {
    Kinematics {
        p: Vec2::new(x, y),
        v: Vec2::zeros(),
        a: Vec2::zeros(),
        theta: 0,
        radius: 10,
    }
}

fn mission(id: usize, x: i32, y: i32) -> Mission {
    Mission { id, agent: None, target: Vec2::new(x, y) }
}

fn agent(id: usize, x: i32, y: i32) -> Agent {
    Agent { id, kinematics: at(x, y), mission: None }
}

fn view_with(missions: &[Mission]) -> LocalView {
    let mut view = LocalView::new();
    view.record_missions(&missions.to_vec());
    view
}

fn claimed_id(a: &Agent) -> Option<usize> {
    a.mission.map(|m| m.id)
}

#[test]
fn squared_distance_is_exact() {
    assert_eq!(swarm::squared_distance(Vec2::new(0, 0), Vec2::new(3, 4)), 25);
    assert_eq!(swarm::squared_distance(Vec2::new(-2, 5), Vec2::new(1, 1)), 25);
    let far = swarm::squared_distance(Vec2::new(i32::MIN, i32::MIN), Vec2::new(i32::MAX, i32::MAX));
    assert_eq!(far, 2 * (u32::MAX as u128) * (u32::MAX as u128));
}

#[test]
fn acquisition_picks_nearest_mission() {
    let mut a = agent(0, 0, 0);
    let view = view_with(&[mission(0, 50, 0), mission(1, 0, 20), mission(2, -30, 0)]);
    a.get_new_mission(&view.missions, &view.agents);
    assert_eq!(claimed_id(&a), Some(1));
}

#[test]
fn acquisition_tie_goes_to_first_known() {
    let mut a = agent(0, 0, 0);
    let view = view_with(&[mission(4, 0, 5), mission(2, 5, 0), mission(3, -5, 0)]);
    a.get_new_mission(&view.missions, &view.agents);
    assert_eq!(claimed_id(&a), Some(4));
}

#[test]
fn acquisition_skips_missions_claimed_by_peers() {
    let mut a = agent(0, 0, 0);
    let mut view = view_with(&[mission(0, 1, 0), mission(1, 7, 0)]);
    view.record_agent(AgentMessage { id: 1, kinematics: at(100, 0), mission: Some(mission(0, 1, 0)) });
    a.get_new_mission(&view.missions, &view.agents);
    assert_eq!(claimed_id(&a), Some(1));
}

#[test]
fn acquisition_keeps_current_unless_strictly_closer() {
    let mut a = agent(0, 0, 0);
    a.mission = Some(mission(9, 10, 0));
    let view = view_with(&[mission(1, 0, 10), mission(2, -12, 0)]);
    a.get_new_mission(&view.missions, &view.agents);
    assert_eq!(claimed_id(&a), Some(9));
    let closer = view_with(&[mission(3, 0, 9)]);
    a.get_new_mission(&closer.missions, &closer.agents);
    assert_eq!(claimed_id(&a), Some(3));
}

#[test]
fn acquisition_without_missions_keeps_state() {
    let mut a = agent(0, 0, 0);
    let view = LocalView::new();
    a.get_new_mission(&view.missions, &view.agents);
    assert_eq!(claimed_id(&a), None);
    a.mission = Some(mission(5, 3, 3));
    a.get_new_mission(&view.missions, &view.agents);
    assert_eq!(claimed_id(&a), Some(5));
}

#[test]
fn farther_claimant_concedes() {
    let m = mission(0, 1, 0);
    let other = mission(1, 30, 0);
    let mut b = agent(1, 10, 0);
    b.mission = Some(m);
    let mut view = view_with(&[m, other]);
    view.record_agent(AgentMessage { id: 0, kinematics: at(0, 0), mission: Some(m) });
    b.check_missions(&view.missions, &view.agents);
    assert_eq!(claimed_id(&b), Some(1));
}

#[test]
fn nearer_claimant_keeps_mission() {
    let m = mission(0, 1, 0);
    let mut a = agent(0, 0, 0);
    a.mission = Some(m);
    let mut view = view_with(&[m]);
    view.record_agent(AgentMessage { id: 1, kinematics: at(10, 0), mission: Some(m) });
    a.check_missions(&view.missions, &view.agents);
    assert_eq!(claimed_id(&a), Some(0));
}

#[test]
fn equal_distances_keep_both_claims() {
    let m = mission(0, 0, 0);
    let mut a = agent(0, -5, 0);
    let mut b = agent(1, 5, 0);
    a.mission = Some(m);
    b.mission = Some(m);
    let mut view_a = view_with(&[m, mission(1, 100, 0)]);
    let mut view_b = view_with(&[m, mission(1, 100, 0)]);
    view_a.record_agent(b.state());
    view_b.record_agent(a.state());
    a.check_missions(&view_a.missions, &view_a.agents);
    b.check_missions(&view_b.missions, &view_b.agents);
    assert_eq!(claimed_id(&a), Some(0));
    assert_eq!(claimed_id(&b), Some(0));
}

#[test]
fn conceding_without_free_mission_leaves_agent_unassigned() {
    let m = mission(0, 1, 0);
    let mut b = agent(1, 10, 0);
    b.mission = Some(m);
    let mut view = view_with(&[m]);
    view.record_agent(AgentMessage { id: 0, kinematics: at(0, 0), mission: Some(m) });
    b.check_missions(&view.missions, &view.agents);
    assert_eq!(claimed_id(&b), None);
}

#[test]
fn own_state_in_view_is_no_conflict() {
    let m = mission(0, 1, 0);
    let mut a = agent(0, 10, 0);
    a.mission = Some(m);
    let mut view = view_with(&[m]);
    view.record_agent(AgentMessage { id: 0, kinematics: at(0, 0), mission: Some(m) });
    a.check_missions(&view.missions, &view.agents);
    assert_eq!(claimed_id(&a), Some(0));
}

/// Both agents pick the mission before hearing of each other; once their
/// states are exchanged, the nearer one keeps it and the other moves on.
#[test]
fn contested_mission_goes_to_nearer_agent() {
    let ms = [mission(0, 1, 0), mission(1, 20, 0)];
    let mut a = agent(0, 0, 0);
    let mut b = agent(1, 10, 0);
    let mut view_a = view_with(&ms);
    let mut view_b = view_with(&ms);
    a.decide(&view_a, 10);
    b.decide(&view_b, 10);
    assert_eq!(claimed_id(&a), Some(0));
    assert_eq!(claimed_id(&b), Some(0));
    view_a.record_agent(b.state());
    view_b.record_agent(a.state());
    a.decide(&view_a, 10);
    b.decide(&view_b, 10);
    assert_eq!(claimed_id(&a), Some(0));
    assert_eq!(claimed_id(&b), Some(1));
}

#[test]
fn contested_mission_loser_without_other_mission_is_unassigned() {
    let ms = [mission(0, 1, 0)];
    let mut a = agent(0, 0, 0);
    let mut b = agent(1, 10, 0);
    let mut view_a = view_with(&ms);
    let mut view_b = view_with(&ms);
    a.decide(&view_a, 10);
    b.decide(&view_b, 10);
    view_a.record_agent(b.state());
    view_b.record_agent(a.state());
    a.decide(&view_a, 10);
    b.decide(&view_b, 10);
    assert_eq!(claimed_id(&a), Some(0));
    assert_eq!(claimed_id(&b), None);
    assert_eq!(b.kinematics.a, Vec2::zeros());
}

/// When one agent has already published its claim, the other never takes
/// the mission.
#[test]
fn published_claim_is_respected() {
    let ms = [mission(0, 1, 0), mission(1, 20, 0)];
    let mut a = agent(0, 0, 0);
    let mut b = agent(1, 10, 0);
    let view_a = view_with(&ms);
    let mut view_b = view_with(&ms);
    a.decide(&view_a, 10);
    view_b.record_agent(a.state());
    b.decide(&view_b, 10);
    assert_eq!(claimed_id(&a), Some(0));
    assert_eq!(claimed_id(&b), Some(1));
}

/// Agents resolving against a shared snapshot, round after round, settle with
/// one claimant per mission.
#[test]
fn repeated_resolution_leaves_single_claims() {
    let ms = vec![mission(0, 0, 0), mission(1, 50, 50), mission(2, -40, 10)];
    let mut agents = vec![agent(0, 3, 0), agent(1, 7, 0), agent(2, -1, 1)];
    for a in agents.iter_mut() {
        a.mission = Some(ms[0]);
    }
    for _round in 0..5 {
        let snapshot: Vec<AgentMessage> = agents.iter().map(|a| a.state()).collect();
        for a in agents.iter_mut() {
            a.check_missions(&ms, &snapshot);
        }
    }
    let claims: Vec<usize> = agents.iter().filter_map(|a| claimed_id(a)).collect();
    for (i, x) in claims.iter().enumerate() {
        for y in claims.iter().skip(i + 1) {
            assert_ne!(x, y);
        }
    }
    assert_eq!(claimed_id(&agents[2]), Some(0));
}

#[test]
fn finished_own_mission_is_dropped() {
    let m = mission(3, 5, 5);
    let mut a = agent(0, 0, 0);
    let mut view = view_with(&[m, mission(4, 9, 9)]);
    a.mission = Some(m);
    a.handle_message(&mut view, Message::MissionFinished(3));
    assert_eq!(claimed_id(&a), None);
    assert_eq!(view.missions.len(), 1);
    assert_eq!(view.missions[0].id, 4);
    a.handle_message(&mut view, Message::MissionFinished(3));
    assert_eq!(view.missions.len(), 1);
}

#[test]
fn finished_other_mission_keeps_claim() {
    let m = mission(3, 5, 5);
    let mut a = agent(0, 0, 0);
    let mut view = view_with(&[m, mission(4, 9, 9)]);
    a.mission = Some(m);
    a.handle_message(&mut view, Message::MissionFinished(4));
    assert_eq!(claimed_id(&a), Some(3));
    assert_eq!(view.missions.len(), 1);
}

#[test]
fn messages_update_the_view() {
    let mut a = agent(0, 0, 0);
    let mut view = LocalView::new();
    a.handle_message(&mut view, Message::Mission(MissionMessage(vec![mission(1, 1, 1), mission(2, 2, 2)])));
    a.handle_message(&mut view, Message::Mission(MissionMessage(vec![mission(2, 7, 7)])));
    assert_eq!(view.missions.len(), 2);
    assert_eq!(view.missions[1].target, Vec2::new(7, 7));
    let peer = AgentMessage { id: 5, kinematics: at(1, 1), mission: None };
    a.handle_message(&mut view, Message::Agent(peer));
    let moved = AgentMessage { id: 5, kinematics: at(2, 2), mission: Some(mission(1, 1, 1)) };
    a.handle_message(&mut view, Message::Agent(moved));
    assert_eq!(view.agents.len(), 1);
    assert_eq!(view.agents[0].kinematics.p, Vec2::new(2, 2));
    assert_eq!(claimed_id(&a), None);
}

#[test]
fn decision_commands_steering_toward_target() {
    let mut a = agent(0, 0, 0);
    let view = view_with(&[mission(0, 1000, -1000)]);
    a.decide(&view, 10);
    assert_eq!(a.kinematics.a, Vec2::new(20, -20));
    assert_eq!(a.kinematics.p, Vec2::new(0, 0));
}

#[test]
fn state_snapshot_copies_agent() {
    let mut a = agent(7, 4, 2);
    a.mission = Some(mission(1, 0, 0));
    let s = a.state();
    assert_eq!(s.id, 7);
    assert_eq!(s.kinematics, a.kinematics);
    assert_eq!(s.mission.map(|m| m.id), Some(1));
}

#[test]
fn stale_claim_is_left_alone() {
    let m = mission(6, 1, 0);
    let mut b = agent(1, 10, 0);
    b.mission = Some(m);
    let mut view = view_with(&[mission(7, 30, 0)]);
    view.record_agent(AgentMessage { id: 0, kinematics: at(0, 0), mission: Some(m) });
    b.check_missions(&view.missions, &view.agents);
    assert_eq!(claimed_id(&b), Some(6));
}

#[test]
fn conflict_is_measured_to_the_cached_target() {
    let cached = mission(0, 20, 0);
    let own_copy = mission(0, 1, 0);
    let mut b = agent(1, 10, 0);
    b.mission = Some(own_copy);
    let mut view = view_with(&[cached]);
    view.record_agent(AgentMessage { id: 0, kinematics: at(0, 0), mission: Some(cached) });
    b.check_missions(&view.missions, &view.agents);
    assert_eq!(claimed_id(&b), Some(0));
}

#[test]
fn small_error_still_steers() {
    let mut a = agent(0, 0, 0);
    let view = view_with(&[mission(0, 1, -1)]);
    a.decide(&view, 2);
    assert_eq!(a.kinematics.a, Vec2::new(1, -1));
}

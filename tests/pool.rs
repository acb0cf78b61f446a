use swarm::consts::{AGENT_RADIUS, CELL_SIZE, GRID_HALF_SIZE};
use swarm::{AgentMessage, Kinematics, Mission, MissionManager, Vec2};

fn inset(p: Vec2, half: i32, margin: i32) -> bool {
    let (x, y, h, m) = (p.x as i64, p.y as i64, half as i64, margin as i64);
    x + h > m && h - x > m && y + h > m && h - y > m
}

fn report(x: i32, y: i32, mission: Option<Mission>) -> AgentMessage {
    AgentMessage {
        id: 0,
        kinematics: Kinematics {
            p: Vec2::new(x, y),
            v: Vec2::zeros(),
            a: Vec2::zeros(),
            theta: 0,
            radius: 10,
        },
        mission,
    }
}

#[test]
fn new_pool_is_empty() {
    let pool = MissionManager::new();
    assert_eq!(pool.number_missions_left(), 0);
    assert_eq!(pool.next_mission_id(), 0);
}

#[test]
fn created_missions_have_consecutive_ids() {
    let mut pool = MissionManager::new();
    let first = pool.create_new_missions(3);
    let second = pool.create_new_missions(2);
    let ids: Vec<usize> = first.iter().chain(second.iter()).map(|m| m.id).collect();
    assert_eq!(ids, vec![0, 1, 2, 3, 4]);
    assert!(first.iter().all(|m| m.agent.is_none()));
    assert_eq!(pool.number_missions_left(), 5);
    assert_eq!(pool.next_mission_id(), 5);
}

#[test]
fn targets_are_inset_from_every_edge() {
    let mut pool = MissionManager::new();
    let missions = pool.create_new_missions(500);
    let margin = CELL_SIZE + AGENT_RADIUS;
    assert!(missions.iter().all(|m| inset(m.target, GRID_HALF_SIZE, margin)));
}

#[test]
fn targets_are_inset_in_a_tight_area() {
    let mut pool = MissionManager::with_area(10, 8, 7);
    let missions = pool.create_new_missions(200);
    assert!(missions.iter().all(|m| inset(m.target, 10, 8)));
    assert!(missions.iter().all(|m| m.target.x == -1 || m.target.x == 0 || m.target.x == 1));
}

#[test]
fn targets_are_drawn_not_fixed() {
    let mut pool = MissionManager::new();
    let missions = pool.create_new_missions(20);
    let low = CELL_SIZE + AGENT_RADIUS - GRID_HALF_SIZE + 1;
    assert!(missions.iter().any(|m| m.target.x != low));
    assert!(missions.iter().any(|m| m.target.x != missions[0].target.x));
    assert!(missions.iter().any(|m| m.target.x != m.target.y));
}

#[test]
fn same_seed_gives_same_targets() {
    let mut a = MissionManager::with_area(1000, 10, 42);
    let mut b = MissionManager::with_area(1000, 10, 42);
    let ta: Vec<Vec2> = a.create_new_missions(10).iter().map(|m| m.target).collect();
    let tb: Vec<Vec2> = b.create_new_missions(10).iter().map(|m| m.target).collect();
    assert_eq!(ta, tb);
}

#[test]
fn retiring_twice_equals_retiring_once() {
    let mut once = MissionManager::with_area(1000, 10, 1);
    let mut twice = MissionManager::with_area(1000, 10, 1);
    once.create_new_missions(4);
    twice.create_new_missions(4);
    once.finish_mission(2);
    twice.finish_mission(2);
    twice.finish_mission(2);
    assert_eq!(once.number_missions_left(), 3);
    assert_eq!(twice.number_missions_left(), 3);
    assert_eq!(once.next_mission_id(), twice.next_mission_id());
    let next_once: Vec<Vec2> = once.create_new_missions(3).iter().map(|m| m.target).collect();
    let next_twice: Vec<Vec2> = twice.create_new_missions(3).iter().map(|m| m.target).collect();
    assert_eq!(next_once, next_twice);
}

#[test]
fn retiring_unknown_id_is_a_no_op() {
    let mut pool = MissionManager::new();
    pool.create_new_missions(2);
    pool.finish_mission(17);
    assert_eq!(pool.number_missions_left(), 2);
}

#[test]
fn replenish_keeps_twice_the_agent_count() {
    let mut pool = MissionManager::new();
    let created = pool.replenish(4);
    assert_eq!(created.len(), 8);
    assert_eq!(pool.number_missions_left(), 8);
    assert!(pool.replenish(4).is_empty());
    pool.finish_mission(0);
    let more = pool.replenish(4);
    assert_eq!(more.len(), 4);
    assert_eq!(more[0].id, 8);
    assert_eq!(pool.number_missions_left(), 11);
}

#[test]
fn replenish_for_no_agents_creates_nothing() {
    let mut pool = MissionManager::new();
    assert!(pool.replenish(0).is_empty());
    assert_eq!(pool.number_missions_left(), 0);
}

#[test]
fn reaching_a_target_finishes_the_mission() {
    let mut pool = MissionManager::with_area(100_000_000, 0, 3);
    let missions = pool.create_new_missions(2);
    let m = missions[1];
    let near = report(m.target.x + 3_000_000, m.target.y + 3_000_000, Some(m));
    assert_eq!(pool.mission_to_finish(&near), Some(m.id));
    assert_eq!(pool.number_missions_left(), 1);
}

#[test]
fn far_agent_does_not_finish() {
    let mut pool = MissionManager::with_area(100_000_000, 0, 3);
    let missions = pool.create_new_missions(1);
    let m = missions[0];
    let edge = report(m.target.x + 4_000_000, m.target.y + 3_000_000, Some(m));
    assert_eq!(pool.mission_to_finish(&edge), None);
    assert_eq!(pool.mission_to_finish(&report(0, 0, None)), None);
    assert_eq!(pool.number_missions_left(), 1);
}

#[test]
fn replenish_adds_one_batch_when_enough() {
    let mut pool = MissionManager::new();
    pool.create_new_missions(5);
    let created = pool.replenish(4);
    assert_eq!(created.len(), 4);
    assert_eq!(created[0].id, 5);
    assert_eq!(pool.number_missions_left(), 9);
}

#[test]
fn retiring_present_id_removes_exactly_one() {
    let mut pool = MissionManager::new();
    pool.create_new_missions(6);
    pool.finish_mission(0);
    pool.finish_mission(5);
    assert_eq!(pool.number_missions_left(), 4);
    let next = pool.create_new_missions(1);
    assert_eq!(next[0].id, 6);
}

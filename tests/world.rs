use swarm::consts::{AGENT_RADIUS, GRID_SPLIT, HALF_COST};
use swarm::{init_agent_kinematics, init_grid, Cell, Vec2};

#[test]
fn grid_has_walls_all_around() {
    let grid = init_grid();
    let n = GRID_SPLIT;
    assert_eq!(grid.width, n);
    assert_eq!(grid.cells.len(), n * n);
    for k in 0..n {
        assert_eq!(grid.cells[k], Cell::Uncrossable);
        assert_eq!(grid.cells[(n - 1) * n + k], Cell::Uncrossable);
        assert_eq!(grid.cells[k * n], Cell::Uncrossable);
        assert_eq!(grid.cells[k * n + n - 1], Cell::Uncrossable);
    }
}

#[test]
fn grid_costs_inside() {
    let grid = init_grid();
    let n = GRID_SPLIT;
    assert_eq!(grid.cells[10 * n + 10], Cell::Crossable(HALF_COST));
    assert_eq!(grid.cells[30 * n + 45], Cell::Crossable(300));
    assert_eq!(grid.cells[98 * n + 59], Cell::Crossable(980));
    assert_eq!(grid.cells[50 * n + 40], Cell::Crossable(HALF_COST));
    assert_eq!(grid.cells[50 * n + 60], Cell::Crossable(HALF_COST));
}

#[test]
fn agents_start_on_a_lattice() {
    let ks = init_agent_kinematics();
    assert_eq!(ks.len(), 4);
    assert_eq!(ks[0].p, Vec2::new(-83_333_334, -83_333_334));
    assert_eq!(ks[1].p, Vec2::new(83_333_333, -83_333_334));
    assert_eq!(ks[2].p, Vec2::new(-83_333_334, 83_333_333));
    assert_eq!(ks[3].p, Vec2::new(83_333_333, 83_333_333));
    assert_eq!(ks[1].theta, 3_141_593);
    assert_eq!(ks[2].theta, 0);
    assert!(ks.iter().all(|k| k.v == Vec2::zeros() && k.a == Vec2::zeros() && k.radius == AGENT_RADIUS));
}

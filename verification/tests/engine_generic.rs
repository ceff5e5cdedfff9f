use lifers::engine::generic::{
    count_neighbors, grid_map, iter_grid, Automaton, AutomatonBuilder, Grid,
};
use lifers::engine::{ExecutionState, Pos};

fn default_game() -> Automaton<
    bool,
    (),
    impl Fn(Pos, &bool, &Grid<bool>),
    impl Fn(Pos, bool, ()) -> bool,
> {
    AutomatonBuilder::new((10, 10))
        .init(|(x, y)| x > y)
        .map(|_p: Pos, _s: &bool, _g: &Grid<bool>| ())
        .generations(2)
        .run(|_p, state, _d| state)
}

#[test]
fn engine_builder() {
    let _game = Automaton::<bool, (), fn(Pos, &bool, &Grid<bool>), fn(Pos, bool, ()) -> bool>::build(
        (10, 10),
    )
    .init(|(x, y)| x > y)
    .map(|_p: Pos, _s: &bool, _g: &Grid<bool>| ())
    .generations(5)
    .run(|_p, state, _d| state);

    let _game = AutomatonBuilder::new((10, 10));

    let _game = default_game();
}

#[test]
fn generations_limit() {
    let mut game = default_game();

    assert_eq!(game.step(), ExecutionState::Remaining(1));
    assert_eq!(game.step(), ExecutionState::Remaining(0));
    assert_eq!(game.step(), ExecutionState::Finished);

    let mut game = AutomatonBuilder::new((10, 10))
        .init(|(x, y)| x > y)
        .map(|_p: Pos, _s: &bool, _g: &Grid<bool>| ())
        .run(|_p, state, _d| state);

    assert_eq!(game.step(), ExecutionState::Infinite);
}

#[test]
fn countdown_continues_past_finished() {
    let mut game = AutomatonBuilder::new((3, 3))
        .init(|_| 0u8)
        .map(|_p: Pos, _s: &u8, _g: &Grid<u8>| ())
        .generations(3)
        .run(|_p, state, _d| state);

    assert_eq!(game.step(), ExecutionState::Remaining(2));
    assert_eq!(game.step(), ExecutionState::Remaining(1));
    assert_eq!(game.step(), ExecutionState::Remaining(0));
    assert_eq!(game.step(), ExecutionState::Finished);
    assert_eq!(game.step(), ExecutionState::Finished);
    assert_eq!(game.step(), ExecutionState::Finished);
}

#[test]
fn bound_of_zero_still_steps_once() {
    let mut game = AutomatonBuilder::new((2, 2))
        .init(|_| 1u32)
        .map(|_p: Pos, _s: &u32, _g: &Grid<u32>| ())
        .generations(0)
        .run(|_p, state, _d| state + 1);

    assert_eq!(game.step(), ExecutionState::Finished);
    // The bound limits what is reported, not the execution of this step.
    assert_eq!(game.cells()[0][0], 2);
}

#[test]
fn unbounded_always_infinite() {
    let mut game = AutomatonBuilder::new((4, 4))
        .init(|(x, _)| x)
        .map(|_p: Pos, _s: &usize, _g: &Grid<usize>| ())
        .run(|_p, state, _d| state);

    for _ in 0..10 {
        assert_eq!(game.step(), ExecutionState::Infinite);
    }
}

#[test]
fn grid_size_preserved_by_steps() {
    let mut game = AutomatonBuilder::new((4, 7))
        .init(|(x, y)| x + y)
        .map(|_p: Pos, _s: &usize, _g: &Grid<usize>| ())
        .run(|_p, state, _d| state + 1);

    // A size of (4, 7) means a width of 4 and a height of 7.
    assert_eq!(game.grid_size(), (4, 7));
    for _ in 0..3 {
        game.step();
        assert_eq!(game.grid_size(), (4, 7));
    }
    assert_eq!(game.grid_size_unchecked(), (4, 7));
}

#[test]
fn grid_size_of_empty_grid() {
    let game = AutomatonBuilder::new((5, 0))
        .init(|_| false)
        .map(|_p: Pos, _s: &bool, _g: &Grid<bool>| ())
        .run(|_p, state, _d| state);

    assert_eq!(game.grid_size(), (0, 0));
}

#[test]
fn identity_rule_keeps_grid_unchanged() {
    let mut game = AutomatonBuilder::new((5, 6))
        .init(|(x, y)| (x * 31 + y * 7) % 5)
        .map(|p: Pos, _s: &usize, g: &Grid<usize>| count_neighbors(g, p, 1, |v| *v > 2))
        .run(|_p, state, _n| state);

    let before = game.cells().clone();
    for _ in 0..4 {
        game.step();
        assert_eq!(game.cells(), &before);
    }
}

#[test]
fn dense_boundary_counts() {
    // A 3x3 grid, all cells alive except the center.
    let grid: Grid<bool> = AutomatonBuilder::new((3, 3))
        .init(|(x, y)| !(x == 1 && y == 1))
        .map(|_p: Pos, _s: &bool, _g: &Grid<bool>| ())
        .run(|_p, state, _d| state)
        .cells()
        .clone();

    // All eight neighbors of the dead center are alive.
    assert_eq!(count_neighbors(&grid, (1, 1), 1, |b| *b), 8);
    // A corner sees only three positions on the grid, and the center among
    // them is dead: no wraparound across the edges.
    let corner = count_neighbors(&grid, (0, 0), 1, |b| *b);
    assert_eq!(corner, 2);
    assert!(corner <= 3);
}

#[test]
fn count_neighbors_respects_predicate() {
    let grid: Grid<u8> = vec![vec![1, 2, 3], vec![4, 5, 6], vec![7, 8, 9]];
    assert_eq!(count_neighbors(&grid, (1, 1), 1, |v| *v % 2 == 0), 4);
    assert_eq!(count_neighbors(&grid, (1, 1), 1, |_| true), 8);
    assert_eq!(count_neighbors(&grid, (1, 1), 1, |_| false), 0);
}

#[test]
fn iter_grid_row_major() {
    let grid: Vec<Vec<i32>> = vec![vec![10, 20], vec![30]];
    let flat: Vec<(usize, usize, &i32)> = iter_grid(&grid);
    assert_eq!(flat.len(), 3);
    assert_eq!(flat[0], (0, 0, &10));
    assert_eq!(flat[1], (1, 0, &20));
    assert_eq!(flat[2], (0, 1, &30));
}

#[test]
fn grid_map_row_major_shape_preserving() {
    let grid: Grid<u8> = vec![vec![1, 2, 3], vec![4, 5, 6]];
    let mapped = grid_map(grid, |(x, y), v: u8| (x, y, v + 1));
    assert_eq!(mapped.len(), 2);
    assert_eq!(mapped[0], vec![(0, 0, 2), (1, 0, 3), (2, 0, 4)]);
    assert_eq!(mapped[1], vec![(0, 1, 5), (1, 1, 6), (2, 1, 7)]);
}

#[test]
fn observations_see_pre_step_grid() {
    // Each cell becomes the count of its alive neighbors in the previous
    // generation: after one step of a full 2x2 grid of `true`, every cell
    // saw exactly 3 alive neighbors.
    let mut game = AutomatonBuilder::new((2, 2))
        .init(|_| 1usize)
        .map(|p: Pos, _s: &usize, g: &Grid<usize>| count_neighbors(g, p, 1, |v| *v == 1))
        .run(|_p, _state, n| n);

    game.step();
    assert_eq!(game.cells(), &vec![vec![3, 3], vec![3, 3]]);
}

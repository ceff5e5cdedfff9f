use lifers::engine::life_like::{count_neighbors, Automaton, AutomatonBuilder, Grid};
use lifers::engine::{ExecutionState, Pos};

fn life_rule(state: Option<()>, neighbors_n: u32) -> Option<()> {
    match state {
        Some(()) => {
            if neighbors_n == 2 || neighbors_n == 3 {
                Some(())
            } else {
                None
            }
        },
        None => {
            if neighbors_n == 3 {
                Some(())
            } else {
                None
            }
        },
    }
}

fn life_game(
    seed: Vec<Pos>,
) -> Automaton<
    (),
    u32,
    impl Fn(Pos, Option<&()>, &Grid<()>) -> u32,
    impl Fn(Pos, Option<()>, u32) -> Option<()>,
> {
    AutomatonBuilder::new(1)
        .init(move || {
            let mut cells = Grid::new();
            for p in seed {
                cells.insert(p, ());
            }
            cells
        })
        .map(|p: Pos, _s: Option<&()>, cells: &Grid<()>| count_neighbors(p, 1, cells))
        .run(|_p, state, neighbors_n| life_rule(state, neighbors_n))
}

#[test]
fn life_like_builder() {
    let _ = AutomatonBuilder::new(1)
        .init(|| Grid::default())
        .map(|_p: Pos, _s: Option<&()>, _g: &Grid<()>| ())
        .run(|_, _: Option<()>, _| None);

    let _ = AutomatonBuilder::new(1)
        .init(|| Grid::default())
        .map(|_p: Pos, _s: Option<&()>, _g: &Grid<()>| ())
        .run(|_, _: Option<()>, _| None);
}

#[test]
fn still_life_block_is_stable() {
    // A 2x2 block of mutually adjacent cells survives one step unchanged.
    let seed = vec![(1, 1), (1, 2), (2, 1), (2, 2)];
    let mut game = life_game(seed.clone());

    game.step();

    assert_eq!(game.cells().len(), 4);
    for p in seed {
        assert!(game.cells().contains_key(p));
    }
}

#[test]
fn lone_cell_dies() {
    let mut game = life_game(vec![(5, 5)]);

    game.step();

    assert!(game.cells().is_empty());
    assert_eq!(game.cells().len(), 0);
}

#[test]
fn blinker_oscillates() {
    // A vertical blinker becomes a horizontal one and comes back.
    let mut game = life_game(vec![(3, 2), (3, 3), (3, 4)]);

    game.step();
    assert_eq!(game.cells().len(), 3);
    for p in [(2, 3), (3, 3), (4, 3)] {
        assert!(game.cells().contains_key(p));
    }

    game.step();
    assert_eq!(game.cells().len(), 3);
    for p in [(3, 2), (3, 3), (3, 4)] {
        assert!(game.cells().contains_key(p));
    }
}

#[test]
fn neighbor_count_agreement() {
    // A dense grid and a sparse mapping with the same occupied cells give
    // the same neighbor counts at interior positions.
    let dense: Vec<Vec<bool>> = vec![
        vec![true, false, true, false, true],
        vec![false, true, false, true, false],
        vec![true, true, false, false, true],
        vec![false, false, true, true, false],
        vec![true, false, false, true, true],
    ];
    let mut sparse: Grid<()> = Grid::new();
    for (y, row) in dense.iter().enumerate() {
        for (x, alive) in row.iter().enumerate() {
            if *alive {
                sparse.insert((x, y), ());
            }
        }
    }

    for y in 1..4 {
        for x in 1..4 {
            let from_dense =
                lifers::engine::generic::count_neighbors(&dense, (x, y), 1, |b| *b) as u32;
            let from_sparse = count_neighbors((x, y), 1, &sparse);
            assert_eq!(from_dense, from_sparse);
        }
    }
}

#[test]
fn sparse_counts_at_the_origin() {
    // Candidates beyond the lower coordinate bound are dropped, without a
    // panic and without wrapping around.
    let mut cells: Grid<()> = Grid::new();
    cells.insert((0, 1), ());
    cells.insert((1, 0), ());
    cells.insert((1, 1), ());
    assert_eq!(count_neighbors((0, 0), 1, &cells), 3);
    assert_eq!(count_neighbors((1, 1), 1, &cells), 2);
}

#[test]
fn sparse_count_radius_two() {
    let mut cells: Grid<()> = Grid::new();
    cells.insert((7, 5), ());
    cells.insert((5, 5), ());
    cells.insert((5, 6), ());
    // Radius 1 around (5, 5) sees only the direct neighbor.
    assert_eq!(count_neighbors((5, 5), 1, &cells), 1);
    // Radius 2 also sees the cell two columns away; the center itself is
    // never counted.
    assert_eq!(count_neighbors((5, 5), 2, &cells), 2);
}

#[test]
fn grid_insert_get_len() {
    let mut cells: Grid<u8> = Grid::new();
    assert!(cells.is_empty());
    cells.insert((1, 2), 10);
    cells.insert((3, 4), 20);
    assert_eq!(cells.len(), 2);
    cells.insert((1, 2), 30);
    assert_eq!(cells.len(), 2);
    assert_eq!(cells.get((1, 2)), Some(&30));
    assert_eq!(cells.get((3, 4)), Some(&20));
    assert_eq!(cells.get((0, 0)), None);
    assert!(cells.contains_key((3, 4)));
    assert!(!cells.contains_key((4, 3)));
}

#[test]
fn is_finished_flow() {
    let mut game = AutomatonBuilder::new(1)
        .init(|| Grid::<()>::default())
        .generations(1)
        .map(|_p: Pos, _s: Option<&()>, _g: &Grid<()>| ())
        .run(|_, _: Option<()>, _| None);

    assert!(!game.is_finished());
    assert_eq!(game.step(), ExecutionState::Remaining(0));
    assert!(game.is_finished());
    assert_eq!(game.step(), ExecutionState::Finished);
    assert!(game.is_finished());
}

#[test]
fn births_use_pre_step_occupancy() {
    // Position-based rule: every cell keeps its state; a synthetic
    // candidate is born exactly when the position directly under it was
    // occupied. All candidates see the pre-step mapping, so one step of two
    // stacked cells births exactly one cell, on top of the stack.
    let mut game = AutomatonBuilder::new(1)
        .init(|| {
            let mut cells = Grid::new();
            cells.insert((4, 4), 1u8);
            cells.insert((4, 5), 2u8);
            cells
        })
        .map(|p: Pos, _s: Option<&u8>, cells: &Grid<u8>| {
            p.1 >= 1 && cells.contains_key((p.0, p.1 - 1))
        })
        .run(|_p, state, below_occupied| match state {
            Some(s) => Some(s),
            None => {
                if below_occupied {
                    Some(9u8)
                } else {
                    None
                }
            },
        });

    game.step();

    assert_eq!(game.cells().len(), 3);
    assert_eq!(game.cells().get((4, 4)), Some(&1));
    assert_eq!(game.cells().get((4, 5)), Some(&2));
    assert_eq!(game.cells().get((4, 6)), Some(&9));
    assert_eq!(game.cells().get((3, 6)), None);
    assert_eq!(game.cells().get((5, 6)), None);
    assert_eq!(game.cells().get((3, 5)), None);
    assert_eq!(game.cells().get((5, 5)), None);
}

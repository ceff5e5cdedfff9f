use lifers::frontend::{render_grid_str, RenderCell};

#[test]
fn render_bool_grid() {
    let grid: Vec<Vec<bool>> = vec![vec![true, false], vec![false, true]];
    assert_eq!(render_grid_str(&grid), "#.\n.#\n");
}

#[test]
fn render_empty_grid() {
    let grid: Vec<Vec<bool>> = Vec::new();
    assert_eq!(render_grid_str(&grid), "");
}

#[test]
fn render_single_cells() {
    assert_eq!(true.render_cell(), '#');
    assert_eq!(false.render_cell(), '.');
}

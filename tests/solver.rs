use polypack::shape::Shape;
use polypack::solver::{pieces_fill_area, solve};

fn shape(text: &str) -> Shape {
    Shape::from_str(text).unwrap()
}

fn catalog(names: &str) -> Vec<Shape> {
    let t = shape("# # #\n_ # _");
    let i = shape("# # # #");
    let l = shape("# # #\n# _ _");
    let o = shape("# #\n# #");
    let s = shape("# # _\n_ # #");
    names
        .chars()
        .map(|c| match c {
            't' | 'T' => t.clone(),
            'i' | 'I' => i.clone(),
            'l' => l.clone(),
            'o' | 'O' => o.clone(),
            's' => s.clone(),
            'L' => l.flip().rot().rot(),
            'S' => s.flip(),
            _ => panic!("unknown shape: {c}"),
        })
        .collect()
}

#[test]
fn check_all_rotations() {
    let pieces = catalog("LLs");
    assert!(solve(Shape::with_size(4, 3).unwrap(), pieces).is_some());
}

#[test]
fn solution_steps_rebuild_a_full_board() {
    let pieces = catalog("LLs");
    let steps = solve(Shape::with_size(4, 3).unwrap(), pieces).unwrap();
    assert_eq!(steps.len(), 3);
    let mut board = Shape::with_size(4, 3).unwrap();
    for step in &steps {
        assert!(step.r < 4);
        assert!(board.can_put(step.x, step.y, &step.piece));
        board = board.put(step.x, step.y, &step.piece);
    }
    assert_eq!(board, shape("# # # #\n# # # #\n# # # #"));
}

#[test]
fn two_squares_fill_a_four_by_two_board() {
    let steps = solve(Shape::with_size(4, 2).unwrap(), catalog("oo")).unwrap();
    assert_eq!(steps.len(), 2);
    assert_eq!((steps[0].x, steps[0].y, steps[0].r), (0, 0, 0));
    assert_eq!((steps[1].x, steps[1].y, steps[1].r), (2, 0, 0));
}

#[test]
fn no_pieces_is_solved_at_once() {
    let steps = solve(Shape::with_size(2, 2).unwrap(), Vec::new()).unwrap();
    assert!(steps.is_empty());
}

#[test]
fn impossible_board_has_no_solution() {
    assert!(solve(Shape::with_size(4, 1).unwrap(), catalog("o")).is_none());
    assert!(solve(shape("# #\n# #"), catalog("o")).is_none());
}

#[test]
fn area_check_rejects_wrong_totals() {
    assert!(pieces_fill_area(4, 3, &catalog("LLs")));
    assert!(!pieces_fill_area(4, 3, &catalog("LL")));
    assert!(!pieces_fill_area(4, 3, &catalog("LLso")));
    assert!(pieces_fill_area(0, 5, &Vec::new()));
}

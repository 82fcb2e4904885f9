use polypack::colorize::OwoColorize;
use polypack::matrix::BitMatrix;
use polypack::shape::{Shape, ShapeError};

fn shape(text: &str) -> Shape {
    Shape::from_str(text).unwrap()
}

fn catalog(names: &str) -> Vec<Shape> {
    let t = shape("# # #\n_ # _");
    let i = shape("# # # #");
    let l = shape("# # #\n# _ _");
    let o = shape("# #\n# #");
    let s = shape("# # _\n_ # #");
    names
        .chars()
        .map(|c| match c {
            't' | 'T' => t.clone(),
            'i' | 'I' => i.clone(),
            'l' => l.clone(),
            'o' | 'O' => o.clone(),
            's' => s.clone(),
            'L' => l.flip().rot().rot(),
            'S' => s.flip(),
            _ => panic!("unknown shape: {c}"),
        })
        .collect()
}

#[test]
fn check_deadzones() {
    assert!(shape(
        "
            # # # _ _ _ _ _
            _ # _ _ _ _ _ _
            # # # _ _ _ _ _
            _ # _ _ _ _ _ _
            _ _ _ _ _ _ _ _
            _ _ _ _ _ _ _ _
            ",
    )
    .has_dead_zones());
    assert!(shape(
        "
            # # # _ _ _ _ _
            _ _ # _ _ _ _ _
            # # # _ _ _ _ _
            _ # _ _ _ _ _ _
            _ _ _ _ _ _ _ _
            _ _ _ _ _ _ _ _
            ",
    )
    .has_dead_zones());
    assert!(shape(
        "
            # # # _ _ _ _ _
            _ _ # _ _ _ _ _
            # _ # # # _ _ _
            # # # _ _ _ _ _
            # _ _ _ _ _ _ _
            _ _ _ _ _ _ _ _
            ",
    )
    .has_dead_zones());
    assert!(!shape(
        "
            # # # # # _ _ _
            _ _ _ _ # _ _ _
            # # # # # # _ _
            _ _ _ _ _ _ _ _
            _ _ _ _ _ _ _ _
            _ _ _ _ _ _ _ _
            ",
    )
    .has_dead_zones());
}

#[test]
fn check_renders_itself() {
    for piece in catalog("tilosLS") {
        assert_eq!(Shape::from_str(&piece.render()).unwrap(), piece);
    }
}

#[test]
fn check_flips_back_itself() {
    for piece in catalog("tilos") {
        assert_eq!(piece.flip().flip(), piece);
    }
}

#[test]
fn test_puts_itself() {
    let piece = catalog("t").into_iter().next().unwrap();
    assert_eq!(
        Shape::with_size(piece.width(), piece.height())
            .unwrap()
            .put(0, 0, &piece),
        piece
    );
}

#[test]
fn test_put_respects_filled() {
    let a = shape(
        "
            # _ _ _
            # # # _
            ",
    );
    let b = shape(
        "
            _ # # #
            _ _ _ #
            ",
    );
    let c = shape(
        "
            # # # #
            # # # #
            ",
    );
    assert_eq!(a.put(0, 0, &b), c);
}

#[test]
fn enclosed_pocket_of_three_is_dead() {
    let board = shape(
        "
        # # # # # # # #
        # # # # # # # #
        # # # _ _ # # #
        # # # _ # # # #
        # # # # # # # #
        # # # # # # # #
        ",
    );
    assert!(board.is_dead(3, 2));
    assert!(board.is_dead(3, 3));
    assert!(board.has_dead_zones());
}

#[test]
fn enclosed_pocket_of_four_is_not_dead() {
    // four cells overflow the three tracked cells, so a two by two pocket
    // is left to the search
    let board = shape(
        "
        # # # # # # # #
        # # # # # # # #
        # # # _ _ # # #
        # # # _ _ # # #
        # # # # # # # #
        # # # # # # # #
        ",
    );
    assert!(!board.is_dead(3, 2));
    assert!(!board.has_dead_zones());
}

#[test]
fn open_region_of_five_is_not_dead() {
    let board = shape(
        "
        # # # # # # # #
        # # # # # # # #
        # # # _ _ _ # #
        # # # _ _ # # #
        # # # # # # # #
        # # # # # # # #
        ",
    );
    assert!(!board.is_dead(3, 2));
    assert!(!board.has_dead_zones());
}

#[test]
fn single_cell_and_line_of_three_are_dead() {
    let board = shape("# _ #\n# # #\n_ _ _");
    assert!(board.is_dead(1, 0));
    assert!(board.is_dead(0, 2));
    assert!(board.is_dead(2, 2));
}

#[test]
fn rotation_turns_clockwise() {
    let l = shape("# # #\n# _ _");
    let r = l.rot();
    assert_eq!(r.width(), 2);
    assert_eq!(r.height(), 3);
    assert_eq!(r, shape("# #\n_ #\n_ #"));
}

#[test]
fn four_rotations_give_the_shape_back() {
    for piece in catalog("tilosLS") {
        assert_eq!(piece.rot().rot().rot().rot(), piece);
        assert_ne!(catalog("l")[0].rot(), catalog("l")[0]);
    }
}

#[test]
fn reflection_reverses_rows() {
    assert_eq!(shape("# # _\n_ # #").flip(), shape("_ # #\n# # _"));
    assert_eq!(shape("# _ _\n# # _").flip(), shape("_ _ #\n_ # #"));
}

#[test]
fn render_writes_one_line_per_row() {
    assert_eq!(shape("# _\n_ #").render(), "# _ \n_ # \n");
}

#[test]
fn pattern_ignores_blanks_and_outer_blank_lines() {
    let a = Shape::from_str("\n\n  #\t_ \r\n _ #  \n\n").unwrap();
    assert_eq!(a, shape("# _\n_ #"));
    assert_eq!(a.width(), 2);
    assert_eq!(a.height(), 2);
    assert!(a.at(0, 0));
    assert!(!a.at(1, 0));
}

#[test]
fn malformed_patterns_are_rejected() {
    assert_eq!(Shape::from_str("# #\n#"), Err(ShapeError::MalformedPattern));
    assert_eq!(Shape::from_str("# x"), Err(ShapeError::MalformedPattern));
    assert_eq!(Shape::from_str("   \n  "), Err(ShapeError::MalformedPattern));
    assert_eq!(Shape::from_str("# #\n\n# #"), Err(ShapeError::MalformedPattern));
    assert_eq!(Shape::from_str("#\n# #"), Err(ShapeError::MalformedPattern));
}

#[test]
fn zero_extent_is_rejected() {
    assert_eq!(Shape::with_size(0, 3), Err(ShapeError::InvalidDimensions));
    assert_eq!(Shape::with_size(2, 0), Err(ShapeError::InvalidDimensions));
    assert_eq!(Shape::with_size(usize::MAX, 2), Err(ShapeError::InvalidDimensions));
    let e = Shape::with_size(3, 2).unwrap();
    assert_eq!(e.len(), 0);
    assert_eq!(e, shape("_ _ _\n_ _ _"));
}

#[test]
fn filled_cells_are_counted() {
    assert_eq!(shape("# # #\n_ # _").len(), 4);
    assert_eq!(shape("_ _\n_ #").len(), 1);
}

#[test]
fn can_put_checks_bounds_and_overlap() {
    let board = shape("# _ _\n_ _ _");
    let bar = shape("# #");
    assert!(board.can_put(1, 0, &bar));
    assert!(!board.can_put(0, 0, &bar));
    assert!(!board.can_put(2, 0, &bar));
    assert!(!board.can_put(0, 2, &bar));
    assert!(board.can_put(0, 1, &bar));
}

#[test]
fn is_open_outside_is_false() {
    let board = shape("# _\n_ _");
    assert!(!board.is_open(-1, 0));
    assert!(!board.is_open(0, 0));
    assert!(board.is_open(1, 0));
    assert!(!board.is_open(2, 0));
    assert!(!board.is_open(0, -1));
}

#[test]
fn anchors_of_pieces() {
    assert_eq!(shape("# #\n# _").fit_cells_to_orig(), [Some((0, 0)), None]);
    assert_eq!(shape("_ # _\n# # #").fit_cells_to_orig(), [Some((1, 0)), Some((0, 1))]);
    assert_eq!(shape("_ #\n_ #").fit_cells_to_orig(), [Some((1, 0)), None]);
}

#[test]
fn matrix_grows_and_sets_cells() {
    let mut m = BitMatrix::new();
    assert_eq!(m.width(), 0);
    m.expand_to(1, 0, true);
    m.expand_to(0, 1, true);
    assert_eq!(m.width(), 2);
    assert_eq!(m.height(), 2);
    assert!(m.at(1, 0));
    assert!(m.at(0, 1));
    assert!(!m.at(0, 0));
    m.set(1, 0, false);
    assert!(!m.at(1, 0));
    let e = BitMatrix::with_size(3, 1);
    assert_eq!(Shape::new(e), shape("_ _ _"));
}

#[test]
fn green_shows_numbers_and_shades_blocks() {
    assert_eq!(0usize.green(), "0");
    assert_eq!(907usize.green(), "907");
    assert_eq!("a\u{2588}\u{2588}b".green(), "a\u{2592}\u{2592}b");
}

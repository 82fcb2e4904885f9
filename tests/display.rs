use polypack::display::render_step;
use polypack::shape::Shape;
use polypack::solver::Step;

#[test]
fn step_on_empty_board_is_shaded() {
    let board = Shape::with_size(2, 1).unwrap();
    let step = Step {
        x: 0,
        y: 0,
        piece: Shape::from_str("# #").unwrap(),
        r: 0,
    };
    let expected = "\u{2572}x\u{2502}   1\u{2502} place at x=0, y=0\n\
                    y\u{2572}\u{2502} 0  \u{2502} rotate 0 times\n\
                    \u{2500}\u{2500}\u{253C}\u{2500}\u{2500}\u{2500}\u{2500}\u{2524}\n \
                    0\u{2502}\u{2592}\u{2592}\u{2592}\u{2592}\u{2502} \u{2588}\u{2588}\u{2588}\u{2588}\n  \
                    \u{2514}\u{2500}\u{2500}\u{2500}\u{2500}\u{2518}\n";
    assert_eq!(render_step(&board, &step), expected);
}

#[test]
fn step_shows_filled_cells_and_original_piece() {
    let board = Shape::from_str("_ _\n_ #").unwrap();
    let original = Shape::from_str("# _\n# #").unwrap();
    let step = Step {
        x: 0,
        y: 0,
        piece: original.rot(),
        r: 1,
    };
    let text = render_step(&board, &step);
    let lines: Vec<&str> = text.lines().collect();
    assert_eq!(lines.len(), 6);
    assert!(lines[0].ends_with("place at x=0, y=0"));
    assert!(lines[1].ends_with("rotate 1 time"));
    assert_eq!(lines[3], " 0\u{2502}\u{2592}\u{2592}\u{2592}\u{2592}\u{2502} \u{2588}\u{2588}  ");
    assert_eq!(lines[4], " 1\u{2502}\u{2592}\u{2592}\u{2588}\u{2588}\u{2502} \u{2588}\u{2588}\u{2588}\u{2588}");
}

#[test]
fn step_numbers_of_two_digits_are_aligned() {
    let board = Shape::with_size(12, 1).unwrap();
    let step = Step {
        x: 11,
        y: 0,
        piece: Shape::from_str("#").unwrap(),
        r: 2,
    };
    let text = render_step(&board, &step);
    let first = text.lines().next().unwrap();
    assert_eq!(
        first,
        "\u{2572}x\u{2502}   1   3   5   7   9  11\u{2502} place at x=11, y=0"
    );
}

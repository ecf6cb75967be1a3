use n_puzzle::n_puzzle::NPuzzle;

#[test]
fn renders_three_by_three() {
    let puzzle = NPuzzle::new(3, vec![7, 8, 5, 3, 1, 4, 6, 2], (1, 1)).unwrap();
    assert_eq!(puzzle.render(), " 7  8  5 \n 3 --  1 \n 4  6  2 \n");
}

#[test]
fn renders_two_digit_labels() {
    let puzzle = NPuzzle::new(4, (1..16).collect(), (0, 0)).unwrap();
    assert_eq!(
        puzzle.render(),
        "--  1  2  3 \n 4  5  6  7 \n 8  9 10 11 \n12 13 14 15 \n"
    );
}

#[test]
fn round_trip_three_by_three() {
    let puzzle = NPuzzle::new(3, vec![7, 8, 5, 3, 1, 4, 6, 2], (2, 0)).unwrap();
    let text = puzzle.render();
    let back = NPuzzle::from_rendered(&text).unwrap();
    assert_eq!(back, puzzle);
    assert_eq!(back.render(), text);
}

#[test]
fn round_trip_four_by_four() {
    let puzzle = NPuzzle::new(4, vec![15, 2, 1, 12, 8, 5, 6, 11, 4, 9, 10, 7, 3, 14, 13], (3, 3)).unwrap();
    let text = puzzle.render();
    let back = NPuzzle::from_rendered(&text).unwrap();
    assert_eq!(back, puzzle);
    assert_eq!(back.render(), text);
}

#[test]
fn round_trip_three_digit_labels() {
    let puzzle = NPuzzle::new(2, vec![200, 9, 100], (0, 1)).unwrap();
    let text = puzzle.render();
    assert_eq!(text, "200 -- \n 9 100 \n");
    let back = NPuzzle::from_rendered(&text).unwrap();
    assert_eq!(back.render(), text);
}

#[test]
fn rejects_text_that_is_no_board() {
    assert!(NPuzzle::from_rendered("").is_none());
    assert!(NPuzzle::from_rendered(" 1  2 \n 3  4 \n").is_none());
    assert!(NPuzzle::from_rendered("-- -- \n 1  2 \n").is_none());
    assert!(NPuzzle::from_rendered(" 1  2  3 \n--\n").is_none());
    assert!(NPuzzle::from_rendered(" 1 -- \n 2  x \n").is_none());
}

#[test]
fn rejects_text_laid_out_otherwise() {
    assert!(NPuzzle::from_rendered("1 -- 2 3").is_none());
}

#[test]
fn round_trip_every_blank_position() {
    for b in 0..9usize {
        let puzzle = NPuzzle::new(3, vec![4, 1, 7, 2, 8, 3, 6, 5], (b / 3, b % 3)).unwrap();
        let text = puzzle.render();
        let back = NPuzzle::from_rendered(&text).unwrap();
        assert_eq!(back, puzzle);
        assert_eq!(back.render(), text);
    }
}

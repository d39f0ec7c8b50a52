use cs_projects::guessing::{Part1, Part2, Player, PlayerTrait, Strategy};

#[test]
fn player_answers_questions() {
    let mut p = Player::new(42);
    assert!(p.ask_if_equal(42));
    assert!(!p.ask_if_equal(41));
    assert_eq!(p.ask_to_compare(50), -1);
    assert_eq!(p.ask_to_compare(42), 0);
    assert_eq!(p.ask_to_compare(10), 1);
    assert_eq!(p.steps(), 5);
}

#[test]
fn part1_finds_number_linearly() {
    let mut p = Player::new(17);
    assert_eq!(Part1::guess_the_number(&mut p, 10, 100), 17);
    assert_eq!(p.steps(), 8);
}

#[test]
fn part1_finds_bounds() {
    let mut p = Player::new(0);
    assert_eq!(Part1::guess_the_number(&mut p, 0, 5), 0);
    assert_eq!(p.steps(), 1);
    let mut q = Player::new(u32::MAX);
    assert_eq!(Part1::guess_the_number(&mut q, u32::MAX - 3, u32::MAX), u32::MAX);
    assert_eq!(q.steps(), 4);
}

#[test]
fn part2_finds_number_with_few_questions() {
    for secret in 0..=100u32 {
        let mut p = Player::new(secret);
        assert_eq!(Part2::guess_the_number(&mut p, 0, 100), secret);
        // 101 numbers: at most 7 comparisons
        assert!(p.steps() <= 7);
    }
}

#[test]
fn part2_finds_extreme_numbers() {
    let mut p = Player::new(u32::MAX);
    assert_eq!(Part2::guess_the_number(&mut p, 0, u32::MAX), u32::MAX);
    assert!(p.steps() <= 33);
    let mut q = Player::new(0);
    assert_eq!(Part2::guess_the_number(&mut q, 0, u32::MAX), 0);
    assert!(q.steps() <= 33);
}

#[test]
fn part2_midpoint_needs_one_question() {
    let mut p = Player::new(50);
    assert_eq!(Part2::guess_the_number(&mut p, 0, 100), 50);
    assert_eq!(p.steps(), 1);
}

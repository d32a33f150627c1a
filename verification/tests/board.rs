use crossword::crossword::{Cell, Crossword, Direction, Pos};
use crossword::matcher::Matcher;
use rand::SeedableRng;
use rand::rngs::StdRng;

fn pattern(p: &str) -> Vec<Option<char>> {
    p.chars().map(|c| if c == '.' { None } else { Some(c) }).collect()
}

fn dictionary(words: &[&str]) -> Matcher {
    let mut m = Matcher::new();
    for w in words {
        m.insert(w);
    }
    m
}

fn cells_of(c: &Crossword, width: usize, height: usize) -> Vec<Vec<Cell>> {
    (0..height).map(|y| (0..width).map(|x| c.get_cell(x, y)).collect()).collect()
}

fn word_of(p: &[Option<char>]) -> String {
    p.iter().map(|o| o.expect("cell still empty")).collect()
}

#[test]
fn new_board_is_all_empty() {
    let c = Crossword::new(3, 2);
    for y in 0..2 {
        for x in 0..3 {
            assert_eq!(c.get_cell(x, y), Cell::Empty);
        }
    }
}

#[test]
fn from_str_reads_glyphs_and_letters() {
    let c = Crossword::from_str("\n  □■a\n  Z□□\n");
    assert_eq!(c.get_cell(0, 0), Cell::Empty);
    assert_eq!(c.get_cell(1, 0), Cell::Black);
    assert_eq!(c.get_cell(2, 0), Cell::Letter('A'));
    assert_eq!(c.get_cell(0, 1), Cell::Letter('Z'));
    assert_eq!(c.get_cell(1, 1), Cell::Empty);
    assert_eq!(c.get_cell(2, 1), Cell::Empty);
}

#[test]
fn from_str_single_line() {
    let c = Crossword::from_str("□□□");
    assert_eq!(c.across_positions(), vec![(Pos(0, 0), 3)]);
    assert_eq!(
        c.down_positions(),
        vec![(Pos(0, 0), 1), (Pos(1, 0), 1), (Pos(2, 0), 1)]
    );
}

#[test]
fn set_word_writes_letters() {
    let mut c = Crossword::new(4, 3);
    c.set_word("CAT", Pos(1, 1), Direction::Across);
    assert_eq!(c.get_cell(1, 1), Cell::Letter('C'));
    assert_eq!(c.get_cell(2, 1), Cell::Letter('A'));
    assert_eq!(c.get_cell(3, 1), Cell::Letter('T'));
    assert_eq!(c.get_cell(0, 1), Cell::Empty);
    c.set_word("TO", Pos(3, 1), Direction::Down);
    assert_eq!(c.get_cell(3, 1), Cell::Letter('T'));
    assert_eq!(c.get_cell(3, 2), Cell::Letter('O'));
}

#[test]
fn pattern_round_trip() {
    let mut c = Crossword::new(4, 4);
    let p = pattern("A.Z.");
    c.set_pattern(Direction::Across, Pos(0, 2), &p);
    assert_eq!(c.get_pattern(Direction::Across, Pos(0, 2), 4), p);
    c.set_pattern(Direction::Down, Pos(1, 0), &p);
    assert_eq!(c.get_pattern(Direction::Down, Pos(1, 0), 4), p);
    assert_eq!(c.get_pattern_down(Pos(1, 0), 4), p);
}

#[test]
fn get_across_and_down_read_current_state() {
    let mut c = Crossword::new(3, 3);
    c.set_word("CAT", Pos(0, 0), Direction::Across);
    assert_eq!(c.get_across(Pos(0, 0), 3), pattern("CAT"));
    assert_eq!(c.get_down(Pos(0, 0), 3), pattern("C.."));
    assert_eq!(c.get_pattern_across(Pos(0, 1), 2), pattern(".."));
}

#[test]
fn slot_extraction_on_blocked_grid() {
    let c = Crossword::from_str("□□■\n□□□\n■□□");
    let across = c.across_positions();
    assert_eq!(across, vec![(Pos(0, 0), 2), (Pos(0, 1), 3), (Pos(1, 2), 2)]);
    let down = c.down_positions();
    assert_eq!(down, vec![(Pos(0, 0), 2), (Pos(1, 0), 3), (Pos(2, 1), 2)]);
}

#[test]
fn slots_depend_only_on_blocks() {
    let plain = Crossword::from_str("□□■\n□□□");
    let lettered = Crossword::from_str("AB■\n□CD");
    assert_eq!(plain.across_positions(), lettered.across_positions());
    assert_eq!(plain.down_positions(), lettered.down_positions());
}

#[test]
fn fill_one_by_three_commits_a_whole_word() {
    let m = dictionary(&["CAT", "CAR", "DOG"]);
    let mut c = Crossword::new(3, 1);
    assert_eq!(m.count_matches(&c.get_across(Pos(0, 0), 3)), 3);
    c.set_cell(0, 0, Cell::Letter('C'));
    assert_eq!(m.count_matches(&c.get_across(Pos(0, 0), 3)), 2);

    let mut rng = StdRng::seed_from_u64(11);
    let mut board = Crossword::new(3, 1);
    // a one-row board also has three length-one down slots, so single
    // letters must be in the dictionary for a full fill
    let m2 = dictionary(&["CAT", "CAR", "DOG", "C", "A", "T", "R", "D", "O", "G"]);
    assert!(board.fill(&m2, &mut rng));
    let word = word_of(&board.get_across(Pos(0, 0), 3));
    assert!(word == "CAT" || word == "CAR" || word == "DOG", "unexpected fill {word}");
}

#[test]
fn fill_fails_and_restores_when_no_word_fits() {
    let m = dictionary(&["AB"]);
    let mut c = Crossword::from_str("□□□\n□■□\n□□□");
    let before = cells_of(&c, 3, 3);
    let mut rng = StdRng::seed_from_u64(3);
    assert!(!c.fill(&m, &mut rng));
    assert_eq!(cells_of(&c, 3, 3), before);
}

#[test]
fn fill_restores_prefilled_letters_on_failure() {
    let m = dictionary(&["CAT", "D", "G"]);
    let mut c = Crossword::from_str("■D■\n□□□\n■G■");
    let before = cells_of(&c, 3, 3);
    let mut rng = StdRng::seed_from_u64(5);
    assert!(!c.fill(&m, &mut rng));
    assert_eq!(cells_of(&c, 3, 3), before);
}

#[test]
fn fill_crossing_slots_agree_on_shared_cell() {
    let m = dictionary(&["CAT", "DOG", "DAD", "C", "A", "T", "D", "O", "G"]);
    for seed in 0..10u64 {
        let mut c = Crossword::from_str("■□■\n□□□\n■□■");
        let mut rng = StdRng::seed_from_u64(seed);
        assert!(c.fill(&m, &mut rng));
        let across = word_of(&c.get_across(Pos(0, 1), 3));
        let down = word_of(&c.get_down(Pos(1, 0), 3));
        assert!(["CAT", "DOG", "DAD"].contains(&across.as_str()), "across {across}");
        assert!(["CAT", "DOG", "DAD"].contains(&down.as_str()), "down {down}");
        assert_eq!(across.as_bytes()[1], down.as_bytes()[1]);
        for y in 0..3 {
            for x in 0..3 {
                assert_ne!(c.get_cell(x, y), Cell::Empty, "unresolved cell {x},{y}");
            }
        }
    }
}

#[test]
fn fill_keeps_prefilled_letters_on_success() {
    let m = dictionary(&["DOG", "D", "O", "G", "CAT"]);
    let mut c = Crossword::from_str("D□□");
    let mut rng = StdRng::seed_from_u64(1);
    assert!(c.fill(&m, &mut rng));
    assert_eq!(word_of(&c.get_across(Pos(0, 0), 3)), "DOG");
}

#[test]
fn fill_empty_board_succeeds_trivially() {
    let m = dictionary(&[]);
    let mut c = Crossword::new(0, 0);
    let mut rng = StdRng::seed_from_u64(0);
    assert!(c.fill(&m, &mut rng));
}

#[test]
fn fill_square_needs_words_both_ways() {
    // every row and every column of the 2x2 square must be a word
    let m = dictionary(&["AM", "ME", "AM", "ME", "MA", "EM"]);
    let mut c = Crossword::new(2, 2);
    let mut rng = StdRng::seed_from_u64(21);
    assert!(c.fill(&m, &mut rng));
    let r0 = word_of(&c.get_across(Pos(0, 0), 2));
    let r1 = word_of(&c.get_across(Pos(0, 1), 2));
    let c0 = word_of(&c.get_down(Pos(0, 0), 2));
    let c1 = word_of(&c.get_down(Pos(1, 0), 2));
    for w in [&r0, &r1, &c0, &c1] {
        assert!(["AM", "ME", "MA", "EM"].contains(&w.as_str()), "not a word: {w}");
    }
}

#[test]
fn fill_two_crossing_words_with_single_choice() {
    // across must be CAT, down must be TO, agreeing on the T
    let m = dictionary(&["CAT", "TO", "C", "A", "O"]);
    let mut c = Crossword::from_str("□□□\n■■□");
    let mut rng = StdRng::seed_from_u64(9);
    assert!(c.fill(&m, &mut rng));
    assert_eq!(word_of(&c.get_across(Pos(0, 0), 3)), "CAT");
    assert_eq!(word_of(&c.get_down(Pos(2, 0), 2)), "TO");
}

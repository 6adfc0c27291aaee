use color_sort::color::Color;
use color_sort::puzzle::{Puzzle, PuzzleError};
use color_sort::tube::Tube;

#[test]
fn test_empty() {
    let p = Puzzle::init(vec![]).unwrap();
    assert_eq!(0, p.tubes.len());
    assert!(p.solved());
}

#[test]
fn init_rejects_a_color_short_of_a_tube() {
    let tubes = vec![
        Tube::new(vec![Color::Blue, Color::Red, Color::Red, Color::Red], 1),
        Tube::new(vec![Color::Blue, Color::Blue, Color::Blue], 2),
        Tube::new(vec![], 3),
    ];
    assert_eq!(
        Puzzle::init(tubes).unwrap_err(),
        PuzzleError::MismatchedColors(Color::Red)
    );
}

#[test]
fn init_accepts_whole_tubes_and_puts_empty_last() {
    let tubes = vec![
        Tube::new(vec![], 1),
        Tube::new(vec![Color::Red, Color::Blue, Color::Red, Color::Blue], 2),
        Tube::new(vec![], 3),
        Tube::new(vec![Color::Blue, Color::Red, Color::Blue, Color::Red], 4),
    ];
    let p = Puzzle::init(tubes).unwrap();
    let ids: Vec<u32> = p.tubes.iter().map(|t| t.tid).collect();
    assert_eq!(ids, vec![2, 4, 1, 3]);
    assert!(!p.is_empty());
    assert!(!p.solved());
}

#[test]
fn init_counts_over_several_tubes() {
    let tubes = vec![
        Tube::new(vec![Color::Teal, Color::Teal], 1),
        Tube::new(vec![Color::Teal, Color::Teal], 2),
    ];
    assert!(Puzzle::init(tubes).is_ok());
    let tubes = vec![
        Tube::new(vec![Color::Teal, Color::Teal, Color::Teal, Color::Teal], 1),
        Tube::new(vec![Color::Pink], 2),
    ];
    assert_eq!(
        Puzzle::init(tubes).unwrap_err(),
        PuzzleError::MismatchedColors(Color::Pink)
    );
}

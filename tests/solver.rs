use color_sort::color::{Color, ColorBox};
use color_sort::puzzle::Puzzle;
use color_sort::solver::{solve, SearchError, SolveInput};
use color_sort::tube::Tube;

fn search(tubes: Vec<Tube>, budget: u32) -> SolveInput {
    let puz = Puzzle::init(tubes).unwrap();
    SolveInput { puz, solved: false, c: budget, path: vec![] }
}

#[test]
fn single_pour_solves() {
    // Tube 1 holds one blue unit, tube 2 three blue, tube 3 is full of red.
    let mut si = search(
        vec![
            Tube::new(vec![Color::Blue], 1),
            Tube::new(vec![Color::Blue, Color::Blue, Color::Blue], 2),
            Tube::new(vec![Color::Red, Color::Red, Color::Red, Color::Red], 3),
        ],
        200,
    );
    assert_eq!(solve(&mut si), Ok(()));
    assert!(si.solved());
    assert_eq!(si.path, vec![(1, 2)]);
    assert_eq!(si.c, 199);
    assert!(si.puz.tubes[0].is_empty());
    assert_eq!(si.puz.tubes[1].colors, vec![ColorBox::new(Color::Blue, 4)]);
}

#[test]
fn no_legal_move_fails() {
    let mut si = search(
        vec![
            Tube::new(vec![Color::Red, Color::Red, Color::Blue, Color::Blue], 1),
            Tube::new(vec![Color::Blue, Color::Blue, Color::Red, Color::Red], 2),
        ],
        200,
    );
    let before: Vec<Vec<ColorBox>> = si.puz.tubes.iter().map(|t| t.colors.clone()).collect();
    assert_eq!(solve(&mut si), Ok(()));
    assert!(!si.solved());
    assert!(si.path.is_empty());
    assert_eq!(si.c, 200);
    let after: Vec<Vec<ColorBox>> = si.puz.tubes.iter().map(|t| t.colors.clone()).collect();
    assert_eq!(before, after);
}

#[test]
fn already_solved_needs_no_move() {
    let mut si = search(
        vec![Tube::new(vec![Color::Red, Color::Red, Color::Red, Color::Red], 1), Tube::new(vec![], 2)],
        5,
    );
    assert_eq!(solve(&mut si), Ok(()));
    assert!(si.solved());
    assert!(si.path.is_empty());
}

#[test]
fn empty_puzzle_is_not_solved() {
    let mut si = search(vec![], 5);
    assert_eq!(solve(&mut si), Ok(()));
    assert!(!si.solved());
}

#[test]
fn zero_budget_is_exhausted() {
    let mut si = search(vec![Tube::new(vec![Color::Red, Color::Red, Color::Red, Color::Red], 1)], 0);
    assert_eq!(solve(&mut si), Err(SearchError::Exhausted));
}

fn replay(tubes: &mut Vec<Tube>, path: &[(u32, u32)]) {
    for &(from, to) in path {
        let f = tubes.iter().position(|t| t.tid == from).unwrap();
        let t = tubes.iter().position(|t| t.tid == to).unwrap();
        let seg = tubes[f].pop().unwrap();
        tubes[t].push(seg);
    }
}

#[test]
fn found_path_replays_to_solved() {
    let layout = || {
        vec![
            Tube::new(vec![Color::Red, Color::Blue, Color::Red, Color::Blue], 1),
            Tube::new(vec![Color::Blue, Color::Red, Color::Blue, Color::Red], 2),
            Tube::new(vec![], 3),
            Tube::new(vec![], 4),
        ]
    };
    let mut si = search(layout(), 200);
    assert_eq!(solve(&mut si), Ok(()));
    assert!(si.solved());
    assert!(!si.path.is_empty());
    assert_eq!(si.c as usize + si.path.len(), 200);
    let mut fresh = Puzzle::init(layout()).unwrap();
    replay(&mut fresh.tubes, &si.path);
    assert!(fresh.solved());
    let a: Vec<Vec<ColorBox>> = fresh.tubes.iter().map(|t| t.colors.clone()).collect();
    let b: Vec<Vec<ColorBox>> = si.puz.tubes.iter().map(|t| t.colors.clone()).collect();
    assert_eq!(a, b);
}

#[test]
fn small_budget_runs_out() {
    let layout = vec![
        Tube::new(vec![Color::Red, Color::Blue, Color::Red, Color::Blue], 1),
        Tube::new(vec![Color::Blue, Color::Red, Color::Blue, Color::Red], 2),
        Tube::new(vec![], 3),
        Tube::new(vec![], 4),
    ];
    let mut si = search(layout, 2);
    assert_eq!(solve(&mut si), Err(SearchError::Exhausted));
}

#[test]
fn solve_input_bookkeeping() {
    let mut si = search(vec![], 3);
    si.push((1, 2));
    si.push((2, 3));
    si.pop();
    assert_eq!(si.path, vec![(1, 2)]);
    si.dec();
    assert_eq!(si.c, 2);
    si.inc();
    assert_eq!(si.c, 3);
    si.set_solved(true);
    assert!(si.solved());
}

use color_sort::color::{Color, ColorBox};
use color_sort::tube::Tube;

#[test]
fn test_tube_new_empty() {
    let t = Tube::new(vec![], 1);
    assert_eq!(0, t.size());
    assert!(t.is_empty());
}

#[test]
fn test_tube_new_one_color() {
    let mut t = Tube::new(vec![Color::Pink], 1);
    assert_eq!(1, t.size());
    assert_eq!(1, t.pop().unwrap().count);
}

#[test]
fn test_tube_new_two_same_color() {
    let mut t = Tube::new(vec![Color::Red, Color::Red], 1);
    assert_eq!(1, t.colors.len());
    assert_eq!(2, t.pop().unwrap().count);
}

#[test]
fn test_tube_new_three_color() {
    let t = Tube::new(vec![Color::Red, Color::Red, Color::Blue], 1);
    assert_eq!(2, t.colors.len());
}

#[test]
fn test_tube_pop() {
    let mut t = Tube::new(vec![Color::Red, Color::Red, Color::Blue], 1);
    let c = t.pop();
    assert!(c.is_some());
    let c = c.unwrap();
    assert_eq!(2, c.count);
    assert_eq!(Color::Red, c.color);
}

#[test]
fn test_tube_size_full_and_push() {
    let mut t = Tube::new(vec![Color::Red, Color::Red, Color::Blue], 1);
    t.push(ColorBox::new(Color::Green, 1));
    assert_eq!(3, t.colors.len());
    assert!(t.is_full());
}

#[test]
fn test_solved() {
    let mut t = Tube::new(vec![], 1);
    assert!(t.solved());

    t.push(ColorBox::new(Color::LightBlue, 3));
    assert!(!t.solved());
    t.pop();

    t.push(ColorBox::new(Color::LightGreen, 3));
    assert!(!t.solved());

    t.push(ColorBox::new(Color::Pink, 1));
    assert!(!t.solved());
    t.pop();

    t.push(ColorBox::new(Color::LightGreen, 1));
    assert!(t.solved());
}

#[test]
fn test_fits() {
    let mut t = Tube::new(vec![], 1);
    assert!(t.fits(&ColorBox::new(Color::Purple, 1)));
    t.push(ColorBox::new(Color::Purple, 4));
    assert!(t.is_full());
    assert!(!t.fits(&ColorBox::new(Color::Purple, 1)));

    t.pop();
    t.push(ColorBox::new(Color::Grey, 1));

    assert!(t.fits(&ColorBox::new(Color::Grey, 1)));
    assert!(t.fits(&ColorBox::new(Color::Grey, 2)));
    assert!(t.fits(&ColorBox::new(Color::Grey, 3)));
    assert!(!t.fits(&ColorBox::new(Color::Grey, 4)));
}

#[test]
fn test_set_colors() {
    let mut t = Tube::new(vec![], 1);
    t.push(ColorBox::new(Color::Purple, 3));

    let c = t.colors.clone();
    t.pop();
    assert!(t.is_empty());

    t.push(ColorBox::new(Color::Grey, 1));
    assert_eq!(1, t.size());

    t.set_colors(c);
    assert_eq!(3, t.size());
    assert_eq!(1, t.colors.len());
}

#[test]
fn compression_merges_equal_neighbours() {
    // Units are listed top to bottom; segments are stored bottom to top.
    let t = Tube::new(vec![Color::Red, Color::Red, Color::Blue], 7);
    assert_eq!(t.colors, vec![ColorBox::new(Color::Blue, 1), ColorBox::new(Color::Red, 2)]);
    assert_eq!(t.tid, 7);
    let t = Tube::new(vec![Color::Red, Color::Blue, Color::Red, Color::Red], 1);
    assert_eq!(
        t.colors,
        vec![ColorBox::new(Color::Red, 2), ColorBox::new(Color::Blue, 1), ColorBox::new(Color::Red, 1)]
    );
}

#[test]
fn pop_of_empty_tube_is_none() {
    let mut t = Tube::new(vec![], 2);
    assert_eq!(t.pop(), None);
    assert!(t.is_empty());
}

#[test]
fn push_merges_same_color_and_appends_other() {
    let mut t = Tube::new(vec![Color::Red], 1);
    t.push(ColorBox::new(Color::Red, 2));
    assert_eq!(t.colors, vec![ColorBox::new(Color::Red, 3)]);
    t.push(ColorBox::new(Color::Blue, 1));
    assert_eq!(t.colors, vec![ColorBox::new(Color::Red, 3), ColorBox::new(Color::Blue, 1)]);
    assert_eq!(t.size(), 4);
}

#[test]
fn capacity_kept_over_pushes() {
    let mut t = Tube::new(vec![], 1);
    for _ in 0..4 {
        assert!(t.fits(&ColorBox::new(Color::Orange, 1)));
        t.push(ColorBox::new(Color::Orange, 1));
        assert!(t.size() <= 4);
    }
    assert!(t.is_full());
    assert!(!t.fits(&ColorBox::new(Color::Orange, 1)));
}

#[test]
fn fits_table() {
    let t = Tube::new(vec![], 1);
    assert!(t.fits(&ColorBox::new(Color::Yellow, 4)));
    let t = Tube::new(vec![Color::Red, Color::Blue, Color::Red, Color::Red], 1);
    assert!(!t.fits(&ColorBox::new(Color::Red, 1)));
    let t = Tube::new(vec![Color::Red, Color::Blue], 1);
    assert!(!t.fits(&ColorBox::new(Color::Blue, 1)));
    assert!(t.fits(&ColorBox::new(Color::Red, 2)));
    assert!(!t.fits(&ColorBox::new(Color::Red, 3)));
}

#[test]
fn solved_needs_full_and_one_color() {
    let t = Tube::new(vec![Color::Red, Color::Red, Color::Red, Color::Red], 1);
    assert!(t.solved());
    let t = Tube::new(vec![Color::Red, Color::Red, Color::Red], 1);
    assert!(!t.solved());
    let t = Tube::new(vec![Color::Red, Color::Red, Color::Red, Color::Blue], 1);
    assert!(!t.solved());
}

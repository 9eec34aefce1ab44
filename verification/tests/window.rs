use pitwall::number::ParseError;
use pitwall::window::Window;

fn filled(capacity: usize, values: &[i16]) -> Window {
    let mut w = Window::new(capacity);
    for v in values {
        w.push(*v);
    }
    w
}

fn held(w: &Window) -> Vec<i16> {
    w.last_n(usize::MAX, 0).into_iter().map(|(_, v)| v).collect()
}

#[test]
fn new_window_is_empty() {
    let w = Window::new(4);
    assert_eq!(w.last(), None);
    assert_eq!(w.len(), 0);
    assert_eq!(w.capacity(), 4);
    assert!(w.last_n(10, 0).is_empty());
}

#[test]
fn new_window_reports_absence_not_zero() {
    let w = Window::new(256);
    assert_ne!(w.last(), Some(&0));
    assert_eq!(w.last(), None);
}

#[test]
fn put_parses_and_appends() {
    let mut w = Window::new(4);
    assert_eq!(w.put("4500"), Ok(()));
    assert_eq!(w.last(), Some(&4500));
    assert_eq!(w.len(), 1);
}

#[test]
fn put_failure_leaves_window_unchanged() {
    let mut w = filled(3, &[1, 2, 3]);
    assert_eq!(w.put("abc"), Err(ParseError::InvalidDigit));
    assert_eq!(w.put(""), Err(ParseError::Empty));
    assert_eq!(w.put("40000"), Err(ParseError::PosOverflow));
    assert_eq!(w.put("-40000"), Err(ParseError::NegOverflow));
    assert_eq!(held(&w), vec![1, 2, 3]);
    assert_eq!(w.last(), Some(&3));
}

#[test]
fn put_accepts_the_whole_range() {
    let mut w = Window::new(2);
    assert_eq!(w.put("32767"), Ok(()));
    assert_eq!(w.last(), Some(&i16::MAX));
    assert_eq!(w.put("-32768"), Ok(()));
    assert_eq!(w.last(), Some(&i16::MIN));
    assert_eq!(held(&w), vec![i16::MAX, i16::MIN]);
}

#[test]
fn window_never_exceeds_capacity() {
    let capacity = 5;
    let mut w = Window::new(capacity);
    let texts = ["1", "x", "2", "3", "", "4", "5", "99999", "6", "7", "-8", "nine", "10"];
    let mut parsed: Vec<i16> = Vec::new();
    for t in texts {
        if let Ok(v) = t.parse::<i16>() {
            parsed.push(v);
        }
        let _ = w.put(t);
        assert!(w.len() <= capacity);
        assert_eq!(w.last(), parsed.last());
    }
    assert_eq!(parsed, vec![1, 2, 3, 4, 5, 6, 7, -8, 10]);
    assert_eq!(held(&w), vec![5, 6, 7, -8, 10]);
}

#[test]
fn eviction_is_first_in_first_out() {
    let mut w = Window::new(3);
    w.push(10);
    w.push(20);
    w.push(30);
    assert_eq!(held(&w), vec![10, 20, 30]);
    w.push(40);
    assert_eq!(held(&w), vec![20, 30, 40]);
    w.push(50);
    assert_eq!(held(&w), vec![30, 40, 50]);
    w.push(60);
    assert_eq!(held(&w), vec![40, 50, 60]);
    w.push(70);
    assert_eq!(held(&w), vec![50, 60, 70]);
    assert_eq!(w.len(), 3);
}

#[test]
fn window_holds_the_newest_after_many_rounds() {
    let capacity = 7;
    let mut w = Window::new(capacity);
    let mut all: Vec<i16> = Vec::new();
    for i in 0..100i16 {
        w.push(i * 3 - 50);
        all.push(i * 3 - 50);
        let from = all.len().saturating_sub(capacity);
        assert_eq!(held(&w), all[from..].to_vec());
        assert_eq!(w.last(), all.last());
    }
}

#[test]
fn capacity_zero_holds_nothing() {
    let mut w = Window::new(0);
    assert_eq!(w.put("5"), Ok(()));
    assert_eq!(w.last(), None);
    assert_eq!(w.len(), 0);
    assert!(w.last_n(1, 0).is_empty());
    assert_eq!(w.put("x"), Err(ParseError::InvalidDigit));
}

#[test]
fn capacity_one_holds_the_latest() {
    let mut w = Window::new(1);
    w.push(1);
    assert_eq!(held(&w), vec![1]);
    w.push(2);
    assert_eq!(held(&w), vec![2]);
    w.push(3);
    assert_eq!(w.last(), Some(&3));
    assert_eq!(w.len(), 1);
}

#[test]
fn last_n_pairs_samples_with_positions() {
    let w = filled(10, &[5, 6, 7, 8, 9]);
    assert_eq!(w.last_n(3, 0), vec![(0, 7), (1, 8), (2, 9)]);
    assert_eq!(w.last_n(5, 0), vec![(0, 5), (1, 6), (2, 7), (3, 8), (4, 9)]);
    assert_eq!(w.last_n(1, 0), vec![(0, 9)]);
    assert_eq!(w.last_n(0, 0), vec![]);
}

#[test]
fn last_n_ends_offset_samples_before_the_newest() {
    let w = filled(10, &[5, 6, 7, 8, 9]);
    assert_eq!(w.last_n(2, 1), vec![(0, 7), (1, 8)]);
    assert_eq!(w.last_n(2, 3), vec![(0, 5), (1, 6)]);
    assert_eq!(w.last_n(1, 4), vec![(0, 5)]);
    assert_eq!(w.last_n(0, 2), vec![]);
}

#[test]
fn last_n_clamps_to_what_is_there() {
    let w = filled(10, &[5, 6, 7, 8, 9]);
    assert_eq!(w.last_n(100, 0), vec![(0, 5), (1, 6), (2, 7), (3, 8), (4, 9)]);
    assert_eq!(w.last_n(100, 2), vec![(0, 5), (1, 6), (2, 7)]);
    assert_eq!(w.last_n(4, 3), vec![(0, 5), (1, 6)]);
    assert_eq!(w.last_n(3, 5), vec![]);
    assert_eq!(w.last_n(3, 6), vec![]);
    assert_eq!(w.last_n(3, 100), vec![]);
}

#[test]
fn last_n_never_panics_on_huge_arguments() {
    let w = filled(4, &[1, 2, 3, 4, 5, 6]);
    assert_eq!(w.last_n(usize::MAX, 0), vec![(0, 3), (1, 4), (2, 5), (3, 6)]);
    assert_eq!(w.last_n(usize::MAX, 1), vec![(0, 3), (1, 4), (2, 5)]);
    assert_eq!(w.last_n(usize::MAX, usize::MAX), vec![]);
    assert_eq!(w.last_n(1, usize::MAX), vec![]);
    assert_eq!(w.last_n(usize::MAX - 1, 3), vec![(0, 3)]);
    let empty = Window::new(4);
    assert_eq!(empty.last_n(usize::MAX, usize::MAX), vec![]);
    assert_eq!(empty.last_n(0, 0), vec![]);
    assert_eq!(empty.last_n(usize::MAX, 0), vec![]);
}

#[test]
fn last_n_reads_across_the_wrap() {
    let mut w = Window::new(4);
    for v in 1..=6 {
        w.push(v);
    }
    assert_eq!(held(&w), vec![3, 4, 5, 6]);
    assert_eq!(w.last_n(3, 0), vec![(0, 4), (1, 5), (2, 6)]);
    assert_eq!(w.last_n(2, 1), vec![(0, 4), (1, 5)]);
    assert_eq!(w.last_n(2, 2), vec![(0, 3), (1, 4)]);
    w.push(7);
    w.push(8);
    assert_eq!(held(&w), vec![5, 6, 7, 8]);
    assert_eq!(w.last_n(4, 0), vec![(0, 5), (1, 6), (2, 7), (3, 8)]);
    assert_eq!(w.last(), Some(&8));
}

#[test]
fn last_n_agrees_with_a_plain_list_for_all_small_arguments() {
    for capacity in 0..6usize {
        let mut w = Window::new(capacity);
        let mut all: Vec<i16> = Vec::new();
        for step in 0..15i16 {
            for n in 0..8usize {
                for offset in 0..8usize {
                    let from = all.len().saturating_sub(capacity);
                    let kept = &all[from..];
                    let end = kept.len().saturating_sub(offset);
                    let start = end.saturating_sub(n);
                    let expected: Vec<(usize, i16)> =
                        kept[start..end].iter().copied().enumerate().collect();
                    assert_eq!(w.last_n(n, offset), expected);
                }
            }
            w.push(step * 7);
            all.push(step * 7);
        }
    }
}

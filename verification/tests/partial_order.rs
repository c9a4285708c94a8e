use bisection::{bisect_left, bisect_right, insort_left, insort_right};

fn ladder() -> Vec<i32> {
    vec![1, 2, 2, 3, 3, 3, 4, 4, 4, 4]
}

fn ladder_of_floats() -> Vec<f64> {
    vec![1.0, 2.0, 2.0, 3.0, 3.0, 3.0, 4.0, 4.0, 4.0, 4.0]
}

#[test]
fn bisect_right_on_integers() {
    let cases: Vec<(Vec<i32>, i32, usize)> = vec![
        (vec![], 1, 0),
        (vec![1], 0, 0),
        (vec![1], 1, 1),
        (vec![1], 2, 1),
        (vec![1, 1], 0, 0),
        (vec![1, 1], 1, 2),
        (vec![1, 1], 2, 2),
        (vec![1, 1, 1], 0, 0),
        (vec![1, 1, 1], 1, 3),
        (vec![1, 1, 1], 2, 3),
        (vec![1, 1, 1, 1], 0, 0),
        (vec![1, 1, 1, 1], 1, 4),
        (vec![1, 1, 1, 1], 2, 4),
        (vec![1, 2], 0, 0),
        (vec![1, 2], 1, 1),
        (vec![1, 2], 2, 2),
        (vec![1, 2], 3, 2),
        (vec![1, 1, 2, 2], 0, 0),
        (vec![1, 1, 2, 2], 1, 2),
        (vec![1, 1, 2, 2], 2, 4),
        (vec![1, 1, 2, 2], 3, 4),
        (vec![1, 2, 3], 0, 0),
        (vec![1, 2, 3], 1, 1),
        (vec![1, 2, 3], 2, 2),
        (vec![1, 2, 3], 3, 3),
        (vec![1, 2, 3], 4, 3),
        (ladder(), 0, 0),
        (ladder(), 1, 1),
        (ladder(), 2, 3),
        (ladder(), 3, 6),
        (ladder(), 4, 10),
        (ladder(), 5, 10),
    ];
    for (a, x, expected) in cases {
        assert_eq!(expected, bisect_right(&a, &x));
    }
}

#[test]
fn bisect_right_on_floats() {
    let cases: Vec<(Vec<f64>, f64, usize)> = vec![
        (vec![1.0, 2.0], 1.5, 1),
        (vec![1.0, 1.0, 2.0, 2.0], 1.5, 2),
        (vec![1.0, 2.0, 3.0], 1.5, 1),
        (vec![1.0, 2.0, 3.0], 2.5, 2),
        (ladder_of_floats(), 1.5, 1),
        (ladder_of_floats(), 2.5, 3),
        (ladder_of_floats(), 3.0, 6),
    ];
    for (a, x, expected) in cases {
        assert_eq!(expected, bisect_right(&a, &x));
    }
}

#[test]
fn bisect_left_on_integers() {
    let cases: Vec<(Vec<i32>, i32, usize)> = vec![
        (vec![], 1, 0),
        (vec![1], 0, 0),
        (vec![1], 1, 0),
        (vec![1], 2, 1),
        (vec![1, 1], 0, 0),
        (vec![1, 1], 1, 0),
        (vec![1, 1], 2, 2),
        (vec![1, 1, 1], 0, 0),
        (vec![1, 1, 1], 1, 0),
        (vec![1, 1, 1], 2, 3),
        (vec![1, 1, 1, 1], 0, 0),
        (vec![1, 1, 1, 1], 1, 0),
        (vec![1, 1, 1, 1], 2, 4),
        (vec![1, 2], 0, 0),
        (vec![1, 2], 1, 0),
        (vec![1, 2], 2, 1),
        (vec![1, 2], 3, 2),
        (vec![1, 1, 2, 2], 0, 0),
        (vec![1, 1, 2, 2], 1, 0),
        (vec![1, 1, 2, 2], 2, 2),
        (vec![1, 1, 2, 2], 3, 4),
        (vec![1, 2, 3], 0, 0),
        (vec![1, 2, 3], 1, 0),
        (vec![1, 2, 3], 2, 1),
        (vec![1, 2, 3], 3, 2),
        (vec![1, 2, 3], 4, 3),
        (ladder(), 0, 0),
        (ladder(), 1, 0),
        (ladder(), 2, 1),
        (ladder(), 3, 3),
        (ladder(), 4, 6),
        (ladder(), 5, 10),
    ];
    for (a, x, expected) in cases {
        assert_eq!(expected, bisect_left(&a, &x));
    }
}

#[test]
fn bisect_left_on_floats() {
    let cases: Vec<(Vec<f64>, f64, usize)> = vec![
        (vec![1.0, 2.0], 1.5, 1),
        (vec![1.0, 1.0, 2.0, 2.0], 1.5, 2),
        (vec![1.0, 2.0, 3.0], 1.5, 1),
        (vec![1.0, 2.0, 3.0], 2.5, 2),
        (ladder_of_floats(), 1.5, 1),
        (ladder_of_floats(), 2.5, 3),
        (ladder_of_floats(), 3.5, 6),
    ];
    for (a, x, expected) in cases {
        assert_eq!(expected, bisect_left(&a, &x));
    }
}

/// A value ordered by its key alone, so that equal values can be told apart.
#[derive(Clone, Copy, Debug)]
struct Tagged {
    key: u32,
    tag: char,
}

impl PartialEq for Tagged {
    fn eq(&self, other: &Tagged) -> bool {
        self.key == other.key
    }
}

impl PartialOrd for Tagged {
    fn partial_cmp(&self, other: &Tagged) -> Option<std::cmp::Ordering> {
        self.key.partial_cmp(&other.key)
    }
}

fn tags(a: &Vec<Tagged>) -> String {
    a.iter().map(|t| t.tag).collect()
}

#[test]
fn insort_left_goes_before_its_equals() {
    let mut a = vec![
        Tagged { key: 1, tag: 'a' },
        Tagged { key: 2, tag: 'b' },
        Tagged { key: 2, tag: 'c' },
        Tagged { key: 3, tag: 'd' },
    ];
    insort_left(&mut a, Tagged { key: 2, tag: 'x' });
    assert_eq!(tags(&a), "axbcd");
}

#[test]
fn insort_right_goes_behind_its_equals() {
    let mut a = vec![
        Tagged { key: 1, tag: 'a' },
        Tagged { key: 2, tag: 'b' },
        Tagged { key: 2, tag: 'c' },
        Tagged { key: 3, tag: 'd' },
    ];
    insort_right(&mut a, Tagged { key: 2, tag: 'x' });
    assert_eq!(tags(&a), "abcxd");
}

#[test]
fn insort_right_is_a_stable_sort() {
    // what a stable sort makes of the elements in the order they arrive
    let arrivals: Vec<(u32, char)> =
        vec![(5, 'a'), (1, 'b'), (5, 'c'), (3, 'd'), (1, 'e'), (5, 'f'), (0, 'g'), (3, 'h')];
    let mut insorted: Vec<Tagged> = Vec::new();
    let mut appended: Vec<Tagged> = Vec::new();
    for (key, tag) in arrivals {
        insort_right(&mut insorted, Tagged { key, tag });
        appended.push(Tagged { key, tag });
        let mut sorted = appended.clone();
        sorted.sort_by_key(|t| t.key);
        assert_eq!(tags(&sorted), tags(&insorted));
    }
    assert_eq!(tags(&insorted), "gbedhacf");
}

#[test]
fn insort_on_floats() {
    let mut a: Vec<f64> = vec![0.5, 1.5, 2.5];
    insort_left(&mut a, 2.0);
    insort_right(&mut a, 0.25);
    insort_right(&mut a, 3.0);
    assert_eq!(a, vec![0.25, 0.5, 1.5, 2.0, 2.5, 3.0]);
}

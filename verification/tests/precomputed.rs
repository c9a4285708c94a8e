use bisection::bisect::{bisect_left, bisect_left_slice, bisect_right, bisect_right_slice};

#[derive(Clone, Copy, Debug)]
enum Direction {
    Left,
    Right,
}

struct Case {
    a: &'static [i32],
    x: i32,
    expected_index: usize,
}

fn case(a: &'static [i32], x: i32, expected_index: usize) -> Case {
    Case { a, x, expected_index }
}

fn right_int_cases() -> Vec<Case> {
    vec![
        case(&[], 1, 0),
        case(&[1], 0, 0),
        case(&[1], 1, 1),
        case(&[1], 2, 1),
        case(&[1, 1], 0, 0),
        case(&[1, 1], 1, 2),
        case(&[1, 1], 2, 2),
        case(&[1, 1, 1], 0, 0),
        case(&[1, 1, 1], 1, 3),
        case(&[1, 1, 1], 2, 3),
        case(&[1, 1, 1, 1], 0, 0),
        case(&[1, 1, 1, 1], 1, 4),
        case(&[1, 1, 1, 1], 2, 4),
        case(&[1, 2], 0, 0),
        case(&[1, 2], 1, 1),
        case(&[1, 2], 2, 2),
        case(&[1, 2], 3, 2),
        case(&[1, 1, 2, 2], 0, 0),
        case(&[1, 1, 2, 2], 1, 2),
        case(&[1, 1, 2, 2], 2, 4),
        case(&[1, 1, 2, 2], 3, 4),
        case(&[1, 2, 3], 0, 0),
        case(&[1, 2, 3], 1, 1),
        case(&[1, 2, 3], 2, 2),
        case(&[1, 2, 3], 3, 3),
        case(&[1, 2, 3], 4, 3),
        case(&[1, 2, 2, 3, 3, 3, 4, 4, 4, 4], 0, 0),
        case(&[1, 2, 2, 3, 3, 3, 4, 4, 4, 4], 1, 1),
        case(&[1, 2, 2, 3, 3, 3, 4, 4, 4, 4], 2, 3),
        case(&[1, 2, 2, 3, 3, 3, 4, 4, 4, 4], 3, 6),
        case(&[1, 2, 2, 3, 3, 3, 4, 4, 4, 4], 4, 10),
        case(&[1, 2, 2, 3, 3, 3, 4, 4, 4, 4], 5, 10),
    ]
}

fn left_int_cases() -> Vec<Case> {
    vec![
        case(&[], 1, 0),
        case(&[1], 0, 0),
        case(&[1], 1, 0),
        case(&[1], 2, 1),
        case(&[1, 1], 0, 0),
        case(&[1, 1], 1, 0),
        case(&[1, 1], 2, 2),
        case(&[1, 1, 1], 0, 0),
        case(&[1, 1, 1], 1, 0),
        case(&[1, 1, 1], 2, 3),
        case(&[1, 1, 1, 1], 0, 0),
        case(&[1, 1, 1, 1], 1, 0),
        case(&[1, 1, 1, 1], 2, 4),
        case(&[1, 2], 0, 0),
        case(&[1, 2], 1, 0),
        case(&[1, 2], 2, 1),
        case(&[1, 2], 3, 2),
        case(&[1, 1, 2, 2], 0, 0),
        case(&[1, 1, 2, 2], 1, 0),
        case(&[1, 1, 2, 2], 2, 2),
        case(&[1, 1, 2, 2], 3, 4),
        case(&[1, 2, 3], 0, 0),
        case(&[1, 2, 3], 1, 0),
        case(&[1, 2, 3], 2, 1),
        case(&[1, 2, 3], 3, 2),
        case(&[1, 2, 3], 4, 3),
        case(&[1, 2, 2, 3, 3, 3, 4, 4, 4, 4], 0, 0),
        case(&[1, 2, 2, 3, 3, 3, 4, 4, 4, 4], 1, 0),
        case(&[1, 2, 2, 3, 3, 3, 4, 4, 4, 4], 2, 1),
        case(&[1, 2, 2, 3, 3, 3, 4, 4, 4, 4], 3, 3),
        case(&[1, 2, 2, 3, 3, 3, 4, 4, 4, 4], 4, 6),
        case(&[1, 2, 2, 3, 3, 3, 4, 4, 4, 4], 5, 10),
    ]
}

fn run_bisect_tests(direction: Direction, cases: Vec<Case>) {
    for test_case in &cases {
        let data = test_case.a.to_vec();
        let found = match direction {
            Direction::Left => bisect_left(&data, &test_case.x),
            Direction::Right => bisect_right(&data, &test_case.x),
        };
        assert_eq!(test_case.expected_index, found);
    }
}

fn run_bisect_slice_tests(direction: Direction, cases: Vec<Case>) {
    for test_case in &cases {
        let data = test_case.a.to_vec();
        for lo in 0..4 {
            for hi in 3..8 {
                let hi = std::cmp::min(data.len(), hi);
                let ip = match direction {
                    Direction::Left => bisect_left_slice(&data, &test_case.x, Some(lo), Some(hi)),
                    Direction::Right => {
                        bisect_right_slice(&data, &test_case.x, Some(lo), Some(hi))
                    }
                };

                match direction {
                    Direction::Left => {
                        if ip < hi {
                            assert!(test_case.x <= data[ip]);
                        }

                        if ip > lo {
                            assert!(data[ip - 1] < test_case.x)
                        }
                    }
                    Direction::Right => {
                        if ip < hi {
                            assert!(test_case.x < data[ip]);
                        }

                        if ip > lo {
                            assert!(data[ip - 1] <= test_case.x)
                        }
                    }
                }

                assert_eq!(
                    ip,
                    std::cmp::max(lo, std::cmp::min(hi, test_case.expected_index))
                );
            }
        }
    }
}

#[test]
fn bisect_right_precomputed() {
    run_bisect_tests(Direction::Right, right_int_cases());
}

#[test]
fn bisect_left_precomputed() {
    run_bisect_tests(Direction::Left, left_int_cases());
}

#[test]
fn bisect_right_slice_precomputed() {
    run_bisect_slice_tests(Direction::Right, right_int_cases());
}

#[test]
fn bisect_left_slice_precomputed() {
    run_bisect_slice_tests(Direction::Left, left_int_cases());
}

use kenken::asg::Assignment;
use kenken::kenken::{Area, Field, KenKen, Type};
use kenken::solve::{solve, SolveError};

fn check_solution(k: &KenKen, asg: &Assignment) {
    // every cell holds a value in range, no value off the grid
    for x in 0..k.size {
        for y in 0..k.size {
            let v = asg.get(&Field(x, y)).expect("cell left unfilled");
            assert!(1 <= v && v <= k.size);
        }
    }
    assert_eq!(asg.get(&Field(k.size, 0)), None);
    // no two cells of a row or column hold the same value
    for x in 0..k.size {
        for y in 0..k.size {
            let v = asg.get(&Field(x, y)).unwrap();
            for x2 in 0..k.size {
                if x2 != x {
                    assert_ne!(asg.get(&Field(x2, y)).unwrap(), v);
                }
            }
            for y2 in 0..k.size {
                if y2 != y {
                    assert_ne!(asg.get(&Field(x, y2)).unwrap(), v);
                }
            }
        }
    }
    // every cage reaches its target
    for area in &k.areas {
        match area.ty {
            Type::Add => {
                let mut sum: u64 = 0;
                for f in &area.fields {
                    sum += asg.get(f).unwrap() as u64;
                }
                assert_eq!(sum, area.solution);
            }
            Type::Mul => {
                let mut prod: u64 = 1;
                for f in &area.fields {
                    prod *= asg.get(f).unwrap() as u64;
                }
                assert_eq!(prod, area.solution);
            }
            Type::Sub => {
                let a = asg.get(&area.fields[0]).unwrap();
                let b = asg.get(&area.fields[1]).unwrap();
                let diff = if a > b { a - b } else { b - a };
                assert_eq!(diff as u64, area.solution);
            }
            Type::Div => {
                let a = asg.get(&area.fields[0]).unwrap();
                let b = asg.get(&area.fields[1]).unwrap();
                let (lo, hi) = if a > b { (b, a) } else { (a, b) };
                assert_eq!(lo as u64 * area.solution, hi as u64);
            }
            Type::Single => {
                assert_eq!(asg.get(&area.fields[0]).unwrap() as u64, area.solution);
            }
        }
    }
}

#[test]
fn test_solve_two_by_two() {
    let k = KenKen {
        id: 1,
        areas: vec![
            Area::new(Type::Add, 3, vec![Field(0, 0), Field(1, 0)]),
            Area::new(Type::Add, 3, vec![Field(0, 1), Field(1, 1)]),
        ],
        size: 2,
    };
    let asg = solve(&k).expect("a 2x2 puzzle with row sums 3 is solvable");
    check_solution(&k, &asg);
}

#[test]
fn test_solve_three_by_three_mixed() {
    // one solution: row 0 = 1 2 3, row 1 = 2 3 1, row 2 = 3 1 2
    let k = KenKen {
        id: 2,
        areas: vec![
            Area::new(Type::Single, 1, vec![Field(0, 0)]),
            Area::new(Type::Sub, 1, vec![Field(1, 0), Field(2, 0)]),
            Area::new(Type::Div, 3, vec![Field(1, 1), Field(2, 1)]),
            Area::new(Type::Mul, 6, vec![Field(0, 1), Field(0, 2)]),
            Area::new(Type::Add, 3, vec![Field(1, 2), Field(2, 2)]),
        ],
        size: 3,
    };
    let asg = solve(&k).expect("the 3x3 puzzle has a solution");
    check_solution(&k, &asg);
}

#[test]
fn test_solve_unsatisfiable() {
    // two fixed equal values in one row cannot coexist
    let k = KenKen {
        id: 3,
        areas: vec![
            Area::new(Type::Single, 1, vec![Field(0, 0)]),
            Area::new(Type::Single, 1, vec![Field(1, 0)]),
            Area::new(Type::Single, 2, vec![Field(0, 1)]),
            Area::new(Type::Single, 2, vec![Field(1, 1)]),
        ],
        size: 2,
    };
    assert_eq!(solve(&k).unwrap_err(), SolveError::Unsatisfiable);
}

#[test]
fn test_solve_no_candidates() {
    // the first cage cannot reach 100 with two values of at most 2
    let k = KenKen {
        id: 4,
        areas: vec![
            Area::new(Type::Add, 100, vec![Field(0, 0), Field(1, 0)]),
            Area::new(Type::Add, 3, vec![Field(0, 1), Field(1, 1)]),
        ],
        size: 2,
    };
    assert_eq!(solve(&k).unwrap_err(), SolveError::NoCandidates);
}

#[test]
fn test_solve_malformed_cage() {
    // a Sub cage must hold exactly two fields
    let k = KenKen {
        id: 5,
        areas: vec![
            Area::new(Type::Sub, 1, vec![Field(0, 0), Field(1, 0), Field(0, 1)]),
            Area::new(Type::Single, 1, vec![Field(1, 1)]),
        ],
        size: 2,
    };
    assert_eq!(solve(&k).unwrap_err(), SolveError::MalformedCage);
}

#[test]
fn test_solve_single_cell_grid() {
    let k = KenKen {
        id: 6,
        areas: vec![Area::new(Type::Single, 1, vec![Field(0, 0)])],
        size: 1,
    };
    let asg = solve(&k).expect("a one-cell grid with target 1 is solvable");
    check_solution(&k, &asg);
}

#[test]
fn test_solve_four_by_four() {
    // built around the grid 1234 / 2143 / 3412 / 4321
    let k = KenKen {
        id: 7,
        areas: vec![
            Area::new(Type::Mul, 4, vec![Field(0, 0), Field(1, 0), Field(0, 1)]),
            Area::new(Type::Add, 7, vec![Field(2, 0), Field(3, 0)]),
            Area::new(Type::Sub, 3, vec![Field(1, 1), Field(2, 1)]),
            Area::new(Type::Single, 3, vec![Field(3, 1)]),
            Area::new(Type::Div, 2, vec![Field(2, 2), Field(2, 3)]),
            Area::new(Type::Add, 7, vec![Field(0, 2), Field(1, 2)]),
            Area::new(Type::Add, 7, vec![Field(0, 3), Field(1, 3)]),
            Area::new(Type::Single, 2, vec![Field(3, 2)]),
            Area::new(Type::Single, 1, vec![Field(3, 3)]),
        ],
        size: 4,
    };
    let asg = solve(&k).expect("the 4x4 puzzle has a solution");
    check_solution(&k, &asg);
}

#[test]
fn test_solve_single_target_out_of_range() {
    // the first cage's target cannot be played on a grid of side 2
    let k = KenKen {
        id: 8,
        areas: vec![
            Area::new(Type::Single, 3, vec![Field(0, 0)]),
            Area::new(Type::Single, 2, vec![Field(1, 0)]),
            Area::new(Type::Single, 2, vec![Field(0, 1)]),
            Area::new(Type::Single, 1, vec![Field(1, 1)]),
        ],
        size: 2,
    };
    assert_eq!(solve(&k).unwrap_err(), SolveError::NoCandidates);
}

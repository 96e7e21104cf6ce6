use nonogram::{Algorithm, SolutionResult, Solver};
use std::collections::HashSet;

fn assert_solved(result: &SolutionResult, expected: &[&str]) {
    if let SolutionResult::Solved(flds) = result {
        assert_eq!(
            flds.fields().iter().map(|f| f.to_string()).collect::<HashSet<String>>(),
            expected.iter().map(|x| x.to_string()).collect::<HashSet<String>>()
        );
    } else {
        panic!("Not solved: {result:?}");
    }
}

#[test]
fn solve_by_line() {
    let mut solver = Solver::from_hints(
        vec![vec![5], vec![1], vec![5], vec![1], vec![5]],
        vec![vec![3, 1], vec![1, 1, 1], vec![1, 1, 1], vec![1, 1, 1], vec![1, 3]],
        0,
        false,
        Algorithm::ByLines,
    );
    assert_solved(&solver.solve(), &["\
            #####\n\
            #....\n\
            #####\n\
            ....#\n\
            #####\n\
    "]);
}

#[test]
fn solve_ambiguous() {
    for algorithm in [Algorithm::TwoSat, Algorithm::Naive] {
        let mut solver =
            Solver::from_hints(vec![vec![1], vec![1]], vec![vec![1], vec![1]], 3, true, algorithm);
        assert_solved(
            &solver.solve(),
            &[
                "#.\n\
                 .#\n",
                ".#\n\
                 #.\n",
            ],
        );
    }
}

#[test]
fn solve_double_ambiguous_naive() {
    for algorithm in [Algorithm::TwoSat, Algorithm::Naive] {
        let mut solver = Solver::from_hints(
            vec![vec![1, 1], vec![1, 1]],
            vec![vec![1], vec![1], vec![], vec![1], vec![1]],
            2,
            true,
            algorithm,
        );
        assert_solved(
            &solver.solve(),
            &[
                "#..#.\n\
                 .#..#\n",
                "#...#\n\
                 .#.#.\n",
                ".#..#\n\
                 #..#.\n",
                ".#.#.\n\
                 #...#\n",
            ],
        );
    }
}

#[test]
fn solve_controversial() {
    for algorithm in [Algorithm::ByLines, Algorithm::Naive, Algorithm::TwoSat] {
        let mut solver =
            Solver::from_hints(vec![vec![2]], vec![vec![1], vec![1], vec![1]], 3, false, algorithm);
        assert!(matches!(solver.solve(), SolutionResult::Controversial));
    }
}

#[test]
fn solve_first_solution_is_deterministic() {
    // The ambiguous two-cell puzzle has two solutions; without find-all each
    // engine picks one deterministically. The case-split tries cells in
    // row-major order, filled first, so it fills the top-left cell; the
    // pairwise engine reaches a solution through the pair whose second cell
    // precedes its first, which empties the top-left cell.
    let mut naive =
        Solver::from_hints(vec![vec![1], vec![1]], vec![vec![1], vec![1]], 3, false, Algorithm::Naive);
    assert_solved(
        &naive.solve(),
        &["#.\n\
           .#\n"],
    );
    let mut two_sat = Solver::from_hints(
        vec![vec![1], vec![1]],
        vec![vec![1], vec![1]],
        3,
        false,
        Algorithm::TwoSat,
    );
    assert_solved(
        &two_sat.solve(),
        &[".#\n\
           #.\n"],
    );
}

#[test]
fn solve_single_finds_one_whenever_find_all_would() {
    // Wherever the enumerating mode solves the puzzle, the first-solution
    // mode reports a nonempty solution set too.
    for algorithm in [Algorithm::Naive, Algorithm::TwoSat] {
        let mut all =
            Solver::from_hints(vec![vec![1], vec![1]], vec![vec![1], vec![1]], 3, true, algorithm);
        let all_result = all.solve();
        let mut one =
            Solver::from_hints(vec![vec![1], vec![1]], vec![vec![1], vec![1]], 3, false, algorithm);
        let one_result = one.solve();
        match (all_result, one_result) {
            (SolutionResult::Solved(alls), SolutionResult::Solved(ones)) => {
                assert!(alls.len() >= 1);
                assert!(ones.len() >= 1);
                let all_strings: HashSet<String> =
                    alls.fields().iter().map(|f| f.to_string()).collect();
                for f in ones.fields() {
                    assert!(all_strings.contains(&f.to_string()));
                }
            },
            other => panic!("expected both modes to solve, got {other:?}"),
        }
    }
}

#[test]
fn solve_unsolved_reports_partial_grid() {
    // With no search budget, an ambiguous puzzle stays unsolved and the
    // forced moves found so far decide no cell twice.
    let mut solver =
        Solver::from_hints(vec![vec![1], vec![1]], vec![vec![1], vec![1]], 0, false, Algorithm::Naive);
    match solver.solve() {
        SolutionResult::Unsolved(changes) => {
            let coords: HashSet<(usize, usize)> = changes.iter().map(|a| a.coords).collect();
            assert_eq!(coords.len(), changes.len());
        },
        other => panic!("expected unsolved, got {other:?}"),
    }
}

#[test]
fn solved_grids_satisfy_their_hints() {
    // Every solution of the uniquely solvable puzzle is fully decided and
    // renders without any undecided cell.
    let mut solver = Solver::from_hints(
        vec![vec![5], vec![1], vec![5], vec![1], vec![5]],
        vec![vec![3, 1], vec![1, 1, 1], vec![1, 1, 1], vec![1, 1, 1], vec![1, 3]],
        3,
        true,
        Algorithm::Naive,
    );
    match solver.solve() {
        SolutionResult::Solved(s) => {
            assert_eq!(s.len(), 1);
            for f in s.fields() {
                assert!(f.is_solved());
                assert!(!f.to_string().contains('~'));
            }
        },
        other => panic!("expected solved, got {other:?}"),
    }
}

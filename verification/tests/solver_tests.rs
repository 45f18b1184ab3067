use digits::Operations;
use digits::Puzzle;
use digits::PuzzleEquation;

#[test]
fn find_solutions() {
    let p = Puzzle::new(66, &[1, 3, 5, 10, 4, 25]).solve();
    assert!(p.is_some());
    let p = Puzzle::new(126, &[2, 10, 3, 15, 9, 25]).solve();
    assert!(p.is_some());
    let p = Puzzle::new(234, &[3, 8, 4, 9, 6, 11]).solve();
    assert!(p.is_some());
    let p = Puzzle::new(335, &[5, 11, 6, 15, 8, 20]).solve();
    assert!(p.is_some());
    let p = Puzzle::new(476, &[5, 19, 7, 20, 11, 23]).solve();
    assert!(p.is_some());
}

#[test]
fn new_pool_is_sorted_and_deduplicated() {
    let p = Puzzle::new(50, &[5, 5, 3, 3, 1, 1]);
    assert_eq!(p.numbers().clone(), vec![1, 3, 5]);
    assert_eq!(p.solution(), 50);
    assert!(p.history().is_empty());
}

#[test]
fn solved_root_has_empty_history() {
    let root = Puzzle::new(10, &[10, 1, 2, 3, 4, 5]);
    assert!(root.is_solved());
    let p = root.solve().unwrap();
    assert!(p.history().is_empty());
    assert!(p.numbers().contains(&10));
    assert_eq!(p.numbers().clone(), root.numbers().clone());
}

#[test]
fn expansion_is_safe() {
    let root = Puzzle::new(100, &[1, 2, 3, 4, 5, 6]);
    let children = root.expand();
    for child in &children {
        // pools stay strictly ascending (so distinct) and shrink
        let pool = child.numbers();
        for w in pool.windows(2) {
            assert!(w[0] < w[1]);
        }
        assert!(pool.len() < 6);
        // a division is only ever recorded with a nonzero divisor
        let eq = *child.history().last().unwrap();
        if eq.operation == Operations::Divide {
            assert_ne!(eq.n0, 0);
        }
        assert_eq!(child.history().len(), 1);
        assert_eq!(child.solution(), 100);
    }
}

#[test]
fn expansion_counts_applicable_operations() {
    // 15 pairs; add, subtract and multiply always apply to these small
    // numbers; divide applies to the 8 evenly dividing pairs:
    // (1,2) (1,3) (1,4) (1,5) (1,6) (2,4) (2,6) (3,6)
    let root = Puzzle::new(100, &[1, 2, 3, 4, 5, 6]);
    let children = root.expand();
    assert_eq!(children.len(), 15 * 3 + 8);
}

#[test]
fn first_solution_by_addition() {
    let p = Puzzle::new(7, &[1, 3, 4, 9, 10, 25]).solve().unwrap();
    let expected = PuzzleEquation { n0: 3, n1: 4, operation: Operations::Add, result: 7 };
    assert_eq!(p.history().clone(), vec![expected]);
    assert!(p.numbers().contains(&7));
}

#[test]
fn first_solution_by_subtraction() {
    let p = Puzzle::new(5, &[4, 9, 11, 13, 17, 23]).solve().unwrap();
    let expected = PuzzleEquation { n0: 4, n1: 9, operation: Operations::Subtract, result: 5 };
    assert_eq!(p.history().clone(), vec![expected]);
}

#[test]
fn first_solution_by_multiplication() {
    let p = Puzzle::new(36, &[4, 9, 11, 13, 17, 23]).solve().unwrap();
    let expected = PuzzleEquation { n0: 4, n1: 9, operation: Operations::Multiply, result: 36 };
    assert_eq!(p.history().clone(), vec![expected]);
}

#[test]
fn first_solution_by_division() {
    let p = Puzzle::new(5, &[2, 10, 11, 13, 17, 23]).solve().unwrap();
    let expected = PuzzleEquation { n0: 2, n1: 10, operation: Operations::Divide, result: 5 };
    assert_eq!(p.history().clone(), vec![expected]);
}

fn replay_equation(pool: &mut Vec<u32>, eq: &PuzzleEquation) {
    // both operands must be present; each is consumed once
    let i = pool.iter().position(|&x| x == eq.n1).unwrap();
    pool.remove(i);
    let i = pool.iter().position(|&x| x == eq.n0).unwrap();
    pool.remove(i);
    let computed = match eq.operation {
        Operations::Add => eq.n1 + eq.n0,
        Operations::Subtract => eq.n1 - eq.n0,
        Operations::Multiply => eq.n1 * eq.n0,
        Operations::Divide => eq.n1 / eq.n0,
    };
    assert_eq!(computed, eq.result);
    if !pool.contains(&eq.result) {
        pool.push(eq.result);
        pool.sort();
    }
}

#[test]
fn history_replays_to_final_pool() {
    let root = Puzzle::new(126, &[2, 10, 3, 15, 9, 25]);
    let p = root.solve().unwrap();
    let mut pool = root.numbers().clone();
    for eq in p.history() {
        replay_equation(&mut pool, eq);
    }
    assert_eq!(pool, p.numbers().clone());
    assert!(pool.contains(&126));
}

#[test]
fn solution_has_minimal_length() {
    // 23 cannot be made in one operation from this pool, but can in two
    // (for instance 25 - 3 = 22, then 22 + 1 = 23), so breadth-first search
    // must come back with a two-equation history
    let p = Puzzle::new(23, &[1, 3, 4, 9, 10, 25]).solve().unwrap();
    assert_eq!(p.history().len(), 2);
    assert!(p.numbers().contains(&23));
}

#[test]
fn solving_twice_gives_equal_results() {
    let a = Puzzle::new(66, &[1, 3, 5, 10, 4, 25]).solve().unwrap();
    let b = Puzzle::new(66, &[1, 3, 5, 10, 4, 25]).solve().unwrap();
    assert_eq!(a.numbers().clone(), b.numbers().clone());
    assert_eq!(a.solution(), b.solution());
    assert_eq!(a.history().clone(), b.history().clone());
}

#[test]
fn input_order_does_not_matter() {
    let a = Puzzle::new(66, &[1, 3, 5, 10, 4, 25]);
    let b = Puzzle::new(66, &[25, 4, 10, 5, 3, 1]);
    assert_eq!(a.numbers().clone(), b.numbers().clone());
    let ra = a.solve().unwrap();
    let rb = b.solve().unwrap();
    assert_eq!(ra.numbers().clone(), rb.numbers().clone());
    assert_eq!(ra.history().clone(), rb.history().clone());
}

#[test]
fn unreachable_target_reports_no_solution() {
    // six identical numbers collapse to a single pool entry, which admits
    // no pairs at all
    let p = Puzzle::new(1000000, &[1, 1, 1, 1, 1, 1]).solve();
    assert!(p.is_none());
}

#[test]
fn exhausted_frontier_reports_no_solution() {
    let p = Puzzle::new(1000000, &[1, 1, 1, 1, 1, 2]).solve();
    assert!(p.is_none());
}

use rsat::dimacs::Dimacs;
use rsat::solver::{Solver, Status};

fn solve(text: &str) -> Solver {
    let dimacs = Dimacs::new(text.as_bytes().to_vec());
    let mut solver = Solver::from_dimacs(dimacs);
    let mut steps = 0;
    while !solver.finished() && steps < 100000 {
        solver.step();
        steps += 1;
    }
    solver
}

#[test]
fn dimacs_example_01() {
    let text = "c comment\np cnf 5 3\n1 -5 4 0\n-1 5 3 4 0\n-3 -4 0\n";
    let mut dimacs = Dimacs::new(text.as_bytes().to_vec());
    assert_eq!(dimacs.var_count(), 5);
    assert_eq!(dimacs.clause_count(), 3);
    let mut literals = Vec::new();
    assert!(dimacs.next(&mut literals));
    assert_eq!(literals, vec![1, -5, 4]);
    assert!(dimacs.next(&mut literals));
    assert_eq!(literals, vec![-1, 5, 3, 4]);
    assert!(dimacs.next(&mut literals));
    assert_eq!(literals, vec![-3, -4]);
    assert!(!dimacs.next(&mut literals));
}

#[test]
fn dimacs_skips_comments_between_clauses() {
    let text = "p cnf 2 2\nc first\n1 0\n\nc second\n2 0\n";
    let mut dimacs = Dimacs::new(text.as_bytes().to_vec());
    let mut literals = Vec::new();
    assert!(dimacs.next(&mut literals));
    assert_eq!(literals, vec![1]);
    assert!(dimacs.next(&mut literals));
    assert_eq!(literals, vec![2]);
    assert!(!dimacs.next(&mut literals));
}

#[test]
fn solve_unsat_unit() {
    // {[1], [-1]} is unsatisfiable in finitely many steps
    let solver = solve("p cnf 1 2\n1 0\n-1 0\n");
    assert_eq!(solver.status(), Status::Unsat);
}

#[test]
fn solve_sat_unit_witness() {
    // {[1]} is satisfiable with witness {1}
    let mut solver = solve("p cnf 1 1\n1 0\n");
    assert_eq!(solver.status(), Status::Sat);
    let mut literals = Vec::new();
    solver.assignments(&mut literals);
    assert_eq!(literals, vec![1]);
    assert!(solver.check(&literals));
}

#[test]
fn solve_sat_pair() {
    let mut solver = solve("p cnf 2 2\n1 2 0\n-1 -2 0\n");
    assert_eq!(solver.status(), Status::Sat);
    let mut literals = Vec::new();
    solver.assignments(&mut literals);
    assert!(solver.check(&literals));
}

#[test]
fn solve_sat_three() {
    let mut solver = solve("p cnf 3 3\n1 2 0\n-1 3 0\n-2 -3 0\n");
    assert_eq!(solver.status(), Status::Sat);
    let mut literals = Vec::new();
    solver.assignments(&mut literals);
    assert!(solver.check(&literals));
}

#[test]
fn sat_witness_checks_out() {
    // wherever the search reports satisfiable, the extracted witness
    // satisfies every clause
    let inputs = [
        "p cnf 1 1\n1 0\n",
        "p cnf 2 2\n1 2 0\n-1 -2 0\n",
        "p cnf 3 3\n1 2 0\n-1 3 0\n-2 -3 0\n",
        "p cnf 4 4\n1 2 0\n-1 3 0\n-2 -3 4 0\n-4 2 0\n",
        "p cnf 3 4\n1 0\n-1 2 0\n-2 3 0\n-1 -2 3 0\n",
    ];
    for text in inputs.iter() {
        let mut solver = solve(text);
        if solver.status() == Status::Sat {
            let mut literals = Vec::new();
            solver.assignments(&mut literals);
            assert!(solver.check(&literals), "witness must satisfy {}", text);
        }
    }
}

#[test]
fn unsat_needs_backjump() {
    let solver = solve("p cnf 2 4\n1 2 0\n1 -2 0\n-1 2 0\n-1 -2 0\n");
    assert_eq!(solver.status(), Status::Unsat);
}

#[test]
fn check_rejects_bad_witness() {
    let solver = solve("p cnf 2 1\n1 2 0\n");
    let bad = vec![-1, -2];
    assert!(!solver.check(&bad));
}

#[test]
fn duplicate_literals_are_merged() {
    let mut solver = solve("p cnf 1 1\n1 1 1 0\n");
    assert_eq!(solver.status(), Status::Sat);
    let mut literals = Vec::new();
    solver.assignments(&mut literals);
    assert_eq!(literals, vec![1]);
}

#[test]
fn parses_accepts_good_input() {
    let good = b"c ok\np cnf 2 1\n1 -2 0\n".to_vec();
    assert!(Dimacs::parses(&good));
}

#[test]
fn parses_rejects_junk_tokens() {
    let bad = b"p cnf 2 1\n1 x 0\n".to_vec();
    assert!(!Dimacs::parses(&bad));
    let no_header = b"1 0\n".to_vec();
    assert!(!Dimacs::parses(&no_header));
}

#[test]
fn backjump_rechecks_earlier_clauses() {
    // a backjump flips the decision that satisfied the first clause; the
    // search must come back for it
    let mut solver = solve("p cnf 3 3\n1 2 0\n-1 3 0\n-3 -1 0\n");
    assert_eq!(solver.status(), Status::Sat);
    let mut ls = Vec::new();
    solver.assignments(&mut ls);
    assert!(solver.check(&ls));
}

#[test]
fn duplicate_clauses_solve_once() {
    let mut solver = solve("p cnf 3 4\n1 2 3 0\n1 2 3 0\n-1 0\n-1 0\n");
    assert_eq!(solver.status(), Status::Sat);
    let mut literals = Vec::new();
    solver.assignments(&mut literals);
    assert!(solver.check(&literals));
}

#[test]
fn short_clauses_come_first() {
    let mut solver = solve("p cnf 3 2\n1 2 3 0\n-2 0\n");
    assert_eq!(solver.status(), Status::Sat);
    let mut literals = Vec::new();
    solver.assignments(&mut literals);
    assert!(solver.check(&literals));
    assert!(literals.contains(&-2));
}

#[test]
fn header_requires_cnf_marker() {
    let bad = b"p dnf 2 1\n1 -2 0\n".to_vec();
    assert!(!Dimacs::parses(&bad));
}

#[test]
fn header_requires_counts() {
    let bad = b"p cnf\n1 0\n".to_vec();
    assert!(!Dimacs::parses(&bad));
}

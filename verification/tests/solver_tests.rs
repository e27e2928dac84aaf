use lib::implication_graph::ImplicationGraph;
use lib::parser::{parse_i32, parse_text, parse_usize, split_lines, split_tokens, try_parse_text, IntError, ParseNote};
use lib::sat_solver::{Clause3, SatSolver};
use lib::util::{lit2idx, lit_abs, signum};

fn chars(s: &str) -> Vec<char> {
    s.chars().collect()
}

fn satisfied(a: &Vec<i32>, lits: &[i32]) -> bool {
    lits.iter().any(|&l| l != 0 && a[(l.abs() - 1) as usize] == l.signum())
}

#[test]
fn lit2idx_maps_literals_to_variable_indices() {
    assert_eq!(lit2idx(1), 0);
    assert_eq!(lit2idx(-1), 0);
    assert_eq!(lit2idx(7), 6);
    assert_eq!(lit2idx(-7), 6);
    assert_eq!(lit2idx(0), usize::MAX);
    assert_eq!(lit_abs(-5), 5);
    assert_eq!(signum(-5), -1);
    assert_eq!(signum(0), 0);
    assert_eq!(signum(3), 1);
}

#[test]
fn clause3_default_is_empty() {
    let c = Clause3::default();
    assert_eq!(c.literals, [0, 0, 0]);
    assert!(!c.sat);
}

#[test]
fn graph_conflict_returns_decisions_and_implied() {
    let mut g = ImplicationGraph::new(4);
    g.add_root(1);
    g.add_root(-2);
    // 3 was implied by a clause over variables 1 and 2
    g.add_child(3, [1, 2]);
    // 4 was implied by a clause over variable 3
    g.add_child(-4, [3, 0]);
    let clause = Clause3 { literals: [4, 0, 0], sat: false };
    let (mut roots, mut children) = g.get_conflict(&clause);
    roots.sort();
    children.sort();
    assert_eq!(roots, vec![1, 2]);
    assert_eq!(children, vec![3, 4]);
}

#[test]
fn graph_conflict_on_unit_implied_variable() {
    let mut g = ImplicationGraph::new(2);
    g.add_child(-1, [0, 0]);
    g.add_root(2);
    let clause = Clause3 { literals: [1, 0, 0], sat: false };
    let (roots, children) = g.get_conflict(&clause);
    assert!(roots.is_empty());
    assert_eq!(children, vec![1]);
    // variable 2 keeps its node: a second conflict on it finds it
    let clause2 = Clause3 { literals: [-2, 0, 0], sat: false };
    let (roots2, children2) = g.get_conflict(&clause2);
    assert_eq!(roots2, vec![2]);
    assert!(children2.is_empty());
}

#[test]
fn graph_removed_variables_can_be_added_again() {
    let mut g = ImplicationGraph::new(1);
    g.add_root(1);
    let c = Clause3 { literals: [1, 0, 0], sat: false };
    let (r, _) = g.get_conflict(&c);
    assert_eq!(r, vec![1]);
    g.add_root(-1);
    g.add_child(5, [1, 0]);
    let c5 = Clause3 { literals: [5, 0, 0], sat: false };
    let (r, ch) = g.get_conflict(&c5);
    assert_eq!(r, vec![1]);
    assert_eq!(ch, vec![5]);
}

#[test]
fn new_solver_is_empty_and_undecided() {
    let s = SatSolver::new(3);
    assert_eq!(s.num_vars(), 3);
    assert_eq!(s.status(), 0);
    assert_eq!(s.assignment(), &vec![0, 0, 0]);
    assert!(s.clauses().is_empty());
    assert_eq!(s.occurrences().len(), 3);
}

#[test]
fn short_clauses_are_padded() {
    let mut s = SatSolver::new(3);
    s.add_clause(vec![1]);
    s.add_clause(vec![-1, 2]);
    s.add_clause(vec![1, -2, 3]);
    let c = s.clauses();
    assert_eq!(c.len(), 3);
    assert_eq!(c[0].literals, [1, 0, 0]);
    assert_eq!(c[1].literals, [-1, 2, 0]);
    assert_eq!(c[2].literals, [1, -2, 3]);
    assert_eq!(s.occurrences()[0], vec![0, 1, 2]);
    assert_eq!(s.occurrences()[1], vec![1, 2]);
    assert_eq!(s.occurrences()[2], vec![2]);
    assert_eq!(s.status(), 0);
}

#[test]
fn empty_clause_makes_problem_unsatisfiable() {
    let mut s = SatSolver::new(2);
    s.add_clause(vec![]);
    assert_eq!(s.status(), -1);
    assert!(s.clauses().is_empty());
}

#[test]
fn long_even_clause_is_chained() {
    let mut s = SatSolver::new(4);
    s.add_clause(vec![1, 2, 3, 4]);
    assert_eq!(s.num_vars(), 7);
    let c: Vec<[i32; 3]> = s.clauses().iter().map(|c| c.literals).collect();
    assert_eq!(c, vec![[1, 2, 5], [-5, 3, 6], [-6, 4, 7], [-7, 4, 0]]);
    assert_eq!(s.assignment().len(), 7);
}

#[test]
fn long_odd_clause_is_chained() {
    let mut s = SatSolver::new(5);
    s.add_clause(vec![1, 2, 3, 4, 5]);
    assert_eq!(s.num_vars(), 8);
    let c: Vec<[i32; 3]> = s.clauses().iter().map(|c| c.literals).collect();
    assert_eq!(c, vec![[1, 2, 6], [-6, 3, 7], [-7, 4, 8], [-8, 5, 4]]);
}

#[test]
fn can_add_clause_checks_variables() {
    let s = SatSolver::new(3);
    assert!(s.can_add_clause(&vec![1, -3]));
    assert!(!s.can_add_clause(&vec![1, 4]));
    assert!(!s.can_add_clause(&vec![i32::MIN]));
    // in a long clause a literal may name a variable the encoding has created
    assert!(s.can_add_clause(&vec![1, 2, 3, 5]));
    assert!(!s.can_add_clause(&vec![1, 2, 3, 7]));
}

#[test]
fn solve_finds_a_model() {
    let mut s = SatSolver::new(3);
    let clauses = vec![vec![1, 2], vec![-1, 3], vec![-2, -3], vec![1, -3, 2]];
    for c in &clauses {
        s.add_clause(c.clone());
    }
    s.solve();
    assert_eq!(s.status(), 1);
    for c in &clauses {
        assert!(satisfied(s.assignment(), c));
    }
    assert_eq!(s.check_solution().len(), s.clauses().len());
}

#[test]
fn solve_single_unit_clause() {
    let mut s = SatSolver::new(1);
    s.add_clause(vec![-1]);
    s.solve();
    assert_eq!(s.status(), 1);
    assert_eq!(s.assignment(), &vec![-1]);
    assert_eq!(s.check_solution(), vec![1]);
}

#[test]
fn solve_detects_contradicting_units() {
    let mut s = SatSolver::new(1);
    s.add_clause(vec![1]);
    s.add_clause(vec![-1]);
    s.solve();
    assert_eq!(s.status(), -1);
}

#[test]
fn solve_with_long_clause_satisfies_it() {
    let mut s = SatSolver::new(4);
    let clauses = vec![vec![1, 2, 3, 4], vec![-1], vec![-2], vec![-3]];
    for c in &clauses {
        s.add_clause(c.clone());
    }
    s.solve();
    assert_eq!(s.status(), 1);
    for c in &clauses {
        assert!(satisfied(s.assignment(), c));
    }
}

#[test]
fn solve_without_clauses_stays_undecided() {
    let mut s = SatSolver::new(2);
    s.solve();
    assert_eq!(s.status(), 0);
}

#[test]
fn check_solution_stops_at_first_unsatisfied_clause() {
    let mut s = SatSolver::new(2);
    s.add_clause(vec![1, 2]);
    s.add_clause(vec![-1]);
    // nothing assigned: no clause holds
    assert!(s.check_solution().is_empty());
}

#[test]
fn split_lines_and_tokens_keep_empty_pieces() {
    let lines = split_lines(&chars("a\n\nb c\n"));
    assert_eq!(lines, vec![chars("a"), chars(""), chars("b c"), chars("")]);
    let toks = split_tokens(&chars("1  -2\t0"));
    assert_eq!(toks, vec![chars("1"), chars(""), chars("-2"), chars("0")]);
}

#[test]
fn numbers_read_as_std_reads_them() {
    assert_eq!(parse_usize(&chars("42")), Ok(42));
    assert_eq!(parse_usize(&chars("+7")), Ok(7));
    assert_eq!(parse_usize(&chars("")), Err(IntError::Empty));
    assert_eq!(parse_usize(&chars("+")), Err(IntError::InvalidDigit));
    assert_eq!(parse_usize(&chars("-1")), Err(IntError::InvalidDigit));
    assert_eq!(parse_usize(&chars("4x")), Err(IntError::InvalidDigit));
    assert_eq!(parse_usize(&chars("99999999999999999999999")), Err(IntError::PosOverflow));
    assert_eq!(parse_i32(&chars("-2147483648")), Some(i32::MIN));
    assert_eq!(parse_i32(&chars("2147483647")), Some(i32::MAX));
    assert_eq!(parse_i32(&chars("2147483648")), None);
    assert_eq!(parse_i32(&chars("-")), None);
    assert_eq!(parse_i32(&chars("+3")), Some(3));
    assert_eq!(parse_i32(&chars("x")), None);
    for t in ["0", "-17", "123456", "+0", "007"] {
        assert_eq!(parse_i32(&chars(t)), t.parse::<i32>().ok());
    }
}

#[test]
fn parse_reads_a_problem() {
    let text = chars("c a comment\np cnf 3 2\n1 -2 0\n2 3 0\n");
    let (s, notes) = parse_text(&text);
    assert_eq!(notes, vec![ParseNote::Comment(0), ParseNote::Header(3, 2)]);
    assert_eq!(s.num_vars(), 3);
    let c: Vec<[i32; 3]> = s.clauses().iter().map(|c| c.literals).collect();
    assert_eq!(c, vec![[1, -2, 0], [2, 3, 0]]);
}

#[test]
fn parse_clauses_may_span_lines_and_skip_words() {
    let text = chars("p cnf 2 2\n1 x\n-2 0 2 0");
    let (s, notes) = parse_text(&text);
    assert_eq!(notes, vec![ParseNote::Header(2, 2)]);
    let c: Vec<[i32; 3]> = s.clauses().iter().map(|c| c.literals).collect();
    assert_eq!(c, vec![[1, -2, 0], [2, 0, 0]]);
}

#[test]
fn parse_notes_high_variables() {
    let text = chars("p cnf 1 1\n1 2 0\n");
    assert!(try_parse_text(&text).is_err());
    let text = chars("p cnf 2 1\n1 3 4 5 0\n");
    let (s, notes) = parse_text(&text);
    assert_eq!(notes, vec![ParseNote::Header(2, 1), ParseNote::VarTooHigh(3), ParseNote::VarTooHigh(4), ParseNote::VarTooHigh(5)]);
    assert_eq!(s.num_vars(), 5);
}

#[test]
fn parse_refusals() {
    let cases: Vec<(&str, ParseNote)> = vec![
        ("c only", ParseNote::EmptyFile),
        ("q cnf 1 1\n", ParseNote::WrongFirstLine),
        (" p cnf 1 1\n", ParseNote::WrongFirstLine),
        ("p\n", ParseNote::NotEnoughInFirstLine),
        ("p dnf 1 1\n", ParseNote::WrongFirstLine2),
        ("p cnf\n", ParseNote::EmptyFile),
        ("p cnf x 1\n", ParseNote::BadVarCount(IntError::InvalidDigit)),
        ("p cnf  1 1\n", ParseNote::BadVarCount(IntError::Empty)),
        ("p cnf 1\n", ParseNote::EmptyFile),
        ("p cnf 1 99999999999999999999999\n", ParseNote::BadClauseCount(IntError::PosOverflow)),
        ("p cnf 1 2\n1 0\n", ParseNote::NotEnoughClauses),
    ];
    for (t, last) in cases {
        let (s, notes) = parse_text(&chars(t));
        assert_eq!(notes.last(), Some(&last), "{t:?}");
        assert_eq!(s.num_vars(), 0);
        assert!(s.clauses().is_empty());
    }
}

#[test]
fn parse_fails_where_a_blank_line_precedes_the_problem() {
    assert_eq!(try_parse_text(&chars("c x\n\np cnf 1 1\n1 0\n")).err(), Some(vec![ParseNote::Comment(0)]));
    assert!(try_parse_text(&chars("")).is_err());
    assert_eq!(try_parse_text(&chars("c only\n")).err(), Some(vec![ParseNote::Comment(0)]));
    assert!(try_parse_text(&chars("p cnf 1 1\n-2147483648 0\n")).is_err());
}

#[test]
fn parse_then_solve() {
    let text = chars("p cnf 3 4\n1 2 0\n-1 3 0\n-2 -3 0\n1 -3 2 0\n");
    let (mut s, _) = parse_text(&text);
    s.solve();
    assert_eq!(s.status(), 1);
    assert_eq!(s.check_solution().len(), 4);
}

fn brute_force_satisfiable(n: usize, clauses: &[Vec<i32>]) -> bool {
    for m in 0..(1u32 << n) {
        let a: Vec<i32> = (0..n).map(|i| if m & (1 << i) != 0 { 1 } else { -1 }).collect();
        if clauses.iter().all(|c| satisfied(&a, c)) {
            return true;
        }
    }
    false
}

fn solve_clauses(n: usize, clauses: &[Vec<i32>]) -> SatSolver {
    let mut s = SatSolver::new(n);
    for c in clauses {
        s.add_clause(c.clone());
    }
    s.solve();
    s
}

#[test]
fn solve_unsat_with_long_clause() {
    let clauses = vec![vec![1, 2, 3, 4], vec![-1], vec![-2], vec![-3], vec![-4]];
    let s = solve_clauses(4, &clauses);
    assert_eq!(s.status(), -1);
}

#[test]
fn solve_unsat_all_sign_combinations() {
    let clauses = vec![vec![1, 2], vec![1, -2], vec![-1, 2], vec![-1, -2]];
    let s = solve_clauses(2, &clauses);
    assert_eq!(s.status(), -1);
}

#[test]
fn solve_answers_agree_with_enumeration() {
    let problems: Vec<Vec<Vec<i32>>> = vec![
        vec![vec![1, 2, 3], vec![-1, -2], vec![-2, -3], vec![-1, -3], vec![2]],
        vec![vec![1, 2], vec![-1, 3], vec![-3, -2], vec![-1, -2], vec![1, -3]],
        vec![vec![1], vec![-1, 2], vec![-2, 3], vec![-3, -1]],
        vec![vec![1, 2, 3, 4, 5], vec![-1, -2], vec![-3, -4], vec![-5], vec![-1, -3]],
        vec![vec![1, -2, 3], vec![-1, 2, -3], vec![2, 3], vec![-2, -3], vec![1, 2]],
        vec![vec![1, 2, 3, 4], vec![-1, -2, -3, -4], vec![1, -2], vec![2, -3], vec![3, -4], vec![4, -1]],
    ];
    for clauses in &problems {
        let n = 5;
        let s = solve_clauses(n, clauses);
        let expected = brute_force_satisfiable(n, clauses);
        if expected {
            assert_eq!(s.status(), 1);
            for c in clauses {
                assert!(satisfied(s.assignment(), c));
            }
        } else {
            assert_eq!(s.status(), -1);
        }
    }
}

#[test]
fn occurrences_are_in_ascending_order() {
    let mut s = SatSolver::new(2);
    s.add_clause(vec![1, 1, 2]);
    s.add_clause(vec![-2]);
    s.add_clause(vec![2, -1]);
    assert_eq!(s.occurrences()[0], vec![0, 0, 2]);
    assert_eq!(s.occurrences()[1], vec![0, 1, 2]);
}

#[test]
fn solve_learns_a_unit_clause_and_restarts() {
    let mut s = SatSolver::new(3);
    s.add_clause(vec![-1, -3]);
    s.add_clause(vec![-1, 3]);
    s.add_clause(vec![1, 2]);
    s.solve();
    assert_eq!(s.status(), 1);
    assert_eq!(s.assignment(), &vec![-1, 1, 0]);
    assert_eq!(s.clauses().len(), 4);
    assert_eq!(s.clauses()[3].literals, [-1, 0, 0]);
    assert!(!s.clauses()[3].sat);
    assert_eq!(s.working_len(), 4);
}

#[test]
fn solve_learns_the_empty_clause() {
    let mut s = SatSolver::new(1);
    s.add_clause(vec![1]);
    s.add_clause(vec![-1]);
    s.solve();
    assert_eq!(s.status(), -1);
    assert_eq!(s.clauses().len(), 2);
    assert_eq!(s.assignment(), &vec![0]);
}

#[test]
fn solve_decides_the_first_open_literal() {
    let mut s = SatSolver::new(2);
    s.add_clause(vec![-1, 2]);
    s.add_clause(vec![-1, -2]);
    s.solve();
    assert_eq!(s.status(), 1);
    assert_eq!(s.assignment(), &vec![-1, 0]);
    assert_eq!(s.clauses().len(), 2);
}

#[test]
fn parse_leaves_no_working_clauses() {
    let (s, _) = parse_text(&chars("c ex\np cnf 3 2\n1 -2 0 2\n3 0\n"));
    assert_eq!(s.num_vars(), 3);
    assert_eq!(s.clauses().len(), 2);
    assert_eq!(s.clauses()[0].literals, [1, -2, 0]);
    assert_eq!(s.clauses()[1].literals, [2, 3, 0]);
    assert_eq!(s.occurrences()[0], vec![0]);
    assert_eq!(s.occurrences()[1], vec![0, 1]);
    assert_eq!(s.occurrences()[2], vec![1]);
    assert_eq!(s.assignment(), &vec![0, 0, 0]);
    assert_eq!(s.status(), 0);
    assert_eq!(s.working_len(), 0);
}

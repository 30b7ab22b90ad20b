//! Tests of the generic evaluator: exact fixpoints, determinism and
//! idempotence, monotonicity of positive rule sets, stability of negated
//! relations across strata, and eager rejection of bad rule sets.

use stratalog::engine::{run, Atom, Fact, Rule, RuleSet, RuleSetError, Term};

const EDGE: u64 = 100;
const REACH: u64 = 101;
const NODE: u64 = 102;
const MARK: u64 = 103;
const LONELY: u64 = 104;

fn fact2(rel: u64, a: u64, b: u64) -> Fact {
    Fact { rel, a0: a, a1: b, a2: 0, a3: 0 }
}

fn fact1(rel: u64, a: u64) -> Fact {
    Fact { rel, a0: a, a1: 0, a2: 0, a3: 0 }
}

fn atom2(rel: u64, t0: Term, t1: Term) -> Atom {
    Atom { rel, t0, t1, t2: Term::Const(0), t3: Term::Const(0) }
}

fn positive_rule(head: Atom, b0: Option<Atom>, b1: Option<Atom>) -> Rule {
    Rule { head, b0, b1, b2: None, b3: None, neg: None, diff: None }
}

/// `reach(x, y) :- edge(x, y); reach(x, z) :- reach(x, y), edge(y, z)`.
fn reach_ruleset() -> RuleSet {
    let base = positive_rule(
        atom2(REACH, Term::Var(0), Term::Var(1)),
        Some(atom2(EDGE, Term::Var(0), Term::Var(1))),
        None,
    );
    let step = positive_rule(
        atom2(REACH, Term::Var(0), Term::Var(2)),
        Some(atom2(REACH, Term::Var(0), Term::Var(1))),
        Some(atom2(EDGE, Term::Var(1), Term::Var(2))),
    );
    RuleSet::new(vec![vec![base, step]]).unwrap()
}

fn same_set(a: &[Fact], b: &[Fact]) -> bool {
    a.iter().all(|f| b.contains(f)) && b.iter().all(|f| a.contains(f))
}

#[test]
fn exact_transitive_closure() {
    let rs = reach_ruleset();
    let input = vec![fact2(EDGE, 1, 2), fact2(EDGE, 2, 3)];
    let out = run(&rs, &input);
    let expected = vec![
        fact2(EDGE, 1, 2),
        fact2(EDGE, 2, 3),
        fact2(REACH, 1, 2),
        fact2(REACH, 2, 3),
        fact2(REACH, 1, 3),
    ];
    assert!(same_set(&out, &expected));
}

#[test]
fn evaluation_is_deterministic() {
    // identical inputs give identical fixpoints
    let rs = reach_ruleset();
    let input = vec![fact2(EDGE, 1, 2), fact2(EDGE, 2, 3), fact2(EDGE, 3, 1)];
    let out1 = run(&rs, &input);
    let out2 = run(&rs, &input);
    assert_eq!(out1, out2);
}

#[test]
fn evaluation_is_idempotent() {
    // running the evaluator on its own output changes nothing
    let rs = reach_ruleset();
    let input = vec![fact2(EDGE, 1, 2), fact2(EDGE, 2, 3)];
    let out = run(&rs, &input);
    let again = run(&rs, &out);
    assert!(same_set(&out, &again));
}

#[test]
fn positive_rules_are_monotone() {
    // adding input facts never removes a derived fact
    let rs = reach_ruleset();
    let small = vec![fact2(EDGE, 1, 2), fact2(EDGE, 2, 3)];
    let big = vec![fact2(EDGE, 1, 2), fact2(EDGE, 2, 3), fact2(EDGE, 3, 4)];
    let out_small = run(&rs, &small);
    let out_big = run(&rs, &big);
    assert!(out_small.iter().all(|f| out_big.contains(f)));
    assert!(out_big.contains(&fact2(REACH, 1, 4)));
}

/// Stratum 0: `mark(x) :- edge(x, y)`; stratum 1:
/// `lonely(x) :- node(x), NOT mark(x)`.
fn lonely_strata() -> (RuleSet, RuleSet) {
    let mark = positive_rule(
        atom2(MARK, Term::Var(0), Term::Const(0)),
        Some(atom2(EDGE, Term::Var(0), Term::Var(1))),
        None,
    );
    let lonely = Rule {
        head: atom2(LONELY, Term::Var(0), Term::Const(0)),
        b0: Some(atom2(NODE, Term::Var(0), Term::Const(0))),
        b1: None,
        b2: None,
        b3: None,
        neg: Some(atom2(MARK, Term::Var(0), Term::Const(0))),
        diff: None,
    };
    let prefix = RuleSet::new(vec![vec![mark]]).unwrap();
    let full = RuleSet::new(vec![vec![mark], vec![lonely]]).unwrap();
    (prefix, full)
}

#[test]
fn negated_relation_is_stable() {
    // the value a negation reads is final: later strata never change it
    let (prefix, full) = lonely_strata();
    let input = vec![
        fact1(NODE, 1),
        fact1(NODE, 2),
        fact1(NODE, 3),
        fact2(EDGE, 1, 2),
    ];
    let out_prefix = run(&prefix, &input);
    let out_full = run(&full, &input);
    let marks_prefix: Vec<&Fact> = out_prefix.iter().filter(|f| f.rel == MARK).collect();
    let marks_full: Vec<&Fact> = out_full.iter().filter(|f| f.rel == MARK).collect();
    assert!(marks_prefix.iter().all(|f| marks_full.contains(f)));
    assert!(marks_full.iter().all(|f| marks_prefix.contains(f)));
    // and the negation-dependent relation is as expected
    assert!(!out_full.contains(&fact1(LONELY, 1)));
    assert!(out_full.contains(&fact1(LONELY, 2)));
    assert!(out_full.contains(&fact1(LONELY, 3)));
}

#[test]
fn negation_in_same_stratum_is_refused() {
    // p(x) :- q(x), NOT p(x) cannot be stratified
    let bad = Rule {
        head: atom2(MARK, Term::Var(0), Term::Const(0)),
        b0: Some(atom2(NODE, Term::Var(0), Term::Const(0))),
        b1: None,
        b2: None,
        b3: None,
        neg: Some(atom2(MARK, Term::Var(0), Term::Const(0))),
        diff: None,
    };
    assert_eq!(RuleSet::new(vec![vec![bad]]).unwrap_err(), RuleSetError::NegationCycle);
}

#[test]
fn feedback_into_earlier_stratum_is_refused() {
    // stratum 1 may not derive a relation stratum 0 already read
    let s0 = positive_rule(
        atom2(MARK, Term::Var(0), Term::Const(0)),
        Some(atom2(NODE, Term::Var(0), Term::Const(0))),
        None,
    );
    let s1 = positive_rule(
        atom2(NODE, Term::Var(0), Term::Const(0)),
        Some(atom2(EDGE, Term::Var(0), Term::Var(1))),
        None,
    );
    assert_eq!(
        RuleSet::new(vec![vec![s0], vec![s1]]).unwrap_err(),
        RuleSetError::NegationCycle
    );
}

#[test]
fn unbound_head_variable_is_refused() {
    // the head variable occurs in no positive body atom
    let bad = positive_rule(
        atom2(MARK, Term::Var(0), Term::Const(0)),
        Some(atom2(NODE, Term::Var(1), Term::Const(0))),
        None,
    );
    assert_eq!(
        RuleSet::new(vec![vec![bad]]).unwrap_err(),
        RuleSetError::UnboundVariable
    );
}

#[test]
fn disequality_guard_filters() {
    // d(x, y) :- node(x), node(y), x != y
    let rule = Rule {
        head: atom2(REACH, Term::Var(0), Term::Var(1)),
        b0: Some(atom2(NODE, Term::Var(0), Term::Const(0))),
        b1: Some(atom2(NODE, Term::Var(1), Term::Const(0))),
        b2: None,
        b3: None,
        neg: None,
        diff: Some((0, 1)),
    };
    let rs = RuleSet::new(vec![vec![rule]]).unwrap();
    let out = run(&rs, &vec![fact1(NODE, 1), fact1(NODE, 2)]);
    assert!(out.contains(&fact2(REACH, 1, 2)));
    assert!(out.contains(&fact2(REACH, 2, 1)));
    assert!(!out.contains(&fact2(REACH, 1, 1)));
    assert!(!out.contains(&fact2(REACH, 2, 2)));
}

//! A generic bottom-up relational fixpoint evaluator with stratified
//! negation.
//!
//! Facts are tuples of a relation tag and four `u64` arguments (unused
//! trailing positions are zero). A rule `Head :- B0, B1, B2, B3, NOT N,
//! x != y` has up to four positive body atoms, one optional negated atom
//! and one optional disequality guard, over a space of six rule variables.
//! Given a set of input facts and a stratified sequence of rule groups,
//! `run` computes the unique minimal fixpoint: the smallest fact set
//! containing the inputs and closed under every rule, stratum by stratum.
//!
//! The semantics is pinned by the spec functions `deriv` (bounded-depth
//! derivability of one fact), `stratum_lfp` (all derivable facts of one
//! stratum) and `strata_lfp` (strata composed in order, each reading the
//! previous fixpoint). `NOT R(..)` is read against the fact set as it
//! stood when the stratum began; the stratification condition makes that
//! set final.

use vstd::prelude::*;

verus! {

/// The number of rule variables available to one rule.
pub const NVARS: u64 = 6;

/// A fact: one tuple of the relation `rel`. Unused argument positions
/// hold zero.
#[derive(Debug, Copy, Clone, PartialEq, Eq, Structural)]
pub struct Fact {
    pub rel: u64,
    pub a0: u64,
    pub a1: u64,
    pub a2: u64,
    pub a3: u64,
}

/// An argument position of an atom: a constant, or one of the rule's
/// variables.
#[derive(Debug, Copy, Clone, PartialEq, Eq, Structural)]
pub enum Term {
    Const(u64),
    Var(u64),
}

/// A relation applied to four terms.
#[derive(Debug, Copy, Clone, PartialEq, Eq, Structural)]
pub struct Atom {
    pub rel: u64,
    pub t0: Term,
    pub t1: Term,
    pub t2: Term,
    pub t3: Term,
}

/// One inference rule.
#[derive(Debug, Copy, Clone)]
pub struct Rule {
    pub head: Atom,
    pub b0: Option<Atom>,
    pub b1: Option<Atom>,
    pub b2: Option<Atom>,
    pub b3: Option<Atom>,
    /// Negation as failure: satisfied when no matching fact exists.
    pub neg: Option<Atom>,
    /// Disequality guard on two rule variables.
    pub diff: Option<(u64, u64)>,
}

/// A total valuation of the six rule variables.
#[derive(Debug, Copy, Clone, PartialEq, Eq, Structural)]
pub struct Sub {
    pub v0: u64,
    pub v1: u64,
    pub v2: u64,
    pub v3: u64,
    pub v4: u64,
    pub v5: u64,
}

/// A partial binding of the six rule variables, grown during matching.
#[derive(Debug, Copy, Clone, PartialEq, Eq, Structural)]
pub struct PBind {
    pub v0: Option<u64>,
    pub v1: Option<u64>,
    pub v2: Option<u64>,
    pub v3: Option<u64>,
    pub v4: Option<u64>,
    pub v5: Option<u64>,
}

// ---------------------------------------------------------------------
// Semantics: instantiation, rule satisfaction, derivability.
// ---------------------------------------------------------------------

pub open spec fn sub_get(s: Sub, v: u64) -> u64 {
    if v == 0 {
        s.v0
    } else if v == 1 {
        s.v1
    } else if v == 2 {
        s.v2
    } else if v == 3 {
        s.v3
    } else if v == 4 {
        s.v4
    } else {
        s.v5
    }
}

pub open spec fn term_ok(t: Term) -> bool {
    match t {
        Term::Const(_) => true,
        Term::Var(v) => v < NVARS,
    }
}

pub open spec fn atom_ok(a: Atom) -> bool {
    term_ok(a.t0) && term_ok(a.t1) && term_ok(a.t2) && term_ok(a.t3)
}

pub open spec fn term_val(t: Term, s: Sub) -> u64 {
    match t {
        Term::Const(c) => c,
        Term::Var(v) => sub_get(s, v),
    }
}

/// The fact an atom denotes under a valuation.
pub open spec fn inst(a: Atom, s: Sub) -> Fact {
    Fact {
        rel: a.rel,
        a0: term_val(a.t0, s),
        a1: term_val(a.t1, s),
        a2: term_val(a.t2, s),
        a3: term_val(a.t3, s),
    }
}

pub open spec fn term_has_var(t: Term, v: u64) -> bool {
    t == Term::Var(v)
}

pub open spec fn atom_has_var(a: Atom, v: u64) -> bool {
    term_has_var(a.t0, v) || term_has_var(a.t1, v) || term_has_var(a.t2, v) || term_has_var(
        a.t3,
        v,
    )
}

/// The positive body atom in slot `i`, if any.
pub open spec fn body_atom(r: Rule, i: int) -> Option<Atom> {
    if i == 0 {
        r.b0
    } else if i == 1 {
        r.b1
    } else if i == 2 {
        r.b2
    } else {
        r.b3
    }
}

/// `v` occurs in some positive body atom of `r`.
pub open spec fn pos_var(r: Rule, v: u64) -> bool {
    ||| (r.b0 matches Some(a) && atom_has_var(a, v))
    ||| (r.b1 matches Some(a) && atom_has_var(a, v))
    ||| (r.b2 matches Some(a) && atom_has_var(a, v))
    ||| (r.b3 matches Some(a) && atom_has_var(a, v))
}

pub open spec fn atom_vars_pos(r: Rule, a: Atom) -> bool {
    &&& (a.t0 matches Term::Var(v) ==> pos_var(r, v))
    &&& (a.t1 matches Term::Var(v) ==> pos_var(r, v))
    &&& (a.t2 matches Term::Var(v) ==> pos_var(r, v))
    &&& (a.t3 matches Term::Var(v) ==> pos_var(r, v))
}

/// Range restriction: every variable of the head, of the negated atom and
/// of the disequality guard occurs in a positive body atom, and every
/// variable index is in range.
pub open spec fn rule_wf(r: Rule) -> bool {
    &&& atom_ok(r.head)
    &&& (r.b0 matches Some(a) ==> atom_ok(a))
    &&& (r.b1 matches Some(a) ==> atom_ok(a))
    &&& (r.b2 matches Some(a) ==> atom_ok(a))
    &&& (r.b3 matches Some(a) ==> atom_ok(a))
    &&& (r.neg matches Some(a) ==> atom_ok(a))
    &&& atom_vars_pos(r, r.head)
    &&& (r.neg matches Some(a) ==> atom_vars_pos(r, a))
    &&& (r.diff matches Some(d) ==> d.0 < NVARS && d.1 < NVARS && pos_var(r, d.0) && pos_var(
        r,
        d.1,
    ))
}

/// All positive body atoms are satisfied in `fs` under `s`.
pub open spec fn pos_sat(r: Rule, s: Sub, fs: Set<Fact>) -> bool {
    &&& (r.b0 matches Some(a) ==> fs.contains(inst(a, s)))
    &&& (r.b1 matches Some(a) ==> fs.contains(inst(a, s)))
    &&& (r.b2 matches Some(a) ==> fs.contains(inst(a, s)))
    &&& (r.b3 matches Some(a) ==> fs.contains(inst(a, s)))
}

/// The negated atom has no matching fact in `fs`, and the disequality
/// guard holds, under `s`.
pub open spec fn guards_ok(r: Rule, s: Sub, fs: Set<Fact>) -> bool {
    &&& (r.neg matches Some(a) ==> !fs.contains(inst(a, s)))
    &&& (r.diff matches Some(d) ==> sub_get(s, d.0) != sub_get(s, d.1))
}

/// The whole rule body is satisfied in `fs` under `s`.
pub open spec fn body_holds(r: Rule, s: Sub, fs: Set<Fact>) -> bool {
    pos_sat(r, s, fs) && guards_ok(r, s, fs)
}

/// `fs` is closed under every rule: whenever a body is satisfied, the
/// instantiated head is present.
pub open spec fn closed(rules: Seq<Rule>, fs: Set<Fact>) -> bool {
    forall|i: int, s: Sub|
        0 <= i < rules.len() && #[trigger] body_holds(rules[i], s, fs) ==> fs.contains(
            inst(rules[i].head, s),
        )
}

/// Bounded-depth derivability of one fact from `base` by `rules`, with
/// negated atoms read against `base` itself (sound for a stratum whose
/// negated relations are never derived in it).
pub open spec fn deriv(rules: Seq<Rule>, base: Set<Fact>, f: Fact, n: nat) -> bool
    decreases n,
{
    ||| base.contains(f)
    ||| (n > 0 && exists|i: int, s: Sub|
        {
            &&& 0 <= i < rules.len()
            &&& f == #[trigger] inst(rules[i].head, s)
            &&& (rules[i].b0 matches Some(a) ==> deriv(rules, base, inst(a, s), (n - 1) as nat))
            &&& (rules[i].b1 matches Some(a) ==> deriv(rules, base, inst(a, s), (n - 1) as nat))
            &&& (rules[i].b2 matches Some(a) ==> deriv(rules, base, inst(a, s), (n - 1) as nat))
            &&& (rules[i].b3 matches Some(a) ==> deriv(rules, base, inst(a, s), (n - 1) as nat))
            &&& (rules[i].neg matches Some(a) ==> !base.contains(inst(a, s)))
            &&& (rules[i].diff matches Some(d) ==> sub_get(s, d.0) != sub_get(s, d.1))
        })
}

/// `f` is derivable from `base` by `rules` at some depth.
pub open spec fn derivable(rules: Seq<Rule>, base: Set<Fact>, f: Fact) -> bool {
    exists|n: nat| deriv(rules, base, f, n)
}

/// Everything derivable from `base` by the rules of one stratum.
pub open spec fn stratum_lfp(rules: Seq<Rule>, base: Set<Fact>) -> Set<Fact> {
    Set::new(|f: Fact| derivable(rules, base, f))
}

/// Strata composed in order: each stratum starts from the previous
/// fixpoint.
pub open spec fn strata_lfp(ss: Seq<Seq<Rule>>, base: Set<Fact>) -> Set<Fact>
    decreases ss.len(),
{
    if ss.len() == 0 {
        base
    } else {
        stratum_lfp(ss.last(), strata_lfp(ss.drop_last(), base))
    }
}

// ---------------------------------------------------------------------
// Well-formed, stratified rule sets.
// ---------------------------------------------------------------------

pub open spec fn rules_wf(rules: Seq<Rule>) -> bool {
    forall|i: int| 0 <= i < rules.len() ==> rule_wf(#[trigger] rules[i])
}

/// Some rule of `rules` derives the relation `q`.
pub open spec fn head_rel(rules: Seq<Rule>, q: u64) -> bool {
    exists|i: int| 0 <= i < rules.len() && (#[trigger] rules[i]).head.rel == q
}

pub open spec fn rule_neg_rel(r: Rule, q: u64) -> bool {
    r.neg matches Some(a) && a.rel == q
}

/// Some rule of `rules` negates the relation `q`.
pub open spec fn negs_rel(rules: Seq<Rule>, q: u64) -> bool {
    exists|i: int| 0 <= i < rules.len() && rule_neg_rel(#[trigger] rules[i], q)
}

pub open spec fn rule_pos_rel(r: Rule, q: u64) -> bool {
    ||| (r.b0 matches Some(a) && a.rel == q)
    ||| (r.b1 matches Some(a) && a.rel == q)
    ||| (r.b2 matches Some(a) && a.rel == q)
    ||| (r.b3 matches Some(a) && a.rel == q)
}

/// Some rule of `rules` reads the relation `q` positively.
pub open spec fn poss_rel(rules: Seq<Rule>, q: u64) -> bool {
    exists|i: int| 0 <= i < rules.len() && rule_pos_rel(#[trigger] rules[i], q)
}

/// Within one stratum, a negated relation is never derived.
pub open spec fn stratum_strat_ok(rules: Seq<Rule>) -> bool {
    forall|q: u64| #[trigger] negs_rel(rules, q) ==> !head_rel(rules, q)
}

/// The stratification conditions: every rule is well formed; a relation
/// negated in a stratum is derived in no same-or-later stratum; a
/// relation read positively in a stratum is derived in no strictly later
/// stratum (no feedback into a finished fixpoint).
pub open spec fn strata_wf(ss: Seq<Seq<Rule>>) -> bool {
    &&& forall|k: int| 0 <= k < ss.len() ==> rules_wf(#[trigger] ss[k])
    &&& forall|k: int, k2: int, q: u64|
        0 <= k <= k2 < ss.len() && #[trigger] negs_rel(ss[k], q) ==> !#[trigger] head_rel(
            ss[k2],
            q,
        )
    &&& forall|k: int, k2: int, q: u64|
        0 <= k < k2 < ss.len() && #[trigger] poss_rel(ss[k], q) ==> !#[trigger] head_rel(
            ss[k2],
            q,
        )
}

// ---------------------------------------------------------------------
// Partial bindings.
// ---------------------------------------------------------------------

pub open spec fn pbind_get(p: PBind, v: u64) -> Option<u64> {
    if v == 0 {
        p.v0
    } else if v == 1 {
        p.v1
    } else if v == 2 {
        p.v2
    } else if v == 3 {
        p.v3
    } else if v == 4 {
        p.v4
    } else {
        p.v5
    }
}

/// `s` completes the partial binding `p`.
pub open spec fn compl(p: PBind, s: Sub) -> bool {
    &&& (p.v0 matches Some(x) ==> s.v0 == x)
    &&& (p.v1 matches Some(x) ==> s.v1 == x)
    &&& (p.v2 matches Some(x) ==> s.v2 == x)
    &&& (p.v3 matches Some(x) ==> s.v3 == x)
    &&& (p.v4 matches Some(x) ==> s.v4 == x)
    &&& (p.v5 matches Some(x) ==> s.v5 == x)
}

/// `q` extends the partial binding `p`.
pub open spec fn ple(p: PBind, q: PBind) -> bool {
    &&& (p.v0 matches Some(x) ==> q.v0 == Some(x))
    &&& (p.v1 matches Some(x) ==> q.v1 == Some(x))
    &&& (p.v2 matches Some(x) ==> q.v2 == Some(x))
    &&& (p.v3 matches Some(x) ==> q.v3 == Some(x))
    &&& (p.v4 matches Some(x) ==> q.v4 == Some(x))
    &&& (p.v5 matches Some(x) ==> q.v5 == Some(x))
}

pub open spec fn term_bound(t: Term, p: PBind) -> bool {
    match t {
        Term::Const(_) => true,
        Term::Var(v) => pbind_get(p, v) is Some,
    }
}

pub open spec fn atom_bound(a: Atom, p: PBind) -> bool {
    term_bound(a.t0, p) && term_bound(a.t1, p) && term_bound(a.t2, p) && term_bound(a.t3, p)
}

pub open spec fn pbind_empty() -> PBind {
    PBind { v0: None, v1: None, v2: None, v3: None, v4: None, v5: None }
}

// ---------------------------------------------------------------------
// Matching primitives.
// ---------------------------------------------------------------------

fn pbind_get_exec(p: PBind, v: u64) -> (r: Option<u64>)
    requires
        v < NVARS,
    ensures
        r == pbind_get(p, v),
{
    if v == 0 {
        p.v0
    } else if v == 1 {
        p.v1
    } else if v == 2 {
        p.v2
    } else if v == 3 {
        p.v3
    } else if v == 4 {
        p.v4
    } else {
        p.v5
    }
}

pub open spec fn pbind_set_spec(p: PBind, v: u64, x: u64) -> PBind {
    if v == 0 {
        PBind { v0: Some(x), ..p }
    } else if v == 1 {
        PBind { v1: Some(x), ..p }
    } else if v == 2 {
        PBind { v2: Some(x), ..p }
    } else if v == 3 {
        PBind { v3: Some(x), ..p }
    } else if v == 4 {
        PBind { v4: Some(x), ..p }
    } else {
        PBind { v5: Some(x), ..p }
    }
}

fn pbind_set(p: PBind, v: u64, x: u64) -> (q: PBind)
    requires
        v < NVARS,
    ensures
        q == pbind_set_spec(p, v, x),
{
    if v == 0 {
        PBind { v0: Some(x), ..p }
    } else if v == 1 {
        PBind { v1: Some(x), ..p }
    } else if v == 2 {
        PBind { v2: Some(x), ..p }
    } else if v == 3 {
        PBind { v3: Some(x), ..p }
    } else if v == 4 {
        PBind { v4: Some(x), ..p }
    } else {
        PBind { v5: Some(x), ..p }
    }
}

fn sub_of(p: PBind) -> (s: Sub)
    ensures
        compl(p, s),
{
    Sub {
        v0: match p.v0 { Some(x) => x, None => 0 },
        v1: match p.v1 { Some(x) => x, None => 0 },
        v2: match p.v2 { Some(x) => x, None => 0 },
        v3: match p.v3 { Some(x) => x, None => 0 },
        v4: match p.v4 { Some(x) => x, None => 0 },
        v5: match p.v5 { Some(x) => x, None => 0 },
    }
}

fn sub_get_exec(s: Sub, v: u64) -> (r: u64)
    requires
        v < NVARS,
    ensures
        r == sub_get(s, v),
{
    if v == 0 {
        s.v0
    } else if v == 1 {
        s.v1
    } else if v == 2 {
        s.v2
    } else if v == 3 {
        s.v3
    } else if v == 4 {
        s.v4
    } else {
        s.v5
    }
}

fn term_val_exec(t: Term, s: Sub) -> (r: u64)
    requires
        term_ok(t),
    ensures
        r == term_val(t, s),
{
    match t {
        Term::Const(c) => c,
        Term::Var(v) => sub_get_exec(s, v),
    }
}

fn inst_exec(a: Atom, s: Sub) -> (f: Fact)
    requires
        atom_ok(a),
    ensures
        f == inst(a, s),
{
    Fact {
        rel: a.rel,
        a0: term_val_exec(a.t0, s),
        a1: term_val_exec(a.t1, s),
        a2: term_val_exec(a.t2, s),
        a3: term_val_exec(a.t3, s),
    }
}

fn contains_fact(fs: &Vec<Fact>, f: Fact) -> (b: bool)
    ensures
        b == fs@.contains(f),
{
    let n = fs.len();
    let mut i: usize = 0;
    while i < n
        invariant
            n == fs@.len(),
            i <= n,
            forall|j: int| 0 <= j < i ==> fs@[j] != f,
        decreases n - i,
    {
        if fs[i] == f {
            return true;
        }
        i = i + 1;
    }
    false
}

/// Unify one term of an atom with one argument of a fact.
fn match_term(t: Term, arg: u64, p: PBind) -> (r: Option<PBind>)
    requires
        term_ok(t),
    ensures
        match r {
            Some(q) => ple(p, q) && term_bound(t, q) && forall|s: Sub|
                #[trigger] compl(q, s) <==> (compl(p, s) && term_val(t, s) == arg),
            None => forall|s: Sub| #[trigger] compl(p, s) ==> term_val(t, s) != arg,
        },
{
    match t {
        Term::Const(c) => if c == arg {
            Some(p)
        } else {
            None
        },
        Term::Var(v) => {
            match pbind_get_exec(p, v) {
                Some(x) => if x == arg {
                    Some(p)
                } else {
                    None
                },
                None => Some(pbind_set(p, v, arg)),
            }
        },
    }
}

/// Unify an atom with a fact, extending the partial binding. `Some` is
/// the most general extension under which the atom denotes exactly `f`;
/// `None` means no completion of `p` makes the atom denote `f`.
fn match_atom(a: Atom, f: Fact, p: PBind) -> (r: Option<PBind>)
    requires
        atom_ok(a),
    ensures
        match r {
            Some(q) => ple(p, q) && atom_bound(a, q) && forall|s: Sub|
                #[trigger] compl(q, s) <==> (compl(p, s) && inst(a, s) == f),
            None => forall|s: Sub| #[trigger] compl(p, s) ==> inst(a, s) != f,
        },
{
    if a.rel != f.rel {
        return None;
    }
    let p0 = match match_term(a.t0, f.a0, p) {
        Some(q) => q,
        None => {
            return None;
        },
    };
    let p1 = match match_term(a.t1, f.a1, p0) {
        Some(q) => q,
        None => {
            assert(forall|s: Sub| #[trigger] compl(p, s) ==> inst(a, s) != f) by {
                assert forall|s: Sub| #[trigger] compl(p, s) implies inst(a, s) != f by {
                    if inst(a, s) == f {
                        assert(compl(p0, s));
                    }
                }
            }
            return None;
        },
    };
    let p2 = match match_term(a.t2, f.a2, p1) {
        Some(q) => q,
        None => {
            assert(forall|s: Sub| #[trigger] compl(p, s) ==> inst(a, s) != f) by {
                assert forall|s: Sub| #[trigger] compl(p, s) implies inst(a, s) != f by {
                    if inst(a, s) == f {
                        assert(compl(p0, s));
                        assert(compl(p1, s));
                    }
                }
            }
            return None;
        },
    };
    let p3 = match match_term(a.t3, f.a3, p2) {
        Some(q) => q,
        None => {
            assert(forall|s: Sub| #[trigger] compl(p, s) ==> inst(a, s) != f) by {
                assert forall|s: Sub| #[trigger] compl(p, s) implies inst(a, s) != f by {
                    if inst(a, s) == f {
                        assert(compl(p0, s));
                        assert(compl(p1, s));
                        assert(compl(p2, s));
                    }
                }
            }
            return None;
        },
    };
    assert(ple(p, p3));
    assert(atom_bound(a, p3));
    assert forall|s: Sub| #[trigger] compl(p3, s) <==> (compl(p, s) && inst(a, s) == f) by {
        if compl(p3, s) {
            assert(compl(p2, s));
            assert(compl(p1, s));
            assert(compl(p0, s));
        }
        if compl(p, s) && inst(a, s) == f {
            assert(compl(p0, s));
            assert(compl(p1, s));
            assert(compl(p2, s));
        }
    }
    Some(p3)
}

// ---------------------------------------------------------------------
// The search for all rule firings.
// ---------------------------------------------------------------------

/// The set of facts a vector holds.
pub open spec fn fset(fs: Seq<Fact>) -> Set<Fact> {
    Set::new(|f: Fact| fs.contains(f))
}

/// An absent body atom is trivially satisfied.
pub open spec fn opt_sat(oa: Option<Atom>, s: Sub, fs: Set<Fact>) -> bool {
    match oa {
        Some(a) => fs.contains(inst(a, s)),
        None => true,
    }
}

/// An absent body atom is trivially bound.
pub open spec fn opt_bound(oa: Option<Atom>, p: PBind) -> bool {
    match oa {
        Some(a) => atom_bound(a, p),
        None => true,
    }
}

/// All positive body atoms from slot `bi` on are satisfied in `fs`
/// under `s`.
pub open spec fn sat_from(r: Rule, bi: int, s: Sub, fs: Set<Fact>) -> bool {
    forall|j: int| bi <= j < 4 ==> opt_sat(#[trigger] body_atom(r, j), s, fs)
}

/// All positive body atoms strictly before slot `bi` are bound in `p`.
pub open spec fn bound_thru(r: Rule, bi: int, p: PBind) -> bool {
    forall|j: int| 0 <= j < bi ==> opt_bound(#[trigger] body_atom(r, j), p)
}

/// `f` is the head instantiation of some completion of `p` that
/// satisfies the body atoms from slot `bi` on, and the guards, in `fs`.
pub open spec fn fired_from(r: Rule, p: PBind, bi: int, fs: Set<Fact>, f: Fact) -> bool {
    exists|s: Sub|
        compl(p, s) && sat_from(r, bi, s, fs) && #[trigger] guards_ok(r, s, fs) && f == inst(
            r.head,
            s,
        )
}

/// `f` is the head instantiation of some satisfied rule body.
pub open spec fn fired(rules: Seq<Rule>, fs: Set<Fact>, f: Fact) -> bool {
    exists|i: int, s: Sub|
        0 <= i < rules.len() && #[trigger] body_holds(rules[i], s, fs) && f == inst(
            rules[i].head,
            s,
        )
}

/// A variable occurring in a positive body atom is bound once all body
/// atoms have been matched.
proof fn lemma_pos_var_bound(r: Rule, p: PBind, v: u64)
    requires
        pos_var(r, v),
        bound_thru(r, 4, p),
    ensures
        pbind_get(p, v) is Some,
{
    assert(body_atom(r, 0) == r.b0);
    assert(body_atom(r, 1) == r.b1);
    assert(body_atom(r, 2) == r.b2);
    assert(body_atom(r, 3) == r.b3);
}

/// Two completions of `p` agree on every variable `p` binds.
proof fn lemma_sub_bound_agree(p: PBind, s1: Sub, s2: Sub, v: u64)
    requires
        pbind_get(p, v) is Some,
        compl(p, s1),
        compl(p, s2),
    ensures
        sub_get(s1, v) == sub_get(s2, v),
{
}

/// Two completions of `p` instantiate an atom bound in `p` identically.
proof fn lemma_inst_bound_agree(a: Atom, p: PBind, s1: Sub, s2: Sub)
    requires
        atom_bound(a, p),
        compl(p, s1),
        compl(p, s2),
    ensures
        inst(a, s1) == inst(a, s2),
{
}

/// An atom whose variables all occur positively is bound once all body
/// atoms have been matched.
proof fn lemma_atom_vars_pos_bound(r: Rule, a: Atom, p: PBind)
    requires
        atom_vars_pos(r, a),
        bound_thru(r, 4, p),
    ensures
        atom_bound(a, p),
{
    if let Term::Var(v) = a.t0 {
        lemma_pos_var_bound(r, p, v);
    }
    if let Term::Var(v) = a.t1 {
        lemma_pos_var_bound(r, p, v);
    }
    if let Term::Var(v) = a.t2 {
        lemma_pos_var_bound(r, p, v);
    }
    if let Term::Var(v) = a.t3 {
        lemma_pos_var_bound(r, p, v);
    }
}

/// The guards of a rule whose body is fully bound in `p` agree between
/// any two completions of `p`.
proof fn lemma_guards_agree(r: Rule, p: PBind, s1: Sub, s2: Sub, fs: Set<Fact>)
    requires
        rule_wf(r),
        bound_thru(r, 4, p),
        compl(p, s1),
        compl(p, s2),
    ensures
        guards_ok(r, s1, fs) == guards_ok(r, s2, fs),
        inst(r.head, s1) == inst(r.head, s2),
{
    lemma_atom_vars_pos_bound(r, r.head, p);
    lemma_inst_bound_agree(r.head, p, s1, s2);
    if let Some(a) = r.neg {
        lemma_atom_vars_pos_bound(r, a, p);
        lemma_inst_bound_agree(a, p, s1, s2);
    }
    if let Some(d) = r.diff {
        lemma_pos_var_bound(r, p, d.0);
        lemma_pos_var_bound(r, p, d.1);
        lemma_sub_bound_agree(p, s1, s2, d.0);
        lemma_sub_bound_agree(p, s1, s2, d.1);
    }
}

fn check_guards(r: &Rule, s: Sub, facts: &Vec<Fact>) -> (b: bool)
    requires
        rule_wf(*r),
    ensures
        b == guards_ok(*r, s, fset(facts@)),
{
    let neg_ok = match r.neg {
        Some(a) => !contains_fact(facts, inst_exec(a, s)),
        None => true,
    };
    let diff_ok = match r.diff {
        Some(d) => sub_get_exec(s, d.0) != sub_get_exec(s, d.1),
        None => true,
    };
    neg_ok && diff_ok
}

fn body_atom_exec(r: &Rule, bi: u64) -> (a: Option<Atom>)
    requires
        bi < 4,
    ensures
        a == body_atom(*r, bi as int),
{
    if bi == 0 {
        r.b0
    } else if bi == 1 {
        r.b1
    } else if bi == 2 {
        r.b2
    } else {
        r.b3
    }
}

/// Extends `out` with the head instantiation of every completion of `p`
/// that satisfies the body atoms from slot `bi` on and the guards.
fn search(r: &Rule, bi: u64, p: PBind, facts: &Vec<Fact>, out: &mut Vec<Fact>)
    requires
        rule_wf(*r),
        bi <= 4,
        bound_thru(*r, bi as int, p),
    ensures
        final(out)@.len() >= old(out)@.len(),
        forall|k: int| 0 <= k < old(out)@.len() ==> final(out)@[k] == old(out)@[k],
        forall|k: int|
            old(out)@.len() <= k < final(out)@.len() ==> fired_from(
                *r,
                p,
                bi as int,
                fset(facts@),
                #[trigger] final(out)@[k],
            ),
        forall|s: Sub|
            compl(p, s) && sat_from(*r, bi as int, s, fset(facts@)) && #[trigger] guards_ok(
                *r,
                s,
                fset(facts@),
            ) ==> final(out)@.contains(inst(r.head, s)),
    decreases 4 - bi,
{
    if bi == 4 {
        let s = sub_of(p);
        let pass = check_guards(r, s, facts);
        if pass {
            let f = inst_exec(r.head, s);
            out.push(f);
            proof {
                assert forall|k: int|
                    old(out)@.len() <= k < out@.len() implies fired_from(
                    *r,
                    p,
                    4,
                    fset(facts@),
                    out@[k],
                ) by {
                    assert(out@[k] == inst(r.head, s));
                    assert(compl(p, s) && sat_from(*r, 4, s, fset(facts@)) && guards_ok(
                        *r,
                        s,
                        fset(facts@),
                    ) && out@[k] == inst(r.head, s));
                }
            }
            assert forall|s2: Sub|
                compl(p, s2) && sat_from(*r, 4, s2, fset(facts@)) && #[trigger] guards_ok(
                    *r,
                    s2,
                    fset(facts@),
                ) implies final(out)@.contains(inst(r.head, s2)) by {
                lemma_guards_agree(*r, p, s, s2, fset(facts@));
                assert(final(out)@[final(out)@.len() - 1] == inst(r.head, s2));
            }
        } else {
            assert forall|s2: Sub|
                compl(p, s2) && sat_from(*r, 4, s2, fset(facts@)) implies !guards_ok(
                *r,
                s2,
                fset(facts@),
            ) by {
                lemma_guards_agree(*r, p, s, s2, fset(facts@));
            }
        }
        return ;
    }
    match body_atom_exec(r, bi) {
        None => {
            assert forall|s: Sub| true implies sat_from(*r, bi as int, s, fset(facts@))
                == sat_from(*r, bi as int + 1, s, fset(facts@)) by {
                if sat_from(*r, bi as int + 1, s, fset(facts@)) {
                    assert forall|j: int|
                        bi as int <= j < 4 implies opt_sat(
                        #[trigger] body_atom(*r, j),
                        s,
                        fset(facts@),
                    ) by {
                        if j == bi as int {
                            assert(body_atom(*r, j) is None);
                        }
                    }
                }
            }
            search(r, bi + 1, p, facts, out);
            return ;
        },
        Some(atom) => {
            let ghost out0 = out@;
            let n = facts.len();
            let mut fi: usize = 0;
            while fi < n
                invariant
                    rule_wf(*r),
                    bi < 4,
                    body_atom(*r, bi as int) == Some(atom),
                    atom_ok(atom),
                    bound_thru(*r, bi as int, p),
                    n == facts@.len(),
                    fi <= n,
                    out@.len() >= out0.len(),
                    forall|k: int| 0 <= k < out0.len() ==> out@[k] == out0[k],
                    forall|k: int|
                        out0.len() <= k < out@.len() ==> fired_from(
                            *r,
                            p,
                            bi as int,
                            fset(facts@),
                            #[trigger] out@[k],
                        ),
                    forall|s: Sub|
                        compl(p, s) && sat_from(*r, bi as int + 1, s, fset(facts@))
                            && #[trigger] guards_ok(*r, s, fset(facts@)) && (exists|j: int|
                            0 <= j < fi && facts@[j] == inst(atom, s)) ==> out@.contains(
                            inst(r.head, s),
                        ),
                decreases n - fi,
            {
                let f = facts[fi];
                let ghost out_before = out@;
                match match_atom(atom, f, p) {
                    Some(q) => {
                        proof {
                            assert forall|j: int|
                                0 <= j < bi as int + 1 implies opt_bound(
                                #[trigger] body_atom(*r, j),
                                q,
                            ) by {
                                if j < bi as int {
                                    assert(opt_bound(body_atom(*r, j), p));
                                    if let Some(a) = body_atom(*r, j) {
                                        assert(atom_bound(a, p));
                                        assert(atom_bound(a, q));
                                    }
                                } else {
                                    assert(body_atom(*r, j) == Some(atom));
                                }
                            }
                        }
                        search(r, bi + 1, q, facts, out);
                        proof {
                            // soundness of the new entries, against slot bi
                            assert forall|k: int|
                                out_before.len() <= k < out@.len() implies fired_from(
                                *r,
                                p,
                                bi as int,
                                fset(facts@),
                                out@[k],
                            ) by {
                                assert(fired_from(*r, q, bi as int + 1, fset(facts@), out@[k]));
                                let s = choose|s: Sub|
                                    compl(q, s) && sat_from(*r, bi as int + 1, s, fset(facts@))
                                        && #[trigger] guards_ok(*r, s, fset(facts@)) && out@[k]
                                        == inst(r.head, s);
                                assert(compl(q, s));
                                assert(compl(p, s) && inst(atom, s) == f);
                                assert(facts@.contains(f));
                                assert(fset(facts@).contains(inst(atom, s)));
                                assert forall|j: int|
                                    bi as int <= j < 4 implies opt_sat(
                                    #[trigger] body_atom(*r, j),
                                    s,
                                    fset(facts@),
                                ) by {
                                    if j == bi as int {
                                        assert(body_atom(*r, j) == Some(atom));
                                    }
                                }
                                assert(sat_from(*r, bi as int, s, fset(facts@)));
                            }
                        }
                    },
                    None => {},
                }
                proof {
                    // completeness for matches among facts[0..fi+1]
                    assert forall|s: Sub|
                        compl(p, s) && sat_from(*r, bi as int + 1, s, fset(facts@))
                            && #[trigger] guards_ok(*r, s, fset(facts@)) && (exists|j: int|
                            0 <= j < fi + 1 && facts@[j] == inst(atom, s)) implies out@.contains(
                        inst(r.head, s),
                    ) by {
                        let j = choose|j: int| 0 <= j < fi + 1 && facts@[j] == inst(atom, s);
                        if j < fi {
                            assert(out_before.contains(inst(r.head, s)));
                            let k = choose|k: int|
                                0 <= k < out_before.len() && out_before[k] == inst(r.head, s);
                            assert(out@[k] == inst(r.head, s));
                        }
                    }
                }
                fi = fi + 1;
            }
            proof {
                assert forall|s: Sub|
                    compl(p, s) && sat_from(*r, bi as int, s, fset(facts@)) && #[trigger] guards_ok(
                        *r,
                        s,
                        fset(facts@),
                    ) implies out@.contains(inst(r.head, s)) by {
                    assert(opt_sat(body_atom(*r, bi as int), s, fset(facts@)));
                    assert(fset(facts@).contains(inst(atom, s)));
                    assert(facts@.contains(inst(atom, s)));
                    let j = choose|j: int| 0 <= j < facts@.len() && facts@[j] == inst(atom, s);
                    assert(sat_from(*r, bi as int + 1, s, fset(facts@)));
                }
            }
        },
    }
}

/// Satisfaction of all four slots coincides with satisfaction of the
/// whole positive body.
proof fn lemma_sat_from_zero(r: Rule, s: Sub, fs: Set<Fact>)
    ensures
        sat_from(r, 0, s, fs) == pos_sat(r, s, fs),
{
    assert(body_atom(r, 0) == r.b0);
    assert(body_atom(r, 1) == r.b1);
    assert(body_atom(r, 2) == r.b2);
    assert(body_atom(r, 3) == r.b3);
    if pos_sat(r, s, fs) {
        assert forall|j: int| 0 <= j < 4 implies opt_sat(#[trigger] body_atom(r, j), s, fs) by {
            if j == 0 {
                assert(opt_sat(r.b0, s, fs));
            } else if j == 1 {
                assert(opt_sat(r.b1, s, fs));
            } else if j == 2 {
                assert(opt_sat(r.b2, s, fs));
            } else {
                assert(opt_sat(r.b3, s, fs));
            }
        }
    }
}

// ---------------------------------------------------------------------
// Derivability lemmas.
// ---------------------------------------------------------------------

/// Derivability is monotone in the depth bound.
pub proof fn lemma_deriv_fuel_mono(rules: Seq<Rule>, base: Set<Fact>, f: Fact, n: nat, m: nat)
    requires
        deriv(rules, base, f, n),
        n <= m,
    ensures
        deriv(rules, base, f, m),
    decreases n,
{
    if !base.contains(f) {
        let (i, s) = choose|i: int, s: Sub|
            {
                &&& 0 <= i < rules.len()
                &&& f == #[trigger] inst(rules[i].head, s)
                &&& (rules[i].b0 matches Some(a) ==> deriv(rules, base, inst(a, s), (n - 1) as nat))
                &&& (rules[i].b1 matches Some(a) ==> deriv(rules, base, inst(a, s), (n - 1) as nat))
                &&& (rules[i].b2 matches Some(a) ==> deriv(rules, base, inst(a, s), (n - 1) as nat))
                &&& (rules[i].b3 matches Some(a) ==> deriv(rules, base, inst(a, s), (n - 1) as nat))
                &&& (rules[i].neg matches Some(a) ==> !base.contains(inst(a, s)))
                &&& (rules[i].diff matches Some(d) ==> sub_get(s, d.0) != sub_get(s, d.1))
            };
        if let Some(a) = rules[i].b0 {
            lemma_deriv_fuel_mono(rules, base, inst(a, s), (n - 1) as nat, (m - 1) as nat);
        }
        if let Some(a) = rules[i].b1 {
            lemma_deriv_fuel_mono(rules, base, inst(a, s), (n - 1) as nat, (m - 1) as nat);
        }
        if let Some(a) = rules[i].b2 {
            lemma_deriv_fuel_mono(rules, base, inst(a, s), (n - 1) as nat, (m - 1) as nat);
        }
        if let Some(a) = rules[i].b3 {
            lemma_deriv_fuel_mono(rules, base, inst(a, s), (n - 1) as nat, (m - 1) as nat);
        }
        assert(deriv(rules, base, f, m));
    }
}

/// A derivable fact comes from the base or carries the relation of some
/// rule head.
pub proof fn lemma_deriv_rel(rules: Seq<Rule>, base: Set<Fact>, f: Fact, n: nat)
    requires
        deriv(rules, base, f, n),
    ensures
        base.contains(f) || head_rel(rules, f.rel),
{
    if !base.contains(f) {
        let (i, s) = choose|i: int, s: Sub|
            {
                &&& 0 <= i < rules.len()
                &&& f == #[trigger] inst(rules[i].head, s)
                &&& (rules[i].b0 matches Some(a) ==> deriv(rules, base, inst(a, s), (n - 1) as nat))
                &&& (rules[i].b1 matches Some(a) ==> deriv(rules, base, inst(a, s), (n - 1) as nat))
                &&& (rules[i].b2 matches Some(a) ==> deriv(rules, base, inst(a, s), (n - 1) as nat))
                &&& (rules[i].b3 matches Some(a) ==> deriv(rules, base, inst(a, s), (n - 1) as nat))
                &&& (rules[i].neg matches Some(a) ==> !base.contains(inst(a, s)))
                &&& (rules[i].diff matches Some(d) ==> sub_get(s, d.0) != sub_get(s, d.1))
            };
        assert((#[trigger] rules[i]).head.rel == f.rel);
    }
}

/// `sup` and `base` agree on every relation that some rule negates.
pub open spec fn neg_agrees(rules: Seq<Rule>, base: Set<Fact>, sup: Set<Fact>) -> bool {
    forall|f: Fact| negs_rel(rules, f.rel) ==> (#[trigger] sup.contains(f) <==> base.contains(f))
}

/// Minimality: every derivable fact lies in any closed superset of the
/// base whose negated relations agree with the base.
pub proof fn lemma_deriv_minimal(
    rules: Seq<Rule>,
    base: Set<Fact>,
    sup: Set<Fact>,
    f: Fact,
    n: nat,
)
    requires
        deriv(rules, base, f, n),
        base.subset_of(sup),
        closed(rules, sup),
        neg_agrees(rules, base, sup),
    ensures
        sup.contains(f),
    decreases n,
{
    if base.contains(f) {
        assert(sup.contains(f));
    } else {
        let (i, s) = choose|i: int, s: Sub|
            {
                &&& 0 <= i < rules.len()
                &&& f == #[trigger] inst(rules[i].head, s)
                &&& (rules[i].b0 matches Some(a) ==> deriv(rules, base, inst(a, s), (n - 1) as nat))
                &&& (rules[i].b1 matches Some(a) ==> deriv(rules, base, inst(a, s), (n - 1) as nat))
                &&& (rules[i].b2 matches Some(a) ==> deriv(rules, base, inst(a, s), (n - 1) as nat))
                &&& (rules[i].b3 matches Some(a) ==> deriv(rules, base, inst(a, s), (n - 1) as nat))
                &&& (rules[i].neg matches Some(a) ==> !base.contains(inst(a, s)))
                &&& (rules[i].diff matches Some(d) ==> sub_get(s, d.0) != sub_get(s, d.1))
            };
        if let Some(a) = rules[i].b0 {
            lemma_deriv_minimal(rules, base, sup, inst(a, s), (n - 1) as nat);
        }
        if let Some(a) = rules[i].b1 {
            lemma_deriv_minimal(rules, base, sup, inst(a, s), (n - 1) as nat);
        }
        if let Some(a) = rules[i].b2 {
            lemma_deriv_minimal(rules, base, sup, inst(a, s), (n - 1) as nat);
        }
        if let Some(a) = rules[i].b3 {
            lemma_deriv_minimal(rules, base, sup, inst(a, s), (n - 1) as nat);
        }
        if let Some(a) = rules[i].neg {
            assert(rule_neg_rel(rules[i], a.rel));
            assert(negs_rel(rules, a.rel));
            assert(inst(a, s).rel == a.rel);
            assert(!sup.contains(inst(a, s)));
        }
        assert(body_holds(rules[i], s, sup));
        assert(sup.contains(inst(rules[i].head, s)));
    }
}

/// Everything in a sequence of facts known to be pointwise derivable is
/// derivable.
proof fn lemma_all_deriv(rules: Seq<Rule>, base: Set<Fact>, fs: Seq<Fact>, f: Fact)
    requires
        fs.contains(f),
        forall|k: int| 0 <= k < fs.len() ==> derivable(rules, base, #[trigger] fs[k]),
    ensures
        derivable(rules, base, f),
{
    let k = choose|k: int| 0 <= k < fs.len() && fs[k] == f;
    assert(derivable(rules, base, fs[k]));
}

/// A satisfied rule body over pointwise-derivable facts yields a
/// derivable head.
proof fn lemma_derive_step(rules: Seq<Rule>, base: Set<Fact>, cur: Seq<Fact>, i: int, s: Sub)
    requires
        0 <= i < rules.len(),
        body_holds(rules[i], s, fset(cur)),
        base.subset_of(fset(cur)),
        forall|k: int| 0 <= k < cur.len() ==> derivable(rules, base, #[trigger] cur[k]),
    ensures
        derivable(rules, base, inst(rules[i].head, s)),
{
    assert(pos_sat(rules[i], s, fset(cur)));
    let n0: nat = if let Some(a) = rules[i].b0 {
        lemma_all_deriv(rules, base, cur, inst(a, s));
        choose|n: nat| deriv(rules, base, inst(a, s), n)
    } else {
        0
    };
    let n1: nat = if let Some(a) = rules[i].b1 {
        lemma_all_deriv(rules, base, cur, inst(a, s));
        choose|n: nat| deriv(rules, base, inst(a, s), n)
    } else {
        0
    };
    let n2: nat = if let Some(a) = rules[i].b2 {
        lemma_all_deriv(rules, base, cur, inst(a, s));
        choose|n: nat| deriv(rules, base, inst(a, s), n)
    } else {
        0
    };
    let n3: nat = if let Some(a) = rules[i].b3 {
        lemma_all_deriv(rules, base, cur, inst(a, s));
        choose|n: nat| deriv(rules, base, inst(a, s), n)
    } else {
        0
    };
    let m: nat = n0 + n1 + n2 + n3;
    if let Some(a) = rules[i].b0 {
        lemma_deriv_fuel_mono(rules, base, inst(a, s), n0, m);
    }
    if let Some(a) = rules[i].b1 {
        lemma_deriv_fuel_mono(rules, base, inst(a, s), n1, m);
    }
    if let Some(a) = rules[i].b2 {
        lemma_deriv_fuel_mono(rules, base, inst(a, s), n2, m);
    }
    if let Some(a) = rules[i].b3 {
        lemma_deriv_fuel_mono(rules, base, inst(a, s), n3, m);
    }
    if let Some(a) = rules[i].neg {
        assert(!fset(cur).contains(inst(a, s)));
        assert(!base.contains(inst(a, s)));
    }
    assert(deriv(rules, base, inst(rules[i].head, s), m + 1));
    assert(derivable(rules, base, inst(rules[i].head, s)));
}

/// Inversion: a fact of the fixpoint that is not an input was produced
/// by some rule whose positive body atoms lie in the fixpoint, whose
/// negated atom misses the base, and whose guard holds.
pub proof fn lemma_lfp_inversion(rules: Seq<Rule>, base: Set<Fact>, f: Fact)
    requires
        stratum_lfp(rules, base).contains(f),
        !base.contains(f),
    ensures
        exists|i: int, s: Sub|
            {
                &&& 0 <= i < rules.len()
                &&& f == #[trigger] inst(rules[i].head, s)
                &&& (rules[i].b0 matches Some(a) ==> stratum_lfp(rules, base).contains(
                    inst(a, s),
                ))
                &&& (rules[i].b1 matches Some(a) ==> stratum_lfp(rules, base).contains(
                    inst(a, s),
                ))
                &&& (rules[i].b2 matches Some(a) ==> stratum_lfp(rules, base).contains(
                    inst(a, s),
                ))
                &&& (rules[i].b3 matches Some(a) ==> stratum_lfp(rules, base).contains(
                    inst(a, s),
                ))
                &&& (rules[i].neg matches Some(a) ==> !base.contains(inst(a, s)))
                &&& (rules[i].diff matches Some(d) ==> sub_get(s, d.0) != sub_get(s, d.1))
            },
{
    assert(derivable(rules, base, f));
    let n = choose|n: nat| deriv(rules, base, f, n);
    let (i, s) = choose|i: int, s: Sub|
        {
            &&& 0 <= i < rules.len()
            &&& f == #[trigger] inst(rules[i].head, s)
            &&& (rules[i].b0 matches Some(a) ==> deriv(rules, base, inst(a, s), (n - 1) as nat))
            &&& (rules[i].b1 matches Some(a) ==> deriv(rules, base, inst(a, s), (n - 1) as nat))
            &&& (rules[i].b2 matches Some(a) ==> deriv(rules, base, inst(a, s), (n - 1) as nat))
            &&& (rules[i].b3 matches Some(a) ==> deriv(rules, base, inst(a, s), (n - 1) as nat))
            &&& (rules[i].neg matches Some(a) ==> !base.contains(inst(a, s)))
            &&& (rules[i].diff matches Some(d) ==> sub_get(s, d.0) != sub_get(s, d.1))
        };
    if let Some(a) = rules[i].b0 {
        assert(derivable(rules, base, inst(a, s)));
    }
    if let Some(a) = rules[i].b1 {
        assert(derivable(rules, base, inst(a, s)));
    }
    if let Some(a) = rules[i].b2 {
        assert(derivable(rules, base, inst(a, s)));
    }
    if let Some(a) = rules[i].b3 {
        assert(derivable(rules, base, inst(a, s)));
    }
}

/// A fact of the fixpoint whose relation no rule derives is an input.
pub proof fn lemma_lfp_non_head_is_input(rules: Seq<Rule>, base: Set<Fact>, f: Fact)
    requires
        stratum_lfp(rules, base).contains(f),
        !head_rel(rules, f.rel),
    ensures
        base.contains(f),
{
    assert(derivable(rules, base, f));
    let n = choose|n: nat| deriv(rules, base, f, n);
    lemma_deriv_rel(rules, base, f, n);
}

// ---------------------------------------------------------------------
// Finiteness of the fact universe.
// ---------------------------------------------------------------------

pub open spec fn two64() -> int {
    0x10000000000000000
}

/// An injective integer encoding of a fact.
pub open spec fn fact_code(f: Fact) -> int {
    (((f.rel * two64() + f.a0) * two64() + f.a1) * two64() + f.a2) * two64() + f.a3
}

/// The number of distinct facts.
pub open spec fn max_facts() -> int {
    two64() * two64() * two64() * two64() * two64()
}

proof fn lemma_base_split(x1: int, y1: int, x2: int, y2: int)
    requires
        0 <= y1 < two64(),
        0 <= y2 < two64(),
        x1 * two64() + y1 == x2 * two64() + y2,
    ensures
        x1 == x2,
        y1 == y2,
{
    assert(x1 == x2 && y1 == y2) by (nonlinear_arith)
        requires
            0 <= y1 < 0x10000000000000000,
            0 <= y2 < 0x10000000000000000,
            x1 * 0x10000000000000000 + y1 == x2 * 0x10000000000000000 + y2,
    ;
}

proof fn lemma_code_injective(f1: Fact, f2: Fact)
    requires
        fact_code(f1) == fact_code(f2),
    ensures
        f1 == f2,
{
    let c1_2 = (f1.rel * two64() + f1.a0) * two64() + f1.a1;
    let c1_3 = c1_2 * two64() + f1.a2;
    let c2_2 = (f2.rel * two64() + f2.a0) * two64() + f2.a1;
    let c2_3 = c2_2 * two64() + f2.a2;
    lemma_base_split(c1_3, f1.a3 as int, c2_3, f2.a3 as int);
    lemma_base_split(c1_2, f1.a2 as int, c2_2, f2.a2 as int);
    lemma_base_split(
        f1.rel * two64() + f1.a0,
        f1.a1 as int,
        f2.rel * two64() + f2.a0,
        f2.a1 as int,
    );
    lemma_base_split(f1.rel as int, f1.a0 as int, f2.rel as int, f2.a0 as int);
}

proof fn lemma_horner(x: int, y: int, m: int)
    requires
        0 <= x < m,
        0 <= y < two64(),
    ensures
        0 <= x * two64() + y < m * two64(),
{
    assert(0 <= x * 0x10000000000000000 + y < m * 0x10000000000000000) by (nonlinear_arith)
        requires
            0 <= x < m,
            0 <= y < 0x10000000000000000,
    ;
}

proof fn lemma_code_bounds(f: Fact)
    ensures
        0 <= fact_code(f) < max_facts(),
{
    lemma_horner(f.rel as int, f.a0 as int, two64());
    lemma_horner(f.rel * two64() + f.a0, f.a1 as int, two64() * two64());
    lemma_horner(
        (f.rel * two64() + f.a0) * two64() + f.a1,
        f.a2 as int,
        two64() * two64() * two64(),
    );
    lemma_horner(
        ((f.rel * two64() + f.a0) * two64() + f.a1) * two64() + f.a2,
        f.a3 as int,
        two64() * two64() * two64() * two64(),
    );
}

/// A duplicate-free vector of facts cannot outgrow the fact universe.
proof fn lemma_nodup_len(fs: Seq<Fact>)
    requires
        fs.no_duplicates(),
    ensures
        fs.len() <= max_facts(),
{
    broadcast use vstd::set::group_set_axioms;

    let fcode = |f: Fact| fact_code(f);
    assert(vstd::relations::injective(fcode)) by {
        assert forall|f1: Fact, f2: Fact| #[trigger] fcode(f1) == #[trigger] fcode(f2) implies f1
            == f2 by {
            lemma_code_injective(f1, f2);
        }
    }
    fs.lemma_no_duplicates_injective(fcode);
    let codes = fs.map_values(fcode);
    codes.unique_seq_to_set();
    assert forall|c: int| codes.to_set().contains(c) implies vstd::set_lib::set_int_range(
        0,
        max_facts(),
    ).contains(c) by {
        assert(codes.contains(c));
        let j = choose|j: int| 0 <= j < codes.len() && codes[j] == c;
        assert(codes[j] == fcode(fs[j]));
        lemma_code_bounds(fs[j]);
    }
    vstd::set_lib::lemma_int_range(0, max_facts());
    vstd::set_lib::lemma_len_subset(
        codes.to_set(),
        vstd::set_lib::set_int_range(0, max_facts()),
    );
}

/// Extends `out` with every firing of one rule against `facts`.
fn apply_rule(r: &Rule, facts: &Vec<Fact>, out: &mut Vec<Fact>)
    requires
        rule_wf(*r),
    ensures
        final(out)@.len() >= old(out)@.len(),
        forall|k: int| 0 <= k < old(out)@.len() ==> final(out)@[k] == old(out)@[k],
        forall|k: int|
            old(out)@.len() <= k < final(out)@.len() ==> fired_from(
                *r,
                pbind_empty(),
                0,
                fset(facts@),
                #[trigger] final(out)@[k],
            ),
        forall|s: Sub|
            #[trigger] body_holds(*r, s, fset(facts@)) ==> final(out)@.contains(inst(r.head, s)),
{
    let p0 = PBind { v0: None, v1: None, v2: None, v3: None, v4: None, v5: None };
    assert(p0 == pbind_empty());
    search(r, 0, p0, facts, out);
    assert forall|s: Sub| #[trigger] body_holds(*r, s, fset(facts@)) implies out@.contains(
        inst(r.head, s),
    ) by {
        assert(compl(pbind_empty(), s));
        lemma_sat_from_zero(*r, s, fset(facts@));
    }
}

/// One naive round: every firing of every rule against `facts`.
fn round(rules: &Vec<Rule>, facts: &Vec<Fact>) -> (out: Vec<Fact>)
    requires
        rules_wf(rules@),
    ensures
        forall|k: int| 0 <= k < out@.len() ==> fired(rules@, fset(facts@), #[trigger] out@[k]),
        forall|i: int, s: Sub|
            0 <= i < rules@.len() && #[trigger] body_holds(rules@[i], s, fset(facts@))
                ==> out@.contains(inst(rules@[i].head, s)),
{
    let mut out: Vec<Fact> = Vec::new();
    let n = rules.len();
    let mut i: usize = 0;
    while i < n
        invariant
            rules_wf(rules@),
            n == rules@.len(),
            i <= n,
            forall|k: int| 0 <= k < out@.len() ==> fired(rules@, fset(facts@), #[trigger] out@[k]),
            forall|i2: int, s: Sub|
                0 <= i2 < i && #[trigger] body_holds(rules@[i2], s, fset(facts@))
                    ==> out@.contains(inst(rules@[i2].head, s)),
        decreases n - i,
    {
        let ghost out_before = out@;
        let r = rules[i];
        apply_rule(&r, facts, &mut out);
        proof {
            assert forall|k: int|
                out_before.len() <= k < out@.len() implies fired(
                rules@,
                fset(facts@),
                out@[k],
            ) by {
                assert(fired_from(r, pbind_empty(), 0, fset(facts@), out@[k]));
                let s = choose|s: Sub|
                    compl(pbind_empty(), s) && sat_from(r, 0, s, fset(facts@))
                        && #[trigger] guards_ok(r, s, fset(facts@)) && out@[k] == inst(r.head, s);
                lemma_sat_from_zero(r, s, fset(facts@));
                assert(body_holds(rules@[i as int], s, fset(facts@)));
            }
            assert forall|i2: int, s: Sub|
                0 <= i2 < i + 1 && #[trigger] body_holds(rules@[i2], s, fset(facts@))
                    implies out@.contains(inst(rules@[i2].head, s)) by {
                if i2 < i {
                    assert(out_before.contains(inst(rules@[i2].head, s)));
                    let k = choose|k: int|
                        0 <= k < out_before.len() && out_before[k] == inst(rules@[i2].head, s);
                    assert(out@[k] == inst(rules@[i2].head, s));
                } else {
                    assert(rules@[i2] == r);
                }
            }
        }
        i = i + 1;
    }
    out
}


// ---------------------------------------------------------------------
// The fixpoint loop.
// ---------------------------------------------------------------------

/// Inserts the facts of `new_facts` that are not yet present. Returns
/// whether anything was inserted.
fn absorb(facts: &mut Vec<Fact>, new_facts: &Vec<Fact>) -> (added: bool)
    requires
        old(facts)@.no_duplicates(),
    ensures
        final(facts)@.no_duplicates(),
        final(facts)@.len() >= old(facts)@.len(),
        forall|k: int| 0 <= k < old(facts)@.len() ==> final(facts)@[k] == old(facts)@[k],
        forall|k: int|
            old(facts)@.len() <= k < final(facts)@.len() ==> new_facts@.contains(
                #[trigger] final(facts)@[k],
            ),
        forall|k: int| 0 <= k < new_facts@.len() ==> final(facts)@.contains(#[trigger] new_facts@[k]),
        !added ==> final(facts)@ == old(facts)@,
        added ==> final(facts)@.len() > old(facts)@.len(),
{
    let ghost facts0 = facts@;
    let mut added = false;
    let n = new_facts.len();
    let mut j: usize = 0;
    while j < n
        invariant
            n == new_facts@.len(),
            j <= n,
            facts@.no_duplicates(),
            facts@.len() >= facts0.len(),
            forall|k: int| 0 <= k < facts0.len() ==> facts@[k] == facts0[k],
            forall|k: int|
                facts0.len() <= k < facts@.len() ==> new_facts@.contains(#[trigger] facts@[k]),
            forall|k: int| 0 <= k < j ==> facts@.contains(#[trigger] new_facts@[k]),
            !added ==> facts@ == facts0,
            added ==> facts@.len() > facts0.len(),
        decreases n - j,
    {
        let nf = new_facts[j];
        let ghost fpre = facts@;
        if !contains_fact(facts, nf) {
            facts.push(nf);
            added = true;
            proof {
                assert(facts@ == fpre.push(nf));
                assert forall|x: int, y: int|
                    0 <= x < facts@.len() && 0 <= y < facts@.len() && x != y implies facts@[x]
                    != facts@[y] by {
                    if y == facts@.len() - 1 && x < y {
                        if facts@[x] == nf {
                            assert(fpre[x] == nf);
                            assert(fpre.contains(nf));
                        }
                    }
                    if x == facts@.len() - 1 && y < x {
                        if facts@[y] == nf {
                            assert(fpre[y] == nf);
                            assert(fpre.contains(nf));
                        }
                    }
                }
                assert(facts@.no_duplicates());
                assert(facts@[facts@.len() - 1] == nf);
            }
        }
        proof {
            assert forall|k: int| 0 <= k < j + 1 implies facts@.contains(
                #[trigger] new_facts@[k],
            ) by {
                if k < j {
                    assert(fpre.contains(new_facts@[k]));
                    let x = choose|x: int| 0 <= x < fpre.len() && fpre[x] == new_facts@[k];
                    assert(facts@[x] == new_facts@[k]);
                } else {
                    if fpre.contains(nf) {
                        let x = choose|x: int| 0 <= x < fpre.len() && fpre[x] == nf;
                        assert(facts@[x] == nf);
                    } else {
                        assert(facts@[facts@.len() - 1] == nf);
                    }
                }
            }
        }
        j = j + 1;
    }
    added
}

/// Runs one stratum to its fixpoint: the result holds exactly the facts
/// derivable from the input facts by the stratum's rules.
#[verifier::loop_isolation(false)]
pub fn run_stratum(rules: &Vec<Rule>, facts: Vec<Fact>) -> (out: Vec<Fact>)
    requires
        rules_wf(rules@),
        stratum_strat_ok(rules@),
        facts@.no_duplicates(),
    ensures
        out@.no_duplicates(),
        fset(out@) == stratum_lfp(rules@, fset(facts@)),
{
    let ghost base = fset(facts@);
    let mut facts = facts;
    proof {
        assert forall|k: int| 0 <= k < facts@.len() implies derivable(
            rules@,
            base,
            #[trigger] facts@[k],
        ) by {
            assert(base.contains(facts@[k]));
            assert(deriv(rules@, base, facts@[k], 0));
        }
        lemma_nodup_len(facts@);
    }
    loop
        invariant
            rules_wf(rules@),
            stratum_strat_ok(rules@),
            facts@.no_duplicates(),
            facts@.len() <= max_facts(),
            base.subset_of(fset(facts@)),
            forall|k: int| 0 <= k < facts@.len() ==> derivable(rules@, base, #[trigger] facts@[k]),
        decreases max_facts() - facts@.len(),
    {
        let ghost snap = facts@;
        let new_facts = round(rules, &facts);
        let added = absorb(&mut facts, &new_facts);
        proof {
            // every fact that entered is a fired head, hence derivable
            assert forall|k: int| 0 <= k < facts@.len() implies derivable(
                rules@,
                base,
                #[trigger] facts@[k],
            ) by {
                if k >= snap.len() {
                    assert(new_facts@.contains(facts@[k]));
                    let k2 = choose|k2: int|
                        0 <= k2 < new_facts@.len() && new_facts@[k2] == facts@[k];
                    assert(fired(rules@, fset(snap), new_facts@[k2]));
                    let (i, s) = choose|i: int, s: Sub|
                        0 <= i < rules@.len() && #[trigger] body_holds(rules@[i], s, fset(snap))
                            && new_facts@[k2] == inst(rules@[i].head, s);
                    lemma_derive_step(rules@, base, snap, i, s);
                }
            }
            lemma_nodup_len(facts@);
        }
        if !added {
            proof {
                assert(facts@ == snap);
                // no new firing escaped: the set is closed
                assert forall|i: int, s: Sub|
                    0 <= i < rules@.len() && #[trigger] body_holds(rules@[i], s, fset(facts@))
                        implies fset(facts@).contains(inst(rules@[i].head, s)) by {
                    assert(new_facts@.contains(inst(rules@[i].head, s)));
                    assert(facts@.contains(inst(rules@[i].head, s)));
                }
                assert(closed(rules@, fset(facts@)));
                // agreement on negated relations
                assert forall|g: Fact| negs_rel(rules@, g.rel) implies (#[trigger] fset(
                    facts@,
                ).contains(g) <==> base.contains(g)) by {
                    if fset(facts@).contains(g) {
                        assert(derivable(rules@, base, g));
                        let n = choose|n: nat| deriv(rules@, base, g, n);
                        lemma_deriv_rel(rules@, base, g, n);
                        assert(!head_rel(rules@, g.rel));
                        assert(base.contains(g));
                    }
                }
                assert(neg_agrees(rules@, base, fset(facts@)));
                assert(fset(facts@) =~= stratum_lfp(rules@, base)) by {
                    assert forall|f: Fact| fset(facts@).contains(f) implies stratum_lfp(
                        rules@,
                        base,
                    ).contains(f) by {
                        assert(derivable(rules@, base, f));
                    }
                    assert forall|f: Fact| stratum_lfp(rules@, base).contains(f) implies fset(
                        facts@,
                    ).contains(f) by {
                        assert(derivable(rules@, base, f));
                        let n = choose|n: nat| deriv(rules@, base, f, n);
                        lemma_deriv_minimal(rules@, base, fset(facts@), f, n);
                    }
                }
            }
            return facts;
        }
    }
}


// ---------------------------------------------------------------------
// Rule sets: eager validation, then evaluation stratum by stratum.
// ---------------------------------------------------------------------

/// A rule-set configuration the evaluator must refuse to run.
#[derive(Debug, Copy, Clone, PartialEq, Eq, Structural)]
pub enum RuleSetError {
    /// A head, negation or guard variable is out of range or occurs in
    /// no positive body atom.
    UnboundVariable,
    /// The strata do not order the rules: a negated relation is derived
    /// in the same or a later stratum, or a positive dependency is
    /// derived in a strictly later stratum.
    NegationCycle,
}

pub open spec fn views(strata: Seq<Vec<Rule>>) -> Seq<Seq<Rule>> {
    strata.map_values(|v: Vec<Rule>| v@)
}

/// A validated, stratified rule set.
#[derive(Debug)]
pub struct RuleSet {
    pub strata: Vec<Vec<Rule>>,
}

impl RuleSet {
    /// The rule strata, in evaluation order.
    pub open spec fn strata_seq(self) -> Seq<Seq<Rule>> {
        views(self.strata@)
    }
}

fn term_ok_exec(t: Term) -> (b: bool)
    ensures
        b == term_ok(t),
{
    match t {
        Term::Const(_) => true,
        Term::Var(v) => v < NVARS,
    }
}

fn atom_ok_exec(a: &Atom) -> (b: bool)
    ensures
        b == atom_ok(*a),
{
    term_ok_exec(a.t0) && term_ok_exec(a.t1) && term_ok_exec(a.t2) && term_ok_exec(a.t3)
}

fn atom_has_var_exec(a: &Atom, v: u64) -> (b: bool)
    ensures
        b == atom_has_var(*a, v),
{
    a.t0 == Term::Var(v) || a.t1 == Term::Var(v) || a.t2 == Term::Var(v) || a.t3 == Term::Var(v)
}

fn pos_var_exec(r: &Rule, v: u64) -> (b: bool)
    ensures
        b == pos_var(*r, v),
{
    let c0 = match r.b0 {
        Some(a) => atom_has_var_exec(&a, v),
        None => false,
    };
    let c1 = match r.b1 {
        Some(a) => atom_has_var_exec(&a, v),
        None => false,
    };
    let c2 = match r.b2 {
        Some(a) => atom_has_var_exec(&a, v),
        None => false,
    };
    let c3 = match r.b3 {
        Some(a) => atom_has_var_exec(&a, v),
        None => false,
    };
    c0 || c1 || c2 || c3
}

fn term_pos_exec(r: &Rule, t: Term) -> (b: bool)
    ensures
        b == (t matches Term::Var(v) ==> pos_var(*r, v)),
{
    match t {
        Term::Const(_) => true,
        Term::Var(v) => pos_var_exec(r, v),
    }
}

fn atom_vars_pos_exec(r: &Rule, a: &Atom) -> (b: bool)
    ensures
        b == atom_vars_pos(*r, *a),
{
    term_pos_exec(r, a.t0) && term_pos_exec(r, a.t1) && term_pos_exec(r, a.t2) && term_pos_exec(
        r,
        a.t3,
    )
}

fn rule_wf_exec(r: &Rule) -> (b: bool)
    ensures
        b == rule_wf(*r),
{
    let ok_atoms = atom_ok_exec(&r.head) && (match r.b0 {
        Some(a) => atom_ok_exec(&a),
        None => true,
    }) && (match r.b1 {
        Some(a) => atom_ok_exec(&a),
        None => true,
    }) && (match r.b2 {
        Some(a) => atom_ok_exec(&a),
        None => true,
    }) && (match r.b3 {
        Some(a) => atom_ok_exec(&a),
        None => true,
    }) && (match r.neg {
        Some(a) => atom_ok_exec(&a),
        None => true,
    });
    let ok_vars = atom_vars_pos_exec(r, &r.head) && (match r.neg {
        Some(a) => atom_vars_pos_exec(r, &a),
        None => true,
    }) && (match r.diff {
        Some(d) => d.0 < NVARS && d.1 < NVARS && pos_var_exec(r, d.0) && pos_var_exec(r, d.1),
        None => true,
    });
    ok_atoms && ok_vars
}

fn stratum_rules_wf(s: &Vec<Rule>) -> (b: bool)
    ensures
        b == rules_wf(s@),
{
    let n = s.len();
    let mut i: usize = 0;
    while i < n
        invariant
            n == s@.len(),
            i <= n,
            forall|j: int| 0 <= j < i ==> rule_wf(#[trigger] s@[j]),
        decreases n - i,
    {
        if !rule_wf_exec(&s[i]) {
            return false;
        }
        i = i + 1;
    }
    true
}

fn head_rel_exec(s: &Vec<Rule>, q: u64) -> (b: bool)
    ensures
        b == head_rel(s@, q),
{
    let n = s.len();
    let mut i: usize = 0;
    while i < n
        invariant
            n == s@.len(),
            i <= n,
            forall|j: int| 0 <= j < i ==> (#[trigger] s@[j]).head.rel != q,
        decreases n - i,
    {
        if s[i].head.rel == q {
            return true;
        }
        i = i + 1;
    }
    proof {
        if head_rel(s@, q) {
            let j = choose|j: int| 0 <= j < s@.len() && (#[trigger] s@[j]).head.rel == q;
        }
    }
    false
}

/// No relation negated in `s1` is derived in `s2`.
pub open spec fn negs_clear(s1: Seq<Rule>, s2: Seq<Rule>) -> bool {
    forall|q: u64| #[trigger] negs_rel(s1, q) ==> !head_rel(s2, q)
}

/// No relation read positively in `s1` is derived in `s2`.
pub open spec fn poss_clear(s1: Seq<Rule>, s2: Seq<Rule>) -> bool {
    forall|q: u64| #[trigger] poss_rel(s1, q) ==> !head_rel(s2, q)
}

fn stratum_negs_clear(s1: &Vec<Rule>, s2: &Vec<Rule>) -> (b: bool)
    ensures
        b == negs_clear(s1@, s2@),
{
    let n = s1.len();
    let mut i: usize = 0;
    while i < n
        invariant
            n == s1@.len(),
            i <= n,
            forall|j: int|
                0 <= j < i ==> ((#[trigger] s1@[j]).neg matches Some(na) ==> !head_rel(
                    s2@,
                    na.rel,
                )),
        decreases n - i,
    {
        if let Some(na) = s1[i].neg {
            if head_rel_exec(s2, na.rel) {
                proof {
                    assert(rule_neg_rel(s1@[i as int], na.rel));
                    assert(negs_rel(s1@, na.rel));
                }
                return false;
            }
        }
        i = i + 1;
    }
    proof {
        assert forall|q: u64| #[trigger] negs_rel(s1@, q) implies !head_rel(s2@, q) by {
            let j = choose|j: int| 0 <= j < s1@.len() && rule_neg_rel(#[trigger] s1@[j], q);
        }
    }
    true
}

fn stratum_poss_clear(s1: &Vec<Rule>, s2: &Vec<Rule>) -> (b: bool)
    ensures
        b == poss_clear(s1@, s2@),
{
    let n = s1.len();
    let mut i: usize = 0;
    while i < n
        invariant
            n == s1@.len(),
            i <= n,
            forall|j: int| 0 <= j < i ==> !rule_pos_feeds(#[trigger] s1@[j], s2@),
        decreases n - i,
    {
        let r = s1[i];
        if let Some(a) = r.b0 {
            if head_rel_exec(s2, a.rel) {
                proof {
                    assert(rule_pos_rel(r, a.rel));
                    assert(poss_rel(s1@, a.rel));
                }
                return false;
            }
        }
        if let Some(a) = r.b1 {
            if head_rel_exec(s2, a.rel) {
                proof {
                    assert(rule_pos_rel(r, a.rel));
                    assert(poss_rel(s1@, a.rel));
                }
                return false;
            }
        }
        if let Some(a) = r.b2 {
            if head_rel_exec(s2, a.rel) {
                proof {
                    assert(rule_pos_rel(r, a.rel));
                    assert(poss_rel(s1@, a.rel));
                }
                return false;
            }
        }
        if let Some(a) = r.b3 {
            if head_rel_exec(s2, a.rel) {
                proof {
                    assert(rule_pos_rel(r, a.rel));
                    assert(poss_rel(s1@, a.rel));
                }
                return false;
            }
        }
        proof {
            assert forall|q: u64| rule_pos_rel(r, q) implies !#[trigger] head_rel(s2@, q) by {}
            assert(!rule_pos_feeds(s1@[i as int], s2@));
        }
        i = i + 1;
    }
    proof {
        assert forall|q: u64| #[trigger] poss_rel(s1@, q) implies !head_rel(s2@, q) by {
            let j = choose|j: int| 0 <= j < s1@.len() && rule_pos_rel(#[trigger] s1@[j], q);
        }
    }
    true
}

/// Some positive body relation of `r` is derived in `s2`.
pub open spec fn rule_pos_feeds(r: Rule, s2: Seq<Rule>) -> bool {
    exists|q: u64| rule_pos_rel(r, q) && #[trigger] head_rel(s2, q)
}


impl RuleSet {
    /// Validates a stratified rule set, rejecting a malformed rule or an
    /// ordering the evaluator could not run soundly.
    pub fn new(strata: Vec<Vec<Rule>>) -> (r: Result<RuleSet, RuleSetError>)
        ensures
            match r {
                Ok(rs) => rs.strata@ == strata@ && strata_wf(views(strata@)),
                Err(e) => !strata_wf(views(strata@)),
            },
    {
        let ghost ss = views(strata@);
        proof {
            assert(ss.len() == strata@.len());
            assert(forall|k: int| 0 <= k < ss.len() ==> #[trigger] ss[k] == strata@[k]@);
        }
        let n = strata.len();
        let mut k: usize = 0;
        while k < n
            invariant
                n == strata@.len(),
                ss == views(strata@),
                ss.len() == n,
                forall|k2: int| 0 <= k2 < ss.len() ==> #[trigger] ss[k2] == strata@[k2]@,
                k <= n,
                forall|j: int| 0 <= j < k ==> rules_wf(#[trigger] ss[j]),
            decreases n - k,
        {
            if !stratum_rules_wf(&strata[k]) {
                proof {
                    assert(!rules_wf(ss[k as int]));
                    if strata_wf(ss) {
                        assert(rules_wf(ss[k as int]));
                    }
                }
                return Err(RuleSetError::UnboundVariable);
            }
            k = k + 1;
        }
        let mut k: usize = 0;
        while k < n
            invariant
                n == strata@.len(),
                ss == views(strata@),
                ss.len() == n,
                forall|k2: int| 0 <= k2 < ss.len() ==> #[trigger] ss[k2] == strata@[k2]@,
                k <= n,
                forall|j: int| 0 <= j < n ==> rules_wf(#[trigger] ss[j]),
                forall|j: int, j2: int| 0 <= j < k && j <= j2 < n ==> negs_clear(#[trigger] ss[j], #[trigger] ss[j2]),
                forall|j: int, j2: int| 0 <= j < k && j < j2 < n ==> poss_clear(#[trigger] ss[j], #[trigger] ss[j2]),
            decreases n - k,
        {
            let mut k2: usize = k;
            while k2 < n
                invariant
                    n == strata@.len(),
                    ss == views(strata@),
                    ss.len() == n,
                    forall|j2: int| 0 <= j2 < ss.len() ==> #[trigger] ss[j2] == strata@[j2]@,
                    k < n,
                    k <= k2 <= n,
                    forall|j2: int| k <= j2 < k2 ==> negs_clear(ss[k as int], #[trigger] ss[j2]),
                    forall|j2: int| k < j2 < k2 ==> poss_clear(ss[k as int], #[trigger] ss[j2]),
                decreases n - k2,
            {
                if !stratum_negs_clear(&strata[k], &strata[k2]) {
                    proof {
                        let q = choose|q: u64| #[trigger] negs_rel(ss[k as int], q) && head_rel(ss[k2 as int], q);
                        assert(!strata_wf(ss));
                    }
                    return Err(RuleSetError::NegationCycle);
                }
                if k2 > k {
                    if !stratum_poss_clear(&strata[k], &strata[k2]) {
                        proof {
                            let q = choose|q: u64| #[trigger] poss_rel(ss[k as int], q) && head_rel(ss[k2 as int], q);
                            assert(!strata_wf(ss));
                        }
                        return Err(RuleSetError::NegationCycle);
                    }
                }
                k2 = k2 + 1;
            }
            k = k + 1;
        }
        proof {
            assert forall|j: int, j2: int, q: u64|
                0 <= j <= j2 < ss.len() && #[trigger] negs_rel(ss[j], q) implies !#[trigger] head_rel(ss[j2], q) by {
                assert(negs_clear(ss[j], ss[j2]));
            }
            assert forall|j: int, j2: int, q: u64|
                0 <= j < j2 < ss.len() && #[trigger] poss_rel(ss[j], q) implies !#[trigger] head_rel(ss[j2], q) by {
                assert(poss_clear(ss[j], ss[j2]));
            }
            assert(strata_wf(ss));
        }
        Ok(RuleSet { strata })
    }
}

/// Evaluates a validated rule set on a collection of input facts,
/// returning (without duplicates) exactly the stratified least model:
/// the input facts together with everything the rules derive.
#[verifier::loop_isolation(false)]
pub fn run(rs: &RuleSet, inputs: &Vec<Fact>) -> (out: Vec<Fact>)
    requires
        strata_wf(rs.strata_seq()),
    ensures
        out@.no_duplicates(),
        fset(out@) == strata_lfp(rs.strata_seq(), fset(inputs@)),
{
    let ghost ss = rs.strata_seq();
    let mut facts: Vec<Fact> = Vec::new();
    absorb(&mut facts, inputs);
    proof {
        assert(fset(facts@) =~= fset(inputs@)) by {
            assert forall|f: Fact| fset(facts@).contains(f) implies fset(inputs@).contains(f) by {
                let x = choose|x: int| 0 <= x < facts@.len() && facts@[x] == f;
            }
        }
        assert(ss.take(0) =~= Seq::<Seq<Rule>>::empty());
    }
    let n = rs.strata.len();
    let mut k: usize = 0;
    while k < n
        invariant
            k <= n,
            facts@.no_duplicates(),
            fset(facts@) == strata_lfp(ss.take(k as int), fset(inputs@)),
        decreases n - k,
    {
        proof {
            assert(ss[k as int] == rs.strata@[k as int]@);
            assert(rules_wf(ss[k as int]));
            assert forall|q: u64| #[trigger] negs_rel(ss[k as int], q) implies !head_rel(
                ss[k as int],
                q,
            ) by {
                assert((k as int) < ss.len());
            }
            assert(stratum_strat_ok(ss[k as int]));
        }
        let stratum = &rs.strata[k];
        facts = run_stratum(stratum, facts);
        proof {
            assert(ss.take(k + 1 as int).drop_last() =~= ss.take(k as int));
            assert(ss.take(k + 1 as int).last() == ss[k as int]);
            assert(fset(facts@) == strata_lfp(ss.take(k + 1 as int), fset(inputs@)));
        }
        k = k + 1;
    }
    proof {
        assert(ss.take(n as int) =~= ss);
    }
    facts
}

} // verus!

//! Global properties of the fixpoint evaluator, proved once over its
//! semantics: the evaluator's result is a pure function of the input
//! fact set (`run`'s contract already pins it to `strata_lfp`), the
//! fixpoint is idempotent, positive rule sets are monotone, and a
//! negated relation is stable from the end of its stratum on.

use vstd::prelude::*;

use crate::engine::{
    body_holds, closed, deriv, derivable, fset, guards_ok, head_rel, inst, negs_rel, poss_rel,
    pos_sat, rule_neg_rel, rule_pos_rel, rules_wf, strata_lfp, strata_wf, stratum_lfp,
    lemma_deriv_minimal, lemma_deriv_fuel_mono, lemma_deriv_rel, neg_agrees, sub_get, Fact, Rule,
};

verus! {

/// Determinism: the fixpoint is a pure function of the input fact set.
/// Two runs of the evaluator on equal inputs yield equal results.
pub proof fn lemma_eval_deterministic(ss: Seq<Seq<Rule>>, b1: Set<Fact>, b2: Set<Fact>)
    requires
        b1 == b2,
    ensures
        strata_lfp(ss, b1) == strata_lfp(ss, b2),
{
}

/// The base is contained in one stratum's fixpoint.
pub proof fn lemma_stratum_incr(rules: Seq<Rule>, base: Set<Fact>)
    ensures
        base.subset_of(stratum_lfp(rules, base)),
{
    assert forall|f: Fact| base.contains(f) implies stratum_lfp(rules, base).contains(f) by {
        assert(deriv(rules, base, f, 0));
        assert(derivable(rules, base, f));
    }
}

/// The base is contained in the composed fixpoint.
pub proof fn lemma_strata_incr(ss: Seq<Seq<Rule>>, base: Set<Fact>)
    ensures
        base.subset_of(strata_lfp(ss, base)),
    decreases ss.len(),
{
    if ss.len() == 0 {
    } else {
        lemma_strata_incr(ss.drop_last(), base);
        lemma_stratum_incr(ss.last(), strata_lfp(ss.drop_last(), base));
    }
}

/// A satisfied rule body over derivable facts yields a derivable head.
proof fn lemma_derive_step_set(rules: Seq<Rule>, base: Set<Fact>, i: int, s: crate::engine::Sub)
    requires
        0 <= i < rules.len(),
        rules[i].b0 matches Some(a) ==> derivable(rules, base, inst(a, s)),
        rules[i].b1 matches Some(a) ==> derivable(rules, base, inst(a, s)),
        rules[i].b2 matches Some(a) ==> derivable(rules, base, inst(a, s)),
        rules[i].b3 matches Some(a) ==> derivable(rules, base, inst(a, s)),
        rules[i].neg matches Some(a) ==> !base.contains(inst(a, s)),
        rules[i].diff matches Some(d) ==> sub_get(s, d.0) != sub_get(s, d.1),
    ensures
        derivable(rules, base, inst(rules[i].head, s)),
{
    let n0: nat = if let Some(a) = rules[i].b0 {
        choose|n: nat| deriv(rules, base, inst(a, s), n)
    } else {
        0
    };
    let n1: nat = if let Some(a) = rules[i].b1 {
        choose|n: nat| deriv(rules, base, inst(a, s), n)
    } else {
        0
    };
    let n2: nat = if let Some(a) = rules[i].b2 {
        choose|n: nat| deriv(rules, base, inst(a, s), n)
    } else {
        0
    };
    let n3: nat = if let Some(a) = rules[i].b3 {
        choose|n: nat| deriv(rules, base, inst(a, s), n)
    } else {
        0
    };
    let m: nat = n0 + n1 + n2 + n3;
    if let Some(a) = rules[i].b0 {
        lemma_deriv_fuel_mono(rules, base, inst(a, s), n0, m);
    }
    if let Some(a) = rules[i].b1 {
        lemma_deriv_fuel_mono(rules, base, inst(a, s), n1, m);
    }
    if let Some(a) = rules[i].b2 {
        lemma_deriv_fuel_mono(rules, base, inst(a, s), n2, m);
    }
    if let Some(a) = rules[i].b3 {
        lemma_deriv_fuel_mono(rules, base, inst(a, s), n3, m);
    }
    assert(deriv(rules, base, inst(rules[i].head, s), m + 1));
}

/// One stratum's fixpoint is closed under the stratum's rules.
pub proof fn lemma_stratum_lfp_closed(rules: Seq<Rule>, base: Set<Fact>)
    ensures
        closed(rules, stratum_lfp(rules, base)),
{
    let lfp = stratum_lfp(rules, base);
    lemma_stratum_incr(rules, base);
    assert forall|i: int, s: crate::engine::Sub|
        0 <= i < rules.len() && #[trigger] body_holds(rules[i], s, lfp) implies lfp.contains(
        inst(rules[i].head, s),
    ) by {
        if let Some(a) = rules[i].neg {
            assert(!lfp.contains(inst(a, s)));
            assert(!base.contains(inst(a, s)));
        }
        lemma_derive_step_set(rules, base, i, s);
    }
}

/// The fixpoint of an already closed set is that set itself.
pub proof fn lemma_stratum_lfp_of_closed(rules: Seq<Rule>, fs: Set<Fact>)
    requires
        closed(rules, fs),
    ensures
        stratum_lfp(rules, fs) == fs,
{
    lemma_stratum_incr(rules, fs);
    assert(stratum_lfp(rules, fs) =~= fs) by {
        assert forall|f: Fact| stratum_lfp(rules, fs).contains(f) implies fs.contains(f) by {
            assert(derivable(rules, fs, f));
            let n = choose|n: nat| deriv(rules, fs, f, n);
            lemma_deriv_minimal(rules, fs, fs, f, n);
        }
    }
}

/// The composed fixpoint is closed under every one of its strata.
proof fn lemma_strata_closed_each(ss: Seq<Seq<Rule>>, base: Set<Fact>, k: int)
    requires
        strata_wf(ss),
        0 <= k < ss.len(),
    ensures
        closed(ss[k], strata_lfp(ss, base)),
    decreases ss.len(),
{
    let lfp = strata_lfp(ss, base);
    let front = strata_lfp(ss.drop_last(), base);
    if k == ss.len() - 1 {
        lemma_stratum_lfp_closed(ss.last(), front);
        assert(ss.last() == ss[k]);
    } else {
        assert(strata_wf(ss.drop_last())) by {
            lemma_strata_wf_prefix(ss, ss.len() - 1);
            assert(ss.take(ss.len() - 1) =~= ss.drop_last());
        }
        lemma_strata_closed_each(ss.drop_last(), base, k);
        assert(ss.drop_last()[k] == ss[k]);
        lemma_stratum_incr(ss.last(), front);
        assert forall|i: int, s: crate::engine::Sub|
            0 <= i < ss[k].len() && #[trigger] body_holds(ss[k][i], s, lfp) implies lfp.contains(
            inst(ss[k][i].head, s),
        ) by {
            let r = ss[k][i];
            // every positively read fact already lies in the earlier fixpoint
            assert forall|g: Fact|
                lfp.contains(g) && rule_pos_rel(r, g.rel) implies front.contains(g) by {
                assert(derivable(ss.last(), front, g));
                let n = choose|n: nat| deriv(ss.last(), front, g, n);
                lemma_deriv_rel(ss.last(), front, g, n);
                if head_rel(ss.last(), g.rel) {
                    assert(poss_rel(ss[k], g.rel));
                    assert(ss[ss.len() - 1] == ss.last());
                    assert(!head_rel(ss[ss.len() - 1], g.rel));
                }
            }
            assert(pos_sat(r, s, front)) by {
                if let Some(a) = r.b0 {
                    assert(rule_pos_rel(r, inst(a, s).rel));
                }
                if let Some(a) = r.b1 {
                    assert(rule_pos_rel(r, inst(a, s).rel));
                }
                if let Some(a) = r.b2 {
                    assert(rule_pos_rel(r, inst(a, s).rel));
                }
                if let Some(a) = r.b3 {
                    assert(rule_pos_rel(r, inst(a, s).rel));
                }
            }
            assert(guards_ok(r, s, front)) by {
                if let Some(a) = r.neg {
                    assert(!lfp.contains(inst(a, s)));
                    assert(front.subset_of(lfp)) by {
                        lemma_stratum_incr(ss.last(), front);
                    }
                }
            }
            assert(body_holds(r, s, front));
            assert(front.contains(inst(r.head, s)));
            assert(lfp.contains(inst(r.head, s)));
        }
    }
}

/// Stratification is preserved by taking a prefix of the strata.
pub proof fn lemma_strata_wf_prefix(ss: Seq<Seq<Rule>>, m: int)
    requires
        strata_wf(ss),
        0 <= m <= ss.len(),
    ensures
        strata_wf(ss.take(m)),
{
    let tt = ss.take(m);
    assert forall|k: int| 0 <= k < tt.len() implies rules_wf(#[trigger] tt[k]) by {
        assert(tt[k] == ss[k]);
    }
    assert forall|k: int, k2: int, q: u64|
        0 <= k <= k2 < tt.len() && #[trigger] negs_rel(tt[k], q) implies !#[trigger] head_rel(
        tt[k2],
        q,
    ) by {
        assert(tt[k] == ss[k]);
        assert(tt[k2] == ss[k2]);
    }
    assert forall|k: int, k2: int, q: u64|
        0 <= k < k2 < tt.len() && #[trigger] poss_rel(tt[k], q) implies !#[trigger] head_rel(
        tt[k2],
        q,
    ) by {
        assert(tt[k] == ss[k]);
        assert(tt[k2] == ss[k2]);
    }
}

/// A set closed under every stratum is left unchanged by the whole
/// evaluation.
proof fn lemma_strata_lfp_fixed(ss: Seq<Seq<Rule>>, fs: Set<Fact>)
    requires
        forall|k: int| 0 <= k < ss.len() ==> closed(#[trigger] ss[k], fs),
    ensures
        strata_lfp(ss, fs) == fs,
    decreases ss.len(),
{
    if ss.len() == 0 {
    } else {
        assert forall|k: int| 0 <= k < ss.drop_last().len() implies closed(
            #[trigger] ss.drop_last()[k],
            fs,
        ) by {
            assert(ss.drop_last()[k] == ss[k]);
        }
        lemma_strata_lfp_fixed(ss.drop_last(), fs);
        assert(ss.last() == ss[ss.len() - 1]);
        lemma_stratum_lfp_of_closed(ss.last(), fs);
    }
}

/// Idempotence: running the evaluator again on its own output changes
/// nothing; the output is already the fixpoint.
pub proof fn lemma_eval_idempotent(ss: Seq<Seq<Rule>>, base: Set<Fact>)
    requires
        strata_wf(ss),
    ensures
        strata_lfp(ss, strata_lfp(ss, base)) == strata_lfp(ss, base),
{
    let lfp = strata_lfp(ss, base);
    assert forall|k: int| 0 <= k < ss.len() implies closed(#[trigger] ss[k], lfp) by {
        lemma_strata_closed_each(ss, base, k);
    }
    lemma_strata_lfp_fixed(ss, lfp);
}

/// `rules` never uses negation.
pub open spec fn stratum_no_negs(rules: Seq<Rule>) -> bool {
    forall|i: int| 0 <= i < rules.len() ==> (#[trigger] rules[i]).neg is None
}

/// No stratum uses negation.
pub open spec fn no_negs(ss: Seq<Seq<Rule>>) -> bool {
    forall|k: int| 0 <= k < ss.len() ==> stratum_no_negs(#[trigger] ss[k])
}

/// Derivability by purely positive rules is monotone in the base.
proof fn lemma_deriv_mono_base(rules: Seq<Rule>, b1: Set<Fact>, b2: Set<Fact>, f: Fact, n: nat)
    requires
        stratum_no_negs(rules),
        b1.subset_of(b2),
        deriv(rules, b1, f, n),
    ensures
        deriv(rules, b2, f, n),
    decreases n,
{
    if b1.contains(f) {
        assert(b2.contains(f));
    } else {
        let (i, s) = choose|i: int, s: crate::engine::Sub|
            {
                &&& 0 <= i < rules.len()
                &&& f == #[trigger] inst(rules[i].head, s)
                &&& (rules[i].b0 matches Some(a) ==> deriv(rules, b1, inst(a, s), (n - 1) as nat))
                &&& (rules[i].b1 matches Some(a) ==> deriv(rules, b1, inst(a, s), (n - 1) as nat))
                &&& (rules[i].b2 matches Some(a) ==> deriv(rules, b1, inst(a, s), (n - 1) as nat))
                &&& (rules[i].b3 matches Some(a) ==> deriv(rules, b1, inst(a, s), (n - 1) as nat))
                &&& (rules[i].neg matches Some(a) ==> !b1.contains(inst(a, s)))
                &&& (rules[i].diff matches Some(d) ==> sub_get(s, d.0) != sub_get(s, d.1))
            };
        if let Some(a) = rules[i].b0 {
            lemma_deriv_mono_base(rules, b1, b2, inst(a, s), (n - 1) as nat);
        }
        if let Some(a) = rules[i].b1 {
            lemma_deriv_mono_base(rules, b1, b2, inst(a, s), (n - 1) as nat);
        }
        if let Some(a) = rules[i].b2 {
            lemma_deriv_mono_base(rules, b1, b2, inst(a, s), (n - 1) as nat);
        }
        if let Some(a) = rules[i].b3 {
            lemma_deriv_mono_base(rules, b1, b2, inst(a, s), (n - 1) as nat);
        }
        assert(rules[i].neg is None);
        assert(deriv(rules, b2, f, n));
    }
}

/// Monotonicity: without negation, adding input facts never removes a
/// derived fact. (With negation this fails: adding a fact of a negated
/// relation can retract a negation-dependent conclusion.)
pub proof fn lemma_eval_monotone(ss: Seq<Seq<Rule>>, b1: Set<Fact>, b2: Set<Fact>)
    requires
        no_negs(ss),
        b1.subset_of(b2),
    ensures
        strata_lfp(ss, b1).subset_of(strata_lfp(ss, b2)),
    decreases ss.len(),
{
    if ss.len() == 0 {
    } else {
        assert forall|k: int| 0 <= k < ss.drop_last().len() implies stratum_no_negs(
            #[trigger] ss.drop_last()[k],
        ) by {
            assert(ss.drop_last()[k] == ss[k]);
        }
        lemma_eval_monotone(ss.drop_last(), b1, b2);
        let f1 = strata_lfp(ss.drop_last(), b1);
        let f2 = strata_lfp(ss.drop_last(), b2);
        assert(ss.last() == ss[ss.len() - 1]);
        assert(stratum_no_negs(ss.last()));
        assert forall|f: Fact| stratum_lfp(ss.last(), f1).contains(f) implies stratum_lfp(
            ss.last(),
            f2,
        ).contains(f) by {
            assert(derivable(ss.last(), f1, f));
            let n = choose|n: nat| deriv(ss.last(), f1, f, n);
            lemma_deriv_mono_base(ss.last(), f1, f2, f, n);
            assert(derivable(ss.last(), f2, f));
        }
    }
}

/// The facts of one relation within a fact set.
pub open spec fn restrict_rel(fs: Set<Fact>, q: u64) -> Set<Fact> {
    Set::new(|f: Fact| fs.contains(f) && f.rel == q)
}

/// Stratification soundness: a relation negated in stratum `k` has, at
/// every point from the end of stratum `k - 1` on, exactly the value the
/// negation was read against; later strata never change it.
pub proof fn lemma_negated_stable(
    ss: Seq<Seq<Rule>>,
    base: Set<Fact>,
    k: int,
    q: u64,
    k2: int,
)
    requires
        strata_wf(ss),
        0 <= k < ss.len(),
        negs_rel(ss[k], q),
        k <= k2 <= ss.len(),
    ensures
        restrict_rel(strata_lfp(ss.take(k2), base), q) == restrict_rel(
            strata_lfp(ss.take(k), base),
            q,
        ),
    decreases k2 - k,
{
    if k2 == k {
    } else {
        lemma_negated_stable(ss, base, k, q, k2 - 1);
        let prev = strata_lfp(ss.take(k2 - 1), base);
        assert(ss.take(k2).drop_last() =~= ss.take(k2 - 1));
        assert(ss.take(k2).last() == ss[k2 - 1]);
        assert(strata_lfp(ss.take(k2), base) == stratum_lfp(ss[k2 - 1], prev));
        assert(!head_rel(ss[k2 - 1], q));
        lemma_stratum_incr(ss[k2 - 1], prev);
        assert(restrict_rel(stratum_lfp(ss[k2 - 1], prev), q) =~= restrict_rel(prev, q)) by {
            assert forall|f: Fact|
                restrict_rel(stratum_lfp(ss[k2 - 1], prev), q).contains(f) implies restrict_rel(
                prev,
                q,
            ).contains(f) by {
                let last = ss[k2 - 1];
                assert(derivable(last, prev, f));
                let n = choose|n: nat| deriv(last, prev, f, n);
                lemma_deriv_rel(last, prev, f, n);
            }
        }
    }
}

} // verus!

//! The two example programs the linearity checker is exercised on:
//! a straight-line chain of `let`s that consumes one binder twice, and a
//! tuple whose three disjoint projections are each consumed once.

use vstd::prelude::*;

use crate::data::{Expr, ExprId, ExprInterner, Index, NameId, NameInterner, PathId, PathInterner};
use crate::engine::{
    body_holds, head_rel, inst, lemma_lfp_inversion, lemma_lfp_non_head_is_input, stratum_lfp,
    Fact, Rule, Sub,
};
use crate::resolve::{
    expr_path, facts_of, facts_of_list, lemma_path_val_injective, path_val, resolver_inv,
    uses_vals, PathVal,
};
use crate::rules::{
    double_use_fact, lin_model, lin_report_matches, lin_rule_double_use, lin_strata, lincheck,
    parent_fact, path_fact_set, root_fact, use_fact, LinReport, REL_DOUBLE_USE, REL_USED,
};

verus! {

/// Some interned path is reported as consumed at both sites.
pub open spec fn reports_double_use(rep: LinReport, e: ExprId, e2: ExprId) -> bool {
    exists|p: PathId| #[trigger] rep.double_use@.contains((p, e, e2))
}

/// `a`'s projection chain is a strict prefix of `b`'s.
pub open spec fn proj_prefix(a: PathVal, b: PathVal) -> bool {
    a.projs.len() < b.projs.len() && b.projs.take(a.projs.len() as int) == a.projs
}

proof fn lemma_proj_prefix_trans(a: PathVal, b: PathVal, c: PathVal)
    requires
        proj_prefix(a, b),
        proj_prefix(b, c),
    ensures
        proj_prefix(a, c),
{
    assert(c.projs.take(a.projs.len() as int) =~= a.projs) by {
        assert forall|i: int| 0 <= i < a.projs.len() implies c.projs[i] == a.projs[i] by {
            assert(b.projs.take(a.projs.len() as int)[i] == b.projs[i]);
            assert(c.projs.take(b.projs.len() as int)[i] == c.projs[i]);
        }
    }
}

/// Every `Ancestor` fact derivable by the linearity rules relates two
/// interned paths whose values stand in the strict-prefix order, as
/// long as every `Parent` base fact does.
proof fn lemma_ancestor_prefix(paths: PathInterner, g: Fact, n: nat)
    requires
        paths.wf(),
        forall|t: (PathVal, PathVal)|
            #[trigger] crate::resolve::parents_vals(paths).contains(t) ==> proj_prefix(t.0, t.1),
        crate::engine::deriv(lin_strata()[0], path_fact_set(paths), g, n),
        g.rel == crate::rules::REL_ANCESTOR,
    ensures
        exists|pi: PathId, pj: PathId|
            pi.0 < paths.paths().len() && pj.0 < paths.paths().len() && g.a0 == pi.0 as u64
                && g.a1 == pj.0 as u64 && #[trigger] proj_prefix(
                path_val(paths.paths(), pi.0 as int),
                path_val(paths.paths(), pj.0 as int),
            ),
    decreases n,
{
    let rules = lin_strata()[0];
    let base = path_fact_set(paths);
    assert(!base.contains(g)) by {
        if base.contains(g) {
            if exists|k: int|
                0 <= k < paths.roots@.len() && g == root_fact(#[trigger] paths.roots@[k]) {
                let k = choose|k: int|
                    0 <= k < paths.roots@.len() && g == root_fact(#[trigger] paths.roots@[k]);
            } else if exists|k: int|
                0 <= k < paths.parents@.len() && g == parent_fact(#[trigger] paths.parents@[k]) {
                let k = choose|k: int|
                    0 <= k < paths.parents@.len() && g == parent_fact(#[trigger] paths.parents@[k]);
            } else {
                let k = choose|k: int|
                    0 <= k < paths.uses@.len() && g == use_fact(#[trigger] paths.uses@[k]);
            }
        }
    }
    let (i, s) = choose|i: int, s: Sub|
        {
            &&& 0 <= i < rules.len()
            &&& g == #[trigger] inst(rules[i].head, s)
            &&& (rules[i].b0 matches Some(a) ==> crate::engine::deriv(
                rules,
                base,
                inst(a, s),
                (n - 1) as nat,
            ))
            &&& (rules[i].b1 matches Some(a) ==> crate::engine::deriv(
                rules,
                base,
                inst(a, s),
                (n - 1) as nat,
            ))
            &&& (rules[i].b2 matches Some(a) ==> crate::engine::deriv(
                rules,
                base,
                inst(a, s),
                (n - 1) as nat,
            ))
            &&& (rules[i].b3 matches Some(a) ==> crate::engine::deriv(
                rules,
                base,
                inst(a, s),
                (n - 1) as nat,
            ))
            &&& (rules[i].neg matches Some(a) ==> !base.contains(inst(a, s)))
            &&& (rules[i].diff matches Some(d) ==> crate::engine::sub_get(s, d.0)
                != crate::engine::sub_get(s, d.1))
        };
    let s0 = crate::engine::sub_get(s, 0);
    let s1 = crate::engine::sub_get(s, 1);
    let s2 = crate::engine::sub_get(s, 2);
    if i == 0 {
    } else if i == 1 {
    } else if i == 2 {
        // Ancestor(p, q) :- Parent(p, q)
        let gp = (Fact { rel: crate::rules::REL_PARENT, a0: s0, a1: s1, a2: 0, a3: 0 });
        assert(crate::engine::deriv(rules, base, gp, (n - 1) as nat));
        crate::engine::lemma_deriv_rel(rules, base, gp, (n - 1) as nat);
        assert(!head_rel(rules, crate::rules::REL_PARENT)) by {
            if head_rel(rules, crate::rules::REL_PARENT) {
                let i2 = choose|i2: int|
                    0 <= i2 < rules.len() && (#[trigger] rules[i2]).head.rel
                        == crate::rules::REL_PARENT;
                if i2 == 0 {
                } else if i2 == 1 {
                } else if i2 == 2 {
                } else if i2 == 3 {
                } else if i2 == 4 {
                } else {
                    assert(rules[5].head.rel == REL_DOUBLE_USE);
                }
            }
        }
        assert(base.contains(gp));
        let k = choose|k: int|
            0 <= k < paths.parents@.len() && gp == parent_fact(#[trigger] paths.parents@[k]);
        assert(gp == parent_fact(paths.parents@[k])) by {
            if exists|k2: int|
                0 <= k2 < paths.roots@.len() && gp == root_fact(#[trigger] paths.roots@[k2]) {
                let k2 = choose|k2: int|
                    0 <= k2 < paths.roots@.len() && gp == root_fact(#[trigger] paths.roots@[k2]);
            }
            if exists|k2: int|
                0 <= k2 < paths.uses@.len() && gp == use_fact(#[trigger] paths.uses@[k2]) {
                let k2 = choose|k2: int|
                    0 <= k2 < paths.uses@.len() && gp == use_fact(#[trigger] paths.uses@[k2]);
            }
        }
        let pa = paths.parents@[k].0;
        let pb = paths.parents@[k].1;
        assert(crate::resolve::parents_vals(paths).contains(
            (path_val(paths.paths(), pa.0 as int), path_val(paths.paths(), pb.0 as int)),
        ));
        assert(g.a0 == pa.0 as u64 && g.a1 == pb.0 as u64);
        assert(proj_prefix(
            path_val(paths.paths(), pa.0 as int),
            path_val(paths.paths(), pb.0 as int),
        ));
    } else if i == 3 {
        // Ancestor(p, r) :- Ancestor(p, q), Parent(q, r)
        let ga = (Fact { rel: crate::rules::REL_ANCESTOR, a0: s0, a1: s1, a2: 0, a3: 0 });
        let gp = (Fact { rel: crate::rules::REL_PARENT, a0: s1, a1: s2, a2: 0, a3: 0 });
        assert(crate::engine::deriv(rules, base, ga, (n - 1) as nat));
        assert(crate::engine::deriv(rules, base, gp, (n - 1) as nat));
        lemma_ancestor_prefix(paths, ga, (n - 1) as nat);
        let (pi, pj) = choose|pi: PathId, pj: PathId|
            pi.0 < paths.paths().len() && pj.0 < paths.paths().len() && ga.a0 == pi.0 as u64
                && ga.a1 == pj.0 as u64 && #[trigger] proj_prefix(
                path_val(paths.paths(), pi.0 as int),
                path_val(paths.paths(), pj.0 as int),
            );
        crate::engine::lemma_deriv_rel(rules, base, gp, (n - 1) as nat);
        assert(!head_rel(rules, crate::rules::REL_PARENT)) by {
            if head_rel(rules, crate::rules::REL_PARENT) {
                let i2 = choose|i2: int|
                    0 <= i2 < rules.len() && (#[trigger] rules[i2]).head.rel
                        == crate::rules::REL_PARENT;
                if i2 == 0 {
                } else if i2 == 1 {
                } else if i2 == 2 {
                } else if i2 == 3 {
                } else if i2 == 4 {
                } else {
                    assert(rules[5].head.rel == REL_DOUBLE_USE);
                }
            }
        }
        assert(base.contains(gp));
        let k = choose|k: int|
            0 <= k < paths.parents@.len() && gp == parent_fact(#[trigger] paths.parents@[k]);
        assert(gp == parent_fact(paths.parents@[k])) by {
            if exists|k2: int|
                0 <= k2 < paths.roots@.len() && gp == root_fact(#[trigger] paths.roots@[k2]) {
                let k2 = choose|k2: int|
                    0 <= k2 < paths.roots@.len() && gp == root_fact(#[trigger] paths.roots@[k2]);
            }
            if exists|k2: int|
                0 <= k2 < paths.uses@.len() && gp == use_fact(#[trigger] paths.uses@[k2]) {
                let k2 = choose|k2: int|
                    0 <= k2 < paths.uses@.len() && gp == use_fact(#[trigger] paths.uses@[k2]);
            }
        }
        let pa = paths.parents@[k].0;
        let pb = paths.parents@[k].1;
        assert(pa.0 as u64 == s1 && pj.0 as u64 == s1);
        assert(pa == pj);
        assert(crate::resolve::parents_vals(paths).contains(
            (path_val(paths.paths(), pa.0 as int), path_val(paths.paths(), pb.0 as int)),
        ));
        lemma_proj_prefix_trans(
            path_val(paths.paths(), pi.0 as int),
            path_val(paths.paths(), pj.0 as int),
            path_val(paths.paths(), pb.0 as int),
        );
        assert(g.a0 == pi.0 as u64 && g.a1 == pb.0 as u64);
    } else if i == 4 {
    } else {
    }
}

/// Builds `let a = "foo" in let b = "bar" in let c = a in let d = a in 1`
/// and runs the linearity checker: `a` is consumed twice, once bound to
/// `c` and once to `d`, so a `DoubleUse` is derived.
pub fn test0() -> (r: (ExprInterner, PathInterner, LinReport))
    ensures
        r.0.wf(),
        resolver_inv(r.1),
        lin_report_matches(lin_model(r.1), r.2),
        r.0.exprs().len() == 9,
        r.0.exprs()[0] matches Expr::Str(_),
        r.0.exprs()[1] matches Expr::Str(_),
        r.0.exprs()[2] == Expr::Var(NameId(0)),
        r.0.exprs()[3] == Expr::Var(NameId(0)),
        r.0.exprs()[4] == Expr::I32(1),
        r.0.exprs()[5] == Expr::Let(NameId(3), ExprId(2), ExprId(4)),
        r.0.exprs()[6] == Expr::Let(NameId(2), ExprId(3), ExprId(5)),
        r.0.exprs()[7] == Expr::Let(NameId(1), ExprId(1), ExprId(6)),
        r.0.exprs()[8] == Expr::Let(NameId(0), ExprId(0), ExprId(7)),
        reports_double_use(r.2, ExprId(2), ExprId(3)),
{
    let mut exprs = ExprInterner::new();
    let mut names = NameInterner::new();

    let a = names.fresh();
    let b = names.fresh();
    let c = names.fresh();
    let d = names.fresh();

    let foo = exprs.intern(Expr::Str("foo".to_string()));
    let bar = exprs.intern(Expr::Str("bar".to_string()));
    let a_ref0 = exprs.intern(Expr::Var(a));
    let a_ref1 = exprs.intern(Expr::Var(a));
    let one = exprs.intern(Expr::I32(1));

    let let_d = exprs.intern(Expr::Let(d, a_ref0, one));
    let let_c = exprs.intern(Expr::Let(c, a_ref1, let_d));
    let let_b = exprs.intern(Expr::Let(b, bar, let_c));
    let let_a = exprs.intern(Expr::Let(a, foo, let_b));

    let paths = exprs.resolve_paths(&let_a);
    let rep = lincheck(&paths);
    proof {
        let es = exprs.exprs();
        let val_a = (PathVal { root: NameId(0), projs: Seq::<Index>::empty() });
        // both occurrences of `a` denote the same path value and stand as
        // bound values of a `Let`, so both uses are in the base facts
        assert(expr_path(es, 2) == Some(val_a));
        assert(expr_path(es, 3) == Some(val_a));
        assert(facts_of(es, 5).uses.contains((val_a, ExprId(2))));
        assert(facts_of(es, 6).uses.contains((val_a, ExprId(2))));
        assert(facts_of(es, 6).uses.contains((val_a, ExprId(3))));
        assert(facts_of(es, 7).uses.contains((val_a, ExprId(2))));
        assert(facts_of(es, 7).uses.contains((val_a, ExprId(3))));
        assert(facts_of(es, 8).uses.contains((val_a, ExprId(2))));
        assert(facts_of(es, 8).uses.contains((val_a, ExprId(3))));
        assert(uses_vals(paths).contains((val_a, ExprId(2))));
        assert(uses_vals(paths).contains((val_a, ExprId(3))));
        // deduplication gives both uses the same interned identity
        let k1 = choose|k: int|
            0 <= k < paths.uses@.len() && path_val(
                paths.paths(),
                (#[trigger] paths.uses@[k]).0.0 as int,
            ) == val_a && paths.uses@[k].1 == ExprId(2);
        let k2 = choose|k: int|
            0 <= k < paths.uses@.len() && path_val(
                paths.paths(),
                (#[trigger] paths.uses@[k]).0.0 as int,
            ) == val_a && paths.uses@[k].1 == ExprId(3);
        let p1 = paths.uses@[k1].0;
        let p2 = paths.uses@[k2].0;
        lemma_path_val_injective(paths.paths(), p1.0 as int, p2.0 as int);
        assert(p1 == p2);
        // the evaluator's input holds both `Used` facts
        assert(path_fact_set(paths).contains(use_fact((p1, ExprId(2)))));
        assert(path_fact_set(paths).contains(use_fact((p1, ExprId(3)))));
        // the model contains them and is closed under the double-use rule
        let base = path_fact_set(paths);
        let rules = lin_strata()[0];
        assert(lin_strata().drop_last() =~= Seq::<Seq<Rule>>::empty());
        assert(lin_strata().last() == rules);
        assert(lin_strata().len() == 1);
        assert(crate::engine::strata_lfp(Seq::<Seq<Rule>>::empty(), base) == base);
        assert(crate::engine::strata_lfp(lin_strata(), base) == stratum_lfp(
            lin_strata().last(),
            crate::engine::strata_lfp(lin_strata().drop_last(), base),
        ));
        assert(lin_model(paths) == stratum_lfp(rules, base));
        crate::laws::lemma_stratum_incr(rules, base);
        crate::laws::lemma_stratum_lfp_closed(rules, base);
        let s = (Sub { v0: p1.0 as u64, v1: 2, v2: 3, v3: 0, v4: 0, v5: 0 });
        let r6 = lin_rule_double_use();
        assert(rules[5] == r6);
        assert(inst(r6.head, s) == double_use_fact(p1, ExprId(2), ExprId(3)));
        assert(body_holds(rules[5], s, stratum_lfp(rules, base)));
        assert(stratum_lfp(rules, base).contains(inst(r6.head, s)));
        assert(lin_model(paths).contains(double_use_fact(p1, ExprId(2), ExprId(3))));
        assert(rep.double_use@.contains((p1, ExprId(2), ExprId(3))));
        assert(reports_double_use(rep, ExprId(2), ExprId(3)));
    }
    (exprs, paths, rep)
}

/// Builds `let a = (("foo", 5), "bar") in let b = a.0.0 in
/// let c = a.0.1 in let d = a.1 in 1` and runs the linearity checker:
/// three disjoint projections of `a`, each consumed exactly once, so no
/// violation is derived.
#[verifier::rlimit(100)]
pub fn test1() -> (r: (ExprInterner, PathInterner, LinReport))
    ensures
        r.0.wf(),
        resolver_inv(r.1),
        lin_report_matches(lin_model(r.1), r.2),
        r.0.exprs().len() == 16,
        r.0.exprs()[3] == Expr::Var(NameId(0)),
        r.0.exprs()[4] == Expr::Var(NameId(0)),
        r.0.exprs()[6] matches Expr::Tuple(ids) && ids@ == seq![ExprId(0), ExprId(1)],
        r.0.exprs()[7] matches Expr::Tuple(ids) && ids@ == seq![ExprId(6), ExprId(2)],
        r.0.exprs()[8] == Expr::Project(ExprId(3), Index(0)),
        r.0.exprs()[9] == Expr::Project(ExprId(8), Index(0)),
        r.0.exprs()[10] == Expr::Project(ExprId(8), Index(1)),
        r.0.exprs()[11] == Expr::Project(ExprId(4), Index(1)),
        r.0.exprs()[12] == Expr::Let(NameId(3), ExprId(11), ExprId(5)),
        r.0.exprs()[13] == Expr::Let(NameId(2), ExprId(10), ExprId(12)),
        r.0.exprs()[14] == Expr::Let(NameId(1), ExprId(9), ExprId(13)),
        r.0.exprs()[15] == Expr::Let(NameId(0), ExprId(7), ExprId(14)),
        r.2.double_use@.len() == 0,
        r.2.ancestor_used@.len() == 0,
{
    let mut exprs = ExprInterner::new();
    let mut names = NameInterner::new();

    let a = names.fresh();
    let b = names.fresh();
    let c = names.fresh();
    let d = names.fresh();

    let foo = exprs.intern(Expr::Str("foo".to_string()));
    let five = exprs.intern(Expr::I32(5));
    let bar = exprs.intern(Expr::Str("bar".to_string()));
    let a_ref0 = exprs.intern(Expr::Var(a));
    let a_ref1 = exprs.intern(Expr::Var(a));
    let one = exprs.intern(Expr::I32(1));

    let tuple1 = exprs.intern(Expr::Tuple(vec![foo, five]));
    let tuple2 = exprs.intern(Expr::Tuple(vec![tuple1, bar]));

    let a_0_ref = exprs.intern(Expr::Project(a_ref0, Index(0)));
    let a_0_0_ref = exprs.intern(Expr::Project(a_0_ref, Index(0)));
    let a_0_1_ref = exprs.intern(Expr::Project(a_0_ref, Index(1)));
    let a_1_ref = exprs.intern(Expr::Project(a_ref1, Index(1)));

    let let_d = exprs.intern(Expr::Let(d, a_1_ref, one));
    let let_c = exprs.intern(Expr::Let(c, a_0_1_ref, let_d));
    let let_b = exprs.intern(Expr::Let(b, a_0_0_ref, let_c));
    let let_a = exprs.intern(Expr::Let(a, tuple2, let_b));

    let paths = exprs.resolve_paths(&let_a);
    let rep = lincheck(&paths);
    proof {
        let es = exprs.exprs();
        let va = (PathVal { root: NameId(0), projs: Seq::<Index>::empty() });
        let va0 = (PathVal { root: NameId(0), projs: va.projs.push(Index(0)) });
        let va00 = (PathVal { root: NameId(0), projs: va0.projs.push(Index(0)) });
        let va01 = (PathVal { root: NameId(0), projs: va0.projs.push(Index(1)) });
        let va1 = (PathVal { root: NameId(0), projs: va.projs.push(Index(1)) });
        // the path values the consuming occurrences denote
        assert(expr_path(es, 3) == Some(va));
        assert(expr_path(es, 4) == Some(va));
        assert(expr_path(es, 8) == Some(va0));
        assert(expr_path(es, 9) == Some(va00));
        assert(expr_path(es, 10) == Some(va01));
        assert(expr_path(es, 11) == Some(va1));
        // the three consumed values are pairwise distinct
        assert(va00.projs[1] == Index(0) && va01.projs[1] == Index(1));
        assert(va00.projs.len() == 2 && va01.projs.len() == 2 && va1.projs.len() == 1);
        assert(va00 != va01) by {
            if va00 == va01 {
                assert(va00.projs[1] == va01.projs[1]);
            }
        }
        assert(va00 != va1) by {
            if va00 == va1 {
                assert(va00.projs.len() == va1.projs.len());
            }
        }
        assert(va01 != va1) by {
            if va01 == va1 {
                assert(va01.projs.len() == va1.projs.len());
            }
        }
        // no subtree below the lets consumes a path
        let none_uses = Set::<(PathVal, ExprId)>::empty();
        assert(facts_of(es, 0).uses =~= none_uses);
        assert(facts_of(es, 1).uses =~= none_uses);
        assert(facts_of(es, 2).uses =~= none_uses);
        assert(facts_of(es, 3).uses =~= none_uses);
        assert(facts_of(es, 4).uses =~= none_uses);
        assert(facts_of(es, 5).uses =~= none_uses);
        let ids6 = seq![ExprId(0), ExprId(1)];
        assert(facts_of_list(es, ids6, 0, 6).uses =~= none_uses);
        assert(facts_of_list(es, ids6, 1, 6).uses =~= none_uses);
        assert(facts_of_list(es, ids6, 2, 6).uses =~= none_uses);
        assert(facts_of(es, 6).uses =~= none_uses);
        let ids7 = seq![ExprId(6), ExprId(2)];
        assert(facts_of_list(es, ids7, 0, 7).uses =~= none_uses);
        assert(facts_of_list(es, ids7, 1, 7).uses =~= none_uses);
        assert(facts_of_list(es, ids7, 2, 7).uses =~= none_uses);
        assert(facts_of(es, 7).uses =~= none_uses);
        assert(facts_of(es, 8).uses =~= none_uses);
        assert(facts_of(es, 9).uses =~= none_uses);
        assert(facts_of(es, 10).uses =~= none_uses);
        assert(facts_of(es, 11).uses =~= none_uses);
        // each let consumes one fresh projection
        let u1 = none_uses.insert((va1, ExprId(11)));
        let u2 = u1.insert((va01, ExprId(10)));
        let u3 = u2.insert((va00, ExprId(9)));
        assert(facts_of(es, 12).uses =~= u1);
        assert(facts_of(es, 13).uses =~= u2);
        assert(facts_of(es, 14).uses =~= u3);
        assert(facts_of(es, 15).uses =~= u3);
        assert(uses_vals(paths) =~= u3);
        // hence every value is consumed at one site only
        assert forall|v: PathVal, e: ExprId, e2: ExprId|
            uses_vals(paths).contains((v, e)) && uses_vals(paths).contains((v, e2)) implies e
            == e2 by {
            assert(u3.contains((v, e)));
            assert(u3.contains((v, e2)));
        }
        // the model of the linearity rules over these base facts
        let base = path_fact_set(paths);
        let rules = lin_strata()[0];
        assert(lin_strata().drop_last() =~= Seq::<Seq<Rule>>::empty());
        assert(lin_strata().len() == 1);
        assert(crate::engine::strata_lfp(Seq::<Seq<Rule>>::empty(), base) == base);
        assert(crate::engine::strata_lfp(lin_strata(), base) == stratum_lfp(
            lin_strata().last(),
            crate::engine::strata_lfp(lin_strata().drop_last(), base),
        ));
        assert(lin_model(paths) == stratum_lfp(rules, base));
        let lfp = stratum_lfp(rules, base);
        // `Used` is an input relation: no rule derives it
        assert(!head_rel(rules, REL_USED)) by {
            if head_rel(rules, REL_USED) {
                let i = choose|i: int|
                    0 <= i < rules.len() && (#[trigger] rules[i]).head.rel == REL_USED;
                if i == 0 {
                } else if i == 1 {
                } else if i == 2 {
                } else if i == 3 {
                } else if i == 4 {
                } else {
                    assert(rules[5].head.rel == REL_DOUBLE_USE);
                }
            }
        }
        // no fact of the double-use relation can be in the model
        assert forall|f: Fact| f.rel == REL_DOUBLE_USE implies !#[trigger] lfp.contains(f) by {
            if lfp.contains(f) {
                assert(!base.contains(f)) by {
                    if base.contains(f) {
                        if exists|k: int|
                            0 <= k < paths.roots@.len() && f == root_fact(
                                #[trigger] paths.roots@[k],
                            ) {
                            let k = choose|k: int|
                                0 <= k < paths.roots@.len() && f == root_fact(
                                    #[trigger] paths.roots@[k],
                                );
                        } else if exists|k: int|
                            0 <= k < paths.parents@.len() && f == parent_fact(
                                #[trigger] paths.parents@[k],
                            ) {
                            let k = choose|k: int|
                                0 <= k < paths.parents@.len() && f == parent_fact(
                                    #[trigger] paths.parents@[k],
                                );
                        } else {
                            let k = choose|k: int|
                                0 <= k < paths.uses@.len() && f == use_fact(
                                    #[trigger] paths.uses@[k],
                                );
                        }
                    }
                }
                lemma_lfp_inversion(rules, base, f);
                let (i, s) = choose|i: int, s: Sub|
                    {
                        &&& 0 <= i < rules.len()
                        &&& f == #[trigger] inst(rules[i].head, s)
                        &&& (rules[i].b0 matches Some(a) ==> stratum_lfp(rules, base).contains(
                            inst(a, s),
                        ))
                        &&& (rules[i].b1 matches Some(a) ==> stratum_lfp(rules, base).contains(
                            inst(a, s),
                        ))
                        &&& (rules[i].b2 matches Some(a) ==> stratum_lfp(rules, base).contains(
                            inst(a, s),
                        ))
                        &&& (rules[i].b3 matches Some(a) ==> stratum_lfp(rules, base).contains(
                            inst(a, s),
                        ))
                        &&& (rules[i].neg matches Some(a) ==> !base.contains(inst(a, s)))
                        &&& (rules[i].diff matches Some(d) ==> crate::engine::sub_get(s, d.0) != crate::engine::sub_get(s, d.1))
                    };
                // only the double-use rule derives this relation
                if i == 0 {
                } else if i == 1 {
                } else if i == 2 {
                } else if i == 3 {
                } else if i == 4 {
                } else {
                    assert(i == 5);
                    assert(rules[5] == lin_rule_double_use());
                    let g1 = (Fact {
                        rel: REL_USED,
                        a0: crate::engine::sub_get(s, 0),
                        a1: crate::engine::sub_get(s, 1),
                        a2: 0,
                        a3: 0,
                    });
                    let g2 = (Fact {
                        rel: REL_USED,
                        a0: crate::engine::sub_get(s, 0),
                        a1: crate::engine::sub_get(s, 2),
                        a2: 0,
                        a3: 0,
                    });
                    assert(lfp.contains(g1));
                    assert(lfp.contains(g2));
                    assert(crate::engine::sub_get(s, 1) != crate::engine::sub_get(s, 2));
                    lemma_lfp_non_head_is_input(rules, base, g1);
                    lemma_lfp_non_head_is_input(rules, base, g2);
                    // both are input `Used` facts of the same interned path
                    let k1 = choose|k: int|
                        0 <= k < paths.uses@.len() && g1 == use_fact(#[trigger] paths.uses@[k]);
                    let k2 = choose|k: int|
                        0 <= k < paths.uses@.len() && g2 == use_fact(#[trigger] paths.uses@[k]);
                    assert(base.contains(g1) ==> g1 == use_fact(paths.uses@[k1])) by {
                        if base.contains(g1) {
                            if exists|k: int|
                                0 <= k < paths.roots@.len() && g1 == root_fact(
                                    #[trigger] paths.roots@[k],
                                ) {
                                let k = choose|k: int|
                                    0 <= k < paths.roots@.len() && g1 == root_fact(
                                        #[trigger] paths.roots@[k],
                                    );
                            } else if exists|k: int|
                                0 <= k < paths.parents@.len() && g1 == parent_fact(
                                    #[trigger] paths.parents@[k],
                                ) {
                                let k = choose|k: int|
                                    0 <= k < paths.parents@.len() && g1 == parent_fact(
                                        #[trigger] paths.parents@[k],
                                    );
                            }
                        }
                    }
                    assert(base.contains(g2) ==> g2 == use_fact(paths.uses@[k2])) by {
                        if base.contains(g2) {
                            if exists|k: int|
                                0 <= k < paths.roots@.len() && g2 == root_fact(
                                    #[trigger] paths.roots@[k],
                                ) {
                                let k = choose|k: int|
                                    0 <= k < paths.roots@.len() && g2 == root_fact(
                                        #[trigger] paths.roots@[k],
                                    );
                            } else if exists|k: int|
                                0 <= k < paths.parents@.len() && g2 == parent_fact(
                                    #[trigger] paths.parents@[k],
                                ) {
                                let k = choose|k: int|
                                    0 <= k < paths.parents@.len() && g2 == parent_fact(
                                        #[trigger] paths.parents@[k],
                                    );
                            }
                        }
                    }
                    let t1 = paths.uses@[k1];
                    let t2 = paths.uses@[k2];
                    // one interned identity, two distinct sites
                    assert(t1.0 == t2.0);
                    assert(t1.1 != t2.1);
                    let v = path_val(paths.paths(), t1.0.0 as int);
                    assert(uses_vals(paths).contains((v, t1.1)));
                    assert(uses_vals(paths).contains((v, t2.1)));
                    assert(false);
                }
            }
        }
        // so the report's double-use relation is empty
        assert(rep.double_use@.len() == 0) by {
            if rep.double_use@.len() > 0 {
                let t = rep.double_use@[0];
                assert(rep.double_use@.contains(t));
                assert(lin_model(paths).contains(double_use_fact(t.0, t.1, t.2)));
                assert(double_use_fact(t.0, t.1, t.2).rel == REL_DOUBLE_USE);
            }
        }
        // the parent facts of the tree, as path values
        let none_parents = Set::<(PathVal, PathVal)>::empty();
        assert(facts_of(es, 0).parents =~= none_parents);
        assert(facts_of(es, 1).parents =~= none_parents);
        assert(facts_of(es, 2).parents =~= none_parents);
        assert(facts_of(es, 3).parents =~= none_parents);
        assert(facts_of(es, 4).parents =~= none_parents);
        assert(facts_of(es, 5).parents =~= none_parents);
        assert(facts_of_list(es, ids6, 0, 6).parents =~= none_parents);
        assert(facts_of_list(es, ids6, 1, 6).parents =~= none_parents);
        assert(facts_of_list(es, ids6, 2, 6).parents =~= none_parents);
        assert(facts_of(es, 6).parents =~= none_parents);
        assert(facts_of_list(es, ids7, 0, 7).parents =~= none_parents);
        assert(facts_of_list(es, ids7, 1, 7).parents =~= none_parents);
        assert(facts_of_list(es, ids7, 2, 7).parents =~= none_parents);
        assert(facts_of(es, 7).parents =~= none_parents);
        let pr1 = none_parents.insert((va, va0));
        let pr2 = pr1.insert((va0, va00));
        let pr3 = pr1.insert((va0, va01));
        let pr4 = none_parents.insert((va, va1));
        assert(facts_of(es, 8).parents =~= pr1);
        assert(facts_of(es, 9).parents =~= pr2);
        assert(facts_of(es, 10).parents =~= pr3);
        assert(facts_of(es, 11).parents =~= pr4);
        assert(facts_of(es, 12).parents =~= pr4);
        assert(facts_of(es, 13).parents =~= pr3.union(pr4));
        assert(facts_of(es, 14).parents =~= pr2.union(pr3.union(pr4)));
        assert(facts_of(es, 15).parents =~= pr2.union(pr3.union(pr4)));
        assert(crate::resolve::parents_vals(paths) =~= pr2.union(pr3.union(pr4)));
        // every parent pair is a one-step extension, hence a strict prefix
        assert(proj_prefix(va, va0)) by {
            assert(va0.projs.take(0) =~= va.projs);
        }
        assert(proj_prefix(va0, va00)) by {
            assert(va00.projs.take(1) =~= va0.projs);
        }
        assert(proj_prefix(va0, va01)) by {
            assert(va01.projs.take(1) =~= va0.projs);
        }
        assert(proj_prefix(va, va1)) by {
            assert(va1.projs.take(0) =~= va.projs);
        }
        assert(forall|t: (PathVal, PathVal)|
            #[trigger] crate::resolve::parents_vals(paths).contains(t) ==> proj_prefix(
                t.0,
                t.1,
            ));
        // no ancestor-used fact can be in the model: the ancestor of a
        // consumed path would itself be consumed, but the three consumed
        // values are prefix-incomparable
        assert(va1.projs =~= seq![Index(1)]);
        assert(va00.projs.take(1) =~= seq![Index(0)]);
        assert(va01.projs.take(1) =~= seq![Index(0)]);
        assert forall|f: Fact|
            f.rel == crate::rules::REL_ANCESTOR_USED implies !#[trigger] lfp.contains(f) by {
            if lfp.contains(f) {
                assert(!base.contains(f)) by {
                    if base.contains(f) {
                        if exists|k: int|
                            0 <= k < paths.roots@.len() && f == root_fact(
                                #[trigger] paths.roots@[k],
                            ) {
                            let k = choose|k: int|
                                0 <= k < paths.roots@.len() && f == root_fact(
                                    #[trigger] paths.roots@[k],
                                );
                        } else if exists|k: int|
                            0 <= k < paths.parents@.len() && f == parent_fact(
                                #[trigger] paths.parents@[k],
                            ) {
                            let k = choose|k: int|
                                0 <= k < paths.parents@.len() && f == parent_fact(
                                    #[trigger] paths.parents@[k],
                                );
                        } else {
                            let k = choose|k: int|
                                0 <= k < paths.uses@.len() && f == use_fact(
                                    #[trigger] paths.uses@[k],
                                );
                        }
                    }
                }
                lemma_lfp_inversion(rules, base, f);
                let (i, s) = choose|i: int, s: Sub|
                    {
                        &&& 0 <= i < rules.len()
                        &&& f == #[trigger] inst(rules[i].head, s)
                        &&& (rules[i].b0 matches Some(a) ==> stratum_lfp(rules, base).contains(
                            inst(a, s),
                        ))
                        &&& (rules[i].b1 matches Some(a) ==> stratum_lfp(rules, base).contains(
                            inst(a, s),
                        ))
                        &&& (rules[i].b2 matches Some(a) ==> stratum_lfp(rules, base).contains(
                            inst(a, s),
                        ))
                        &&& (rules[i].b3 matches Some(a) ==> stratum_lfp(rules, base).contains(
                            inst(a, s),
                        ))
                        &&& (rules[i].neg matches Some(a) ==> !base.contains(inst(a, s)))
                        &&& (rules[i].diff matches Some(d) ==> crate::engine::sub_get(s, d.0)
                            != crate::engine::sub_get(s, d.1))
                    };
                if i == 0 {
                } else if i == 1 {
                } else if i == 2 {
                } else if i == 3 {
                } else if i == 5 {
                } else {
                    assert(i == 4);
                    assert(rules[4] == crate::rules::lin_rule_ancestor_used());
                    let s0 = crate::engine::sub_get(s, 0);
                    let s1 = crate::engine::sub_get(s, 1);
                    let s2 = crate::engine::sub_get(s, 2);
                    let s3 = crate::engine::sub_get(s, 3);
                    let ga = (Fact {
                        rel: crate::rules::REL_ANCESTOR,
                        a0: s0,
                        a1: s1,
                        a2: 0,
                        a3: 0,
                    });
                    let g1 = (Fact { rel: REL_USED, a0: s0, a1: s2, a2: 0, a3: 0 });
                    let g2 = (Fact { rel: REL_USED, a0: s1, a1: s3, a2: 0, a3: 0 });
                    assert(lfp.contains(ga));
                    assert(lfp.contains(g1));
                    assert(lfp.contains(g2));
                    assert(crate::engine::derivable(rules, base, ga));
                    let na = choose|na: nat| crate::engine::deriv(rules, base, ga, na);
                    lemma_ancestor_prefix(paths, ga, na);
                    let (pi, pj) = choose|pi: PathId, pj: PathId|
                        pi.0 < paths.paths().len() && pj.0 < paths.paths().len() && ga.a0 == pi.0
                            as u64 && ga.a1 == pj.0 as u64 && #[trigger] proj_prefix(
                            path_val(paths.paths(), pi.0 as int),
                            path_val(paths.paths(), pj.0 as int),
                        );
                    lemma_lfp_non_head_is_input(rules, base, g1);
                    lemma_lfp_non_head_is_input(rules, base, g2);
                    let k1 = choose|k: int|
                        0 <= k < paths.uses@.len() && g1 == use_fact(#[trigger] paths.uses@[k]);
                    let k2 = choose|k: int|
                        0 <= k < paths.uses@.len() && g2 == use_fact(#[trigger] paths.uses@[k]);
                    assert(g1 == use_fact(paths.uses@[k1])) by {
                        if exists|k: int|
                            0 <= k < paths.roots@.len() && g1 == root_fact(
                                #[trigger] paths.roots@[k],
                            ) {
                            let k = choose|k: int|
                                0 <= k < paths.roots@.len() && g1 == root_fact(
                                    #[trigger] paths.roots@[k],
                                );
                        }
                        if exists|k: int|
                            0 <= k < paths.parents@.len() && g1 == parent_fact(
                                #[trigger] paths.parents@[k],
                            ) {
                            let k = choose|k: int|
                                0 <= k < paths.parents@.len() && g1 == parent_fact(
                                    #[trigger] paths.parents@[k],
                                );
                        }
                    }
                    assert(g2 == use_fact(paths.uses@[k2])) by {
                        if exists|k: int|
                            0 <= k < paths.roots@.len() && g2 == root_fact(
                                #[trigger] paths.roots@[k],
                            ) {
                            let k = choose|k: int|
                                0 <= k < paths.roots@.len() && g2 == root_fact(
                                    #[trigger] paths.roots@[k],
                                );
                        }
                        if exists|k: int|
                            0 <= k < paths.parents@.len() && g2 == parent_fact(
                                #[trigger] paths.parents@[k],
                            ) {
                            let k = choose|k: int|
                                0 <= k < paths.parents@.len() && g2 == parent_fact(
                                    #[trigger] paths.parents@[k],
                                );
                        }
                    }
                    let q1 = paths.uses@[k1].0;
                    let q2 = paths.uses@[k2].0;
                    assert(q1 == pi && q2 == pj);
                    let vi = path_val(paths.paths(), pi.0 as int);
                    let vj = path_val(paths.paths(), pj.0 as int);
                    assert(uses_vals(paths).contains((vi, paths.uses@[k1].1)));
                    assert(uses_vals(paths).contains((vj, paths.uses@[k2].1)));
                    assert(u3.contains((vi, paths.uses@[k1].1)));
                    assert(u3.contains((vj, paths.uses@[k2].1)));
                    // both consumed values, yet one a strict prefix of the
                    // other: impossible among the three
                    assert(proj_prefix(vi, vj));
                    if vi == va00 || vi == va01 {
                        assert(vj.projs.len() > 2);
                    } else {
                        assert(vi == va1);
                        assert(vj == va00 || vj == va01);
                        assert(vj.projs.take(1) == vi.projs);
                        assert(seq![Index(0)][0] == seq![Index(1)][0]);
                    }
                    assert(false);
                }
            }
        }
        // so the report's ancestor-used relation is empty
        assert(rep.ancestor_used@.len() == 0) by {
            if rep.ancestor_used@.len() > 0 {
                let t = rep.ancestor_used@[0];
                assert(rep.ancestor_used@.contains(t));
                assert(lin_model(paths).contains(crate::rules::ancestor_used_fact(
                    t.0,
                    t.1,
                    t.2,
                )));
                assert(crate::rules::ancestor_used_fact(t.0, t.1, t.2).rel
                    == crate::rules::REL_ANCESTOR_USED);
            }
        }
    }
    (exprs, paths, rep)
}

} // verus!

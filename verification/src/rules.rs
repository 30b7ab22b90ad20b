//! The two rule-set instantiations of the fixpoint evaluator: the
//! linearity checker over `Root` / `Parent` / `Used` base facts, and the
//! structural type inference over a flat relational image of the typed
//! expression table.
//!
//! Every relation is a tagged fact; the constants below name the tags
//! and the type codes. The contracts of `lincheck` and `typecheck` tie
//! each reported row to the least model (`strata_lfp`) of the fixed rule
//! set over the encoded inputs, for every row, in both directions.

use vstd::prelude::*;

use crate::data::{ExprId, NameId, PathId, PathInterner};
use crate::engine::{
    fset, strata_lfp, strata_wf, negs_rel, poss_rel, head_rel, rule_neg_rel, rule_pos_rel,
    rules_wf, rule_wf, Atom, Fact, Rule, RuleSet, Term,
};
use crate::typed::{Expr, ExprKind, ExprMap, TypeKind};

verus! {

pub const REL_ROOT: u64 = 1;

pub const REL_PARENT: u64 = 2;

pub const REL_USED: u64 = 3;

pub const REL_ORIGIN: u64 = 4;

pub const REL_ANCESTOR: u64 = 5;

pub const REL_ANCESTOR_USED: u64 = 6;

pub const REL_DOUBLE_USE: u64 = 7;

pub const REL_EXPR: u64 = 8;

pub const REL_LET: u64 = 9;

pub const REL_VAR: u64 = 10;

pub const REL_ADD: u64 = 11;

pub const REL_EQU: u64 = 12;

pub const REL_I32: u64 = 13;

pub const REL_U32: u64 = 14;

pub const REL_BIND: u64 = 15;

pub const REL_TYPE_OF: u64 = 16;

pub const REL_HAS_TYPE: u64 = 17;

pub const REL_TYPE_ERROR: u64 = 18;

pub const TY_I32: u64 = 1;

pub const TY_U32: u64 = 2;

pub const TY_BOOL: u64 = 3;

// ---------------------------------------------------------------------
// The linearity rule set.
// ---------------------------------------------------------------------

/// `Origin(x, p) :- Root(x, p)`: a bare variable path originates at its
/// binder.
pub open spec fn lin_rule_origin_root() -> Rule {
    Rule {
        head: Atom {
            rel: REL_ORIGIN,
            t0: Term::Var(0),
            t1: Term::Var(1),
            t2: Term::Const(0),
            t3: Term::Const(0),
        },
        b0: Some(
            Atom {
                rel: REL_ROOT,
                t0: Term::Var(0),
                t1: Term::Var(1),
                t2: Term::Const(0),
                t3: Term::Const(0),
            },
        ),
        b1: None,
        b2: None,
        b3: None,
        neg: None,
        diff: None,
    }
}

/// `Origin(x, q) :- Parent(p, q), Origin(x, p)`: a projection inherits
/// the origin of the path it projects out of.
pub open spec fn lin_rule_origin_parent() -> Rule {
    Rule {
        head: Atom {
            rel: REL_ORIGIN,
            t0: Term::Var(0),
            t1: Term::Var(2),
            t2: Term::Const(0),
            t3: Term::Const(0),
        },
        b0: Some(
            Atom {
                rel: REL_PARENT,
                t0: Term::Var(1),
                t1: Term::Var(2),
                t2: Term::Const(0),
                t3: Term::Const(0),
            },
        ),
        b1: Some(
            Atom {
                rel: REL_ORIGIN,
                t0: Term::Var(0),
                t1: Term::Var(1),
                t2: Term::Const(0),
                t3: Term::Const(0),
            },
        ),
        b2: None,
        b3: None,
        neg: None,
        diff: None,
    }
}

/// `Ancestor(p, q) :- Parent(p, q)`.
pub open spec fn lin_rule_ancestor_base() -> Rule {
    Rule {
        head: Atom {
            rel: REL_ANCESTOR,
            t0: Term::Var(0),
            t1: Term::Var(1),
            t2: Term::Const(0),
            t3: Term::Const(0),
        },
        b0: Some(
            Atom {
                rel: REL_PARENT,
                t0: Term::Var(0),
                t1: Term::Var(1),
                t2: Term::Const(0),
                t3: Term::Const(0),
            },
        ),
        b1: None,
        b2: None,
        b3: None,
        neg: None,
        diff: None,
    }
}

/// `Ancestor(p, r) :- Ancestor(p, q), Parent(q, r)`: the transitive
/// closure of `Parent`.
pub open spec fn lin_rule_ancestor_step() -> Rule {
    Rule {
        head: Atom {
            rel: REL_ANCESTOR,
            t0: Term::Var(0),
            t1: Term::Var(2),
            t2: Term::Const(0),
            t3: Term::Const(0),
        },
        b0: Some(
            Atom {
                rel: REL_ANCESTOR,
                t0: Term::Var(0),
                t1: Term::Var(1),
                t2: Term::Const(0),
                t3: Term::Const(0),
            },
        ),
        b1: Some(
            Atom {
                rel: REL_PARENT,
                t0: Term::Var(1),
                t1: Term::Var(2),
                t2: Term::Const(0),
                t3: Term::Const(0),
            },
        ),
        b2: None,
        b3: None,
        neg: None,
        diff: None,
    }
}

/// `AncestorUsed(p, q, e) :- Ancestor(p, q), Used(p, e), Used(q, e2)`:
/// a consumed path has a consumed descendant.
pub open spec fn lin_rule_ancestor_used() -> Rule {
    Rule {
        head: Atom {
            rel: REL_ANCESTOR_USED,
            t0: Term::Var(0),
            t1: Term::Var(1),
            t2: Term::Var(2),
            t3: Term::Const(0),
        },
        b0: Some(
            Atom {
                rel: REL_ANCESTOR,
                t0: Term::Var(0),
                t1: Term::Var(1),
                t2: Term::Const(0),
                t3: Term::Const(0),
            },
        ),
        b1: Some(
            Atom {
                rel: REL_USED,
                t0: Term::Var(0),
                t1: Term::Var(2),
                t2: Term::Const(0),
                t3: Term::Const(0),
            },
        ),
        b2: Some(
            Atom {
                rel: REL_USED,
                t0: Term::Var(1),
                t1: Term::Var(3),
                t2: Term::Const(0),
                t3: Term::Const(0),
            },
        ),
        b3: None,
        neg: None,
        diff: None,
    }
}

/// `DoubleUse(p, e, e2) :- Used(p, e), Used(p, e2), e != e2`: one path
/// consumed at two distinct sites.
pub open spec fn lin_rule_double_use() -> Rule {
    Rule {
        head: Atom {
            rel: REL_DOUBLE_USE,
            t0: Term::Var(0),
            t1: Term::Var(1),
            t2: Term::Var(2),
            t3: Term::Const(0),
        },
        b0: Some(
            Atom {
                rel: REL_USED,
                t0: Term::Var(0),
                t1: Term::Var(1),
                t2: Term::Const(0),
                t3: Term::Const(0),
            },
        ),
        b1: Some(
            Atom {
                rel: REL_USED,
                t0: Term::Var(0),
                t1: Term::Var(2),
                t2: Term::Const(0),
                t3: Term::Const(0),
            },
        ),
        b2: None,
        b3: None,
        neg: None,
        diff: Some((1, 2)),
    }
}

/// The linearity rules: one stratum, purely positive.
pub open spec fn lin_strata() -> Seq<Seq<Rule>> {
    seq![
        seq![
            lin_rule_origin_root(),
            lin_rule_origin_parent(),
            lin_rule_ancestor_base(),
            lin_rule_ancestor_step(),
            lin_rule_ancestor_used(),
            lin_rule_double_use(),
        ],
    ]
}

/// The linearity rules are well formed and (trivially, having no
/// negation and one stratum) stratified.
pub proof fn lemma_lin_strata_wf()
    ensures
        strata_wf(lin_strata()),
        crate::laws::no_negs(lin_strata()),
{
    let ss = lin_strata();
    let rules = ss[0];
    assert forall|k: int| 0 <= k < ss.len() implies rules_wf(#[trigger] ss[k]) by {
        assert(ss[k] == rules);
        assert forall|i: int| 0 <= i < rules.len() implies rule_wf(#[trigger] rules[i]) by {
            if i == 0 {
                assert(rule_wf(rules[0]));
            } else if i == 1 {
                assert(rule_wf(rules[1]));
            } else if i == 2 {
                assert(rule_wf(rules[2]));
            } else if i == 3 {
                assert(rule_wf(rules[3]));
            } else if i == 4 {
                assert(rule_wf(rules[4]));
            } else {
                assert(rule_wf(rules[5]));
            }
        }
    }
    assert forall|i: int| 0 <= i < rules.len() implies (#[trigger] rules[i]).neg is None by {
        if i == 0 {
        } else if i == 1 {
        } else if i == 2 {
        } else if i == 3 {
        } else if i == 4 {
        } else {
            assert(rules[5].neg is None);
        }
    }
    assert forall|k: int| 0 <= k < ss.len() implies crate::laws::stratum_no_negs(
        #[trigger] ss[k],
    ) by {
        assert(ss[k] == rules);
    }
    assert forall|k: int, k2: int, q: u64|
        0 <= k <= k2 < ss.len() && #[trigger] negs_rel(ss[k], q) implies !#[trigger] head_rel(
        ss[k2],
        q,
    ) by {
        let i = choose|i: int| 0 <= i < ss[k].len() && rule_neg_rel(#[trigger] ss[k][i], q);
        assert(ss[k][i].neg is Some);
        assert(ss[k][i].neg is None);
    }
    assert forall|k: int, k2: int, q: u64|
        0 <= k < k2 < ss.len() && #[trigger] poss_rel(ss[k], q) implies !#[trigger] head_rel(
        ss[k2],
        q,
    ) by {
        assert(ss.len() == 1);
    }
}

/// Builds the linearity rule set.
pub fn lin_ruleset() -> (rs: RuleSet)
    ensures
        rs.strata_seq() == lin_strata(),
        strata_wf(rs.strata_seq()),
{
    let stratum: Vec<Rule> = vec![
        Rule {
            head: Atom {
                rel: REL_ORIGIN,
                t0: Term::Var(0),
                t1: Term::Var(1),
                t2: Term::Const(0),
                t3: Term::Const(0),
            },
            b0: Some(
                Atom {
                    rel: REL_ROOT,
                    t0: Term::Var(0),
                    t1: Term::Var(1),
                    t2: Term::Const(0),
                    t3: Term::Const(0),
                },
            ),
            b1: None,
            b2: None,
            b3: None,
            neg: None,
            diff: None,
        },
        Rule {
            head: Atom {
                rel: REL_ORIGIN,
                t0: Term::Var(0),
                t1: Term::Var(2),
                t2: Term::Const(0),
                t3: Term::Const(0),
            },
            b0: Some(
                Atom {
                    rel: REL_PARENT,
                    t0: Term::Var(1),
                    t1: Term::Var(2),
                    t2: Term::Const(0),
                    t3: Term::Const(0),
                },
            ),
            b1: Some(
                Atom {
                    rel: REL_ORIGIN,
                    t0: Term::Var(0),
                    t1: Term::Var(1),
                    t2: Term::Const(0),
                    t3: Term::Const(0),
                },
            ),
            b2: None,
            b3: None,
            neg: None,
            diff: None,
        },
        Rule {
            head: Atom {
                rel: REL_ANCESTOR,
                t0: Term::Var(0),
                t1: Term::Var(1),
                t2: Term::Const(0),
                t3: Term::Const(0),
            },
            b0: Some(
                Atom {
                    rel: REL_PARENT,
                    t0: Term::Var(0),
                    t1: Term::Var(1),
                    t2: Term::Const(0),
                    t3: Term::Const(0),
                },
            ),
            b1: None,
            b2: None,
            b3: None,
            neg: None,
            diff: None,
        },
        Rule {
            head: Atom {
                rel: REL_ANCESTOR,
                t0: Term::Var(0),
                t1: Term::Var(2),
                t2: Term::Const(0),
                t3: Term::Const(0),
            },
            b0: Some(
                Atom {
                    rel: REL_ANCESTOR,
                    t0: Term::Var(0),
                    t1: Term::Var(1),
                    t2: Term::Const(0),
                    t3: Term::Const(0),
                },
            ),
            b1: Some(
                Atom {
                    rel: REL_PARENT,
                    t0: Term::Var(1),
                    t1: Term::Var(2),
                    t2: Term::Const(0),
                    t3: Term::Const(0),
                },
            ),
            b2: None,
            b3: None,
            neg: None,
            diff: None,
        },
        Rule {
            head: Atom {
                rel: REL_ANCESTOR_USED,
                t0: Term::Var(0),
                t1: Term::Var(1),
                t2: Term::Var(2),
                t3: Term::Const(0),
            },
            b0: Some(
                Atom {
                    rel: REL_ANCESTOR,
                    t0: Term::Var(0),
                    t1: Term::Var(1),
                    t2: Term::Const(0),
                    t3: Term::Const(0),
                },
            ),
            b1: Some(
                Atom {
                    rel: REL_USED,
                    t0: Term::Var(0),
                    t1: Term::Var(2),
                    t2: Term::Const(0),
                    t3: Term::Const(0),
                },
            ),
            b2: Some(
                Atom {
                    rel: REL_USED,
                    t0: Term::Var(1),
                    t1: Term::Var(3),
                    t2: Term::Const(0),
                    t3: Term::Const(0),
                },
            ),
            b3: None,
            neg: None,
            diff: None,
        },
        Rule {
            head: Atom {
                rel: REL_DOUBLE_USE,
                t0: Term::Var(0),
                t1: Term::Var(1),
                t2: Term::Var(2),
                t3: Term::Const(0),
            },
            b0: Some(
                Atom {
                    rel: REL_USED,
                    t0: Term::Var(0),
                    t1: Term::Var(1),
                    t2: Term::Const(0),
                    t3: Term::Const(0),
                },
            ),
            b1: Some(
                Atom {
                    rel: REL_USED,
                    t0: Term::Var(0),
                    t1: Term::Var(2),
                    t2: Term::Const(0),
                    t3: Term::Const(0),
                },
            ),
            b2: None,
            b3: None,
            neg: None,
            diff: Some((1, 2)),
        },
    ];
    let strata: Vec<Vec<Rule>> = vec![stratum];
    let rs = RuleSet { strata };
    proof {
        assert(rs.strata_seq().len() == 1);
        assert(rs.strata_seq()[0] =~= lin_strata()[0]);
        assert(rs.strata_seq() =~= lin_strata());
        lemma_lin_strata_wf();
    }
    rs
}


// ---------------------------------------------------------------------
// The type-inference rule set.
// ---------------------------------------------------------------------

/// `Bind(x, v) :- Let(e, x, v, b)`: the value expression bound to a
/// name (each name is bound exactly once).
pub open spec fn ty_rule_bind() -> Rule {
    Rule {
        head: Atom {
            rel: REL_BIND,
            t0: Term::Var(1),
            t1: Term::Var(2),
            t2: Term::Const(0),
            t3: Term::Const(0),
        },
        b0: Some(
            Atom {
                rel: REL_LET,
                t0: Term::Var(0),
                t1: Term::Var(1),
                t2: Term::Var(2),
                t3: Term::Var(3),
            },
        ),
        b1: None,
        b2: None,
        b3: None,
        neg: None,
        diff: None,
    }
}

/// An `I32` literal has type `I32`.
pub open spec fn ty_rule_i32() -> Rule {
    Rule {
        head: Atom {
            rel: REL_TYPE_OF,
            t0: Term::Var(0),
            t1: Term::Const(TY_I32),
            t2: Term::Const(0),
            t3: Term::Const(0),
        },
        b0: Some(
            Atom {
                rel: REL_I32,
                t0: Term::Var(0),
                t1: Term::Const(0),
                t2: Term::Const(0),
                t3: Term::Const(0),
            },
        ),
        b1: None,
        b2: None,
        b3: None,
        neg: None,
        diff: None,
    }
}

/// A `U32` literal has type `U32`.
pub open spec fn ty_rule_u32() -> Rule {
    Rule {
        head: Atom {
            rel: REL_TYPE_OF,
            t0: Term::Var(0),
            t1: Term::Const(TY_U32),
            t2: Term::Const(0),
            t3: Term::Const(0),
        },
        b0: Some(
            Atom {
                rel: REL_U32,
                t0: Term::Var(0),
                t1: Term::Const(0),
                t2: Term::Const(0),
                t3: Term::Const(0),
            },
        ),
        b1: None,
        b2: None,
        b3: None,
        neg: None,
        diff: None,
    }
}

/// A `Let` takes the type of its body.
pub open spec fn ty_rule_let() -> Rule {
    Rule {
        head: Atom {
            rel: REL_TYPE_OF,
            t0: Term::Var(0),
            t1: Term::Var(4),
            t2: Term::Const(0),
            t3: Term::Const(0),
        },
        b0: Some(
            Atom {
                rel: REL_LET,
                t0: Term::Var(0),
                t1: Term::Var(1),
                t2: Term::Var(2),
                t3: Term::Var(3),
            },
        ),
        b1: Some(
            Atom {
                rel: REL_TYPE_OF,
                t0: Term::Var(3),
                t1: Term::Var(4),
                t2: Term::Const(0),
                t3: Term::Const(0),
            },
        ),
        b2: None,
        b3: None,
        neg: None,
        diff: None,
    }
}

/// A variable takes the type of its binding's value.
pub open spec fn ty_rule_var() -> Rule {
    Rule {
        head: Atom {
            rel: REL_TYPE_OF,
            t0: Term::Var(0),
            t1: Term::Var(3),
            t2: Term::Const(0),
            t3: Term::Const(0),
        },
        b0: Some(
            Atom {
                rel: REL_VAR,
                t0: Term::Var(0),
                t1: Term::Var(1),
                t2: Term::Const(0),
                t3: Term::Const(0),
            },
        ),
        b1: Some(
            Atom {
                rel: REL_BIND,
                t0: Term::Var(1),
                t1: Term::Var(2),
                t2: Term::Const(0),
                t3: Term::Const(0),
            },
        ),
        b2: Some(
            Atom {
                rel: REL_TYPE_OF,
                t0: Term::Var(2),
                t1: Term::Var(3),
                t2: Term::Const(0),
                t3: Term::Const(0),
            },
        ),
        b3: None,
        neg: None,
        diff: None,
    }
}

/// `Add` requires both operands to share a type and yields that type.
pub open spec fn ty_rule_add() -> Rule {
    Rule {
        head: Atom {
            rel: REL_TYPE_OF,
            t0: Term::Var(0),
            t1: Term::Var(3),
            t2: Term::Const(0),
            t3: Term::Const(0),
        },
        b0: Some(
            Atom {
                rel: REL_ADD,
                t0: Term::Var(0),
                t1: Term::Var(1),
                t2: Term::Var(2),
                t3: Term::Const(0),
            },
        ),
        b1: Some(
            Atom {
                rel: REL_TYPE_OF,
                t0: Term::Var(1),
                t1: Term::Var(3),
                t2: Term::Const(0),
                t3: Term::Const(0),
            },
        ),
        b2: Some(
            Atom {
                rel: REL_TYPE_OF,
                t0: Term::Var(2),
                t1: Term::Var(3),
                t2: Term::Const(0),
                t3: Term::Const(0),
            },
        ),
        b3: None,
        neg: None,
        diff: None,
    }
}

/// `Equ` requires both operands to share a type and yields `Bool`.
pub open spec fn ty_rule_equ() -> Rule {
    Rule {
        head: Atom {
            rel: REL_TYPE_OF,
            t0: Term::Var(0),
            t1: Term::Const(TY_BOOL),
            t2: Term::Const(0),
            t3: Term::Const(0),
        },
        b0: Some(
            Atom {
                rel: REL_EQU,
                t0: Term::Var(0),
                t1: Term::Var(1),
                t2: Term::Var(2),
                t3: Term::Const(0),
            },
        ),
        b1: Some(
            Atom {
                rel: REL_TYPE_OF,
                t0: Term::Var(1),
                t1: Term::Var(3),
                t2: Term::Const(0),
                t3: Term::Const(0),
            },
        ),
        b2: Some(
            Atom {
                rel: REL_TYPE_OF,
                t0: Term::Var(2),
                t1: Term::Var(3),
                t2: Term::Const(0),
                t3: Term::Const(0),
            },
        ),
        b3: None,
        neg: None,
        diff: None,
    }
}

/// `HasType(e) :- TypeOf(e, t)`: the auxiliary relation the negation
/// reads.
pub open spec fn ty_rule_has_type() -> Rule {
    Rule {
        head: Atom {
            rel: REL_HAS_TYPE,
            t0: Term::Var(0),
            t1: Term::Const(0),
            t2: Term::Const(0),
            t3: Term::Const(0),
        },
        b0: Some(
            Atom {
                rel: REL_TYPE_OF,
                t0: Term::Var(0),
                t1: Term::Var(1),
                t2: Term::Const(0),
                t3: Term::Const(0),
            },
        ),
        b1: None,
        b2: None,
        b3: None,
        neg: None,
        diff: None,
    }
}

/// `TypeError(e) :- Expr(e), NOT HasType(e)`: an expression for which
/// no type can be derived.
pub open spec fn ty_rule_error() -> Rule {
    Rule {
        head: Atom {
            rel: REL_TYPE_ERROR,
            t0: Term::Var(0),
            t1: Term::Const(0),
            t2: Term::Const(0),
            t3: Term::Const(0),
        },
        b0: Some(
            Atom {
                rel: REL_EXPR,
                t0: Term::Var(0),
                t1: Term::Const(0),
                t2: Term::Const(0),
                t3: Term::Const(0),
            },
        ),
        b1: None,
        b2: None,
        b3: None,
        neg: Some(
            Atom {
                rel: REL_HAS_TYPE,
                t0: Term::Var(0),
                t1: Term::Const(0),
                t2: Term::Const(0),
                t3: Term::Const(0),
            },
        ),
        diff: None,
    }
}

/// The typing rules: all positive derivations first, then the one
/// negation-dependent rule in a second stratum over the frozen result.
pub open spec fn ty_strata() -> Seq<Seq<Rule>> {
    seq![
        seq![
            ty_rule_bind(),
            ty_rule_i32(),
            ty_rule_u32(),
            ty_rule_let(),
            ty_rule_var(),
            ty_rule_add(),
            ty_rule_equ(),
            ty_rule_has_type(),
        ],
        seq![ty_rule_error()],
    ]
}

/// The typing rules are well formed and properly stratified: `HasType`
/// is negated only after its stratum is final, and no later stratum
/// feeds an earlier one.
pub proof fn lemma_ty_strata_wf()
    ensures
        strata_wf(ty_strata()),
{
    let ss = ty_strata();
    let s0 = ss[0];
    let s1 = ss[1];
    assert forall|k: int| 0 <= k < ss.len() implies rules_wf(#[trigger] ss[k]) by {
        if k == 0 {
            assert forall|i: int| 0 <= i < s0.len() implies rule_wf(#[trigger] s0[i]) by {
                if i == 0 {
                    assert(rule_wf(s0[0]));
                } else if i == 1 {
                    assert(rule_wf(s0[1]));
                } else if i == 2 {
                    assert(rule_wf(s0[2]));
                } else if i == 3 {
                    assert(rule_wf(s0[3]));
                } else if i == 4 {
                    assert(rule_wf(s0[4]));
                } else if i == 5 {
                    assert(rule_wf(s0[5]));
                } else if i == 6 {
                    assert(rule_wf(s0[6]));
                } else {
                    assert(rule_wf(s0[7]));
                }
            }
        } else {
            assert(k == 1);
            assert forall|i: int| 0 <= i < s1.len() implies rule_wf(#[trigger] s1[i]) by {
                assert(rule_wf(s1[0]));
            }
        }
    }
    assert forall|k: int, k2: int, q: u64|
        0 <= k <= k2 < ss.len() && #[trigger] negs_rel(ss[k], q) implies !#[trigger] head_rel(
        ss[k2],
        q,
    ) by {
        let i = choose|i: int| 0 <= i < ss[k].len() && rule_neg_rel(#[trigger] ss[k][i], q);
        if k == 0 {
            if i == 0 {
            } else if i == 1 {
            } else if i == 2 {
            } else if i == 3 {
            } else if i == 4 {
            } else if i == 5 {
            } else if i == 6 {
            } else {
                assert(s0[7].neg is None);
            }
            assert(false);
        } else {
            assert(k == 1 && k2 == 1);
            assert(i == 0);
            assert(q == REL_HAS_TYPE);
            if head_rel(ss[k2], q) {
                let i2 = choose|i2: int|
                    0 <= i2 < ss[k2].len() && (#[trigger] ss[k2][i2]).head.rel == q;
                assert(i2 == 0);
                assert(s1[0].head.rel == REL_TYPE_ERROR);
            }
        }
    }
    assert forall|k: int, k2: int, q: u64|
        0 <= k < k2 < ss.len() && #[trigger] poss_rel(ss[k], q) implies !#[trigger] head_rel(
        ss[k2],
        q,
    ) by {
        assert(k == 0 && k2 == 1);
        let i = choose|i: int| 0 <= i < ss[k].len() && rule_pos_rel(#[trigger] ss[k][i], q);
        if head_rel(ss[k2], q) {
            let i2 = choose|i2: int|
                0 <= i2 < ss[k2].len() && (#[trigger] ss[k2][i2]).head.rel == q;
            assert(i2 == 0);
            assert(q == REL_TYPE_ERROR);
            if i == 0 {
                assert(rule_pos_rel(s0[0], q) ==> q == REL_LET);
            } else if i == 1 {
                assert(rule_pos_rel(s0[1], q) ==> q == REL_I32);
            } else if i == 2 {
                assert(rule_pos_rel(s0[2], q) ==> q == REL_U32);
            } else if i == 3 {
                assert(rule_pos_rel(s0[3], q) ==> q == REL_LET || q == REL_TYPE_OF);
            } else if i == 4 {
                assert(rule_pos_rel(s0[4], q) ==> q == REL_VAR || q == REL_BIND || q
                    == REL_TYPE_OF);
            } else if i == 5 {
                assert(rule_pos_rel(s0[5], q) ==> q == REL_ADD || q == REL_TYPE_OF);
            } else if i == 6 {
                assert(rule_pos_rel(s0[6], q) ==> q == REL_EQU || q == REL_TYPE_OF);
            } else {
                assert(i == 7);
                assert(rule_pos_rel(s0[7], q) ==> q == REL_TYPE_OF);
            }
        }
    }
}

/// Builds the typing rule set.
pub fn ty_ruleset() -> (rs: RuleSet)
    ensures
        rs.strata_seq() == ty_strata(),
        strata_wf(rs.strata_seq()),
{
    let stratum0: Vec<Rule> = vec![
        Rule {
            head: Atom {
                rel: REL_BIND,
                t0: Term::Var(1),
                t1: Term::Var(2),
                t2: Term::Const(0),
                t3: Term::Const(0),
            },
            b0: Some(
                Atom {
                    rel: REL_LET,
                    t0: Term::Var(0),
                    t1: Term::Var(1),
                    t2: Term::Var(2),
                    t3: Term::Var(3),
                },
            ),
            b1: None,
            b2: None,
            b3: None,
            neg: None,
            diff: None,
        },
        Rule {
            head: Atom {
                rel: REL_TYPE_OF,
                t0: Term::Var(0),
                t1: Term::Const(TY_I32),
                t2: Term::Const(0),
                t3: Term::Const(0),
            },
            b0: Some(
                Atom {
                    rel: REL_I32,
                    t0: Term::Var(0),
                    t1: Term::Const(0),
                    t2: Term::Const(0),
                    t3: Term::Const(0),
                },
            ),
            b1: None,
            b2: None,
            b3: None,
            neg: None,
            diff: None,
        },
        Rule {
            head: Atom {
                rel: REL_TYPE_OF,
                t0: Term::Var(0),
                t1: Term::Const(TY_U32),
                t2: Term::Const(0),
                t3: Term::Const(0),
            },
            b0: Some(
                Atom {
                    rel: REL_U32,
                    t0: Term::Var(0),
                    t1: Term::Const(0),
                    t2: Term::Const(0),
                    t3: Term::Const(0),
                },
            ),
            b1: None,
            b2: None,
            b3: None,
            neg: None,
            diff: None,
        },
        Rule {
            head: Atom {
                rel: REL_TYPE_OF,
                t0: Term::Var(0),
                t1: Term::Var(4),
                t2: Term::Const(0),
                t3: Term::Const(0),
            },
            b0: Some(
                Atom {
                    rel: REL_LET,
                    t0: Term::Var(0),
                    t1: Term::Var(1),
                    t2: Term::Var(2),
                    t3: Term::Var(3),
                },
            ),
            b1: Some(
                Atom {
                    rel: REL_TYPE_OF,
                    t0: Term::Var(3),
                    t1: Term::Var(4),
                    t2: Term::Const(0),
                    t3: Term::Const(0),
                },
            ),
            b2: None,
            b3: None,
            neg: None,
            diff: None,
        },
        Rule {
            head: Atom {
                rel: REL_TYPE_OF,
                t0: Term::Var(0),
                t1: Term::Var(3),
                t2: Term::Const(0),
                t3: Term::Const(0),
            },
            b0: Some(
                Atom {
                    rel: REL_VAR,
                    t0: Term::Var(0),
                    t1: Term::Var(1),
                    t2: Term::Const(0),
                    t3: Term::Const(0),
                },
            ),
            b1: Some(
                Atom {
                    rel: REL_BIND,
                    t0: Term::Var(1),
                    t1: Term::Var(2),
                    t2: Term::Const(0),
                    t3: Term::Const(0),
                },
            ),
            b2: Some(
                Atom {
                    rel: REL_TYPE_OF,
                    t0: Term::Var(2),
                    t1: Term::Var(3),
                    t2: Term::Const(0),
                    t3: Term::Const(0),
                },
            ),
            b3: None,
            neg: None,
            diff: None,
        },
        Rule {
            head: Atom {
                rel: REL_TYPE_OF,
                t0: Term::Var(0),
                t1: Term::Var(3),
                t2: Term::Const(0),
                t3: Term::Const(0),
            },
            b0: Some(
                Atom {
                    rel: REL_ADD,
                    t0: Term::Var(0),
                    t1: Term::Var(1),
                    t2: Term::Var(2),
                    t3: Term::Const(0),
                },
            ),
            b1: Some(
                Atom {
                    rel: REL_TYPE_OF,
                    t0: Term::Var(1),
                    t1: Term::Var(3),
                    t2: Term::Const(0),
                    t3: Term::Const(0),
                },
            ),
            b2: Some(
                Atom {
                    rel: REL_TYPE_OF,
                    t0: Term::Var(2),
                    t1: Term::Var(3),
                    t2: Term::Const(0),
                    t3: Term::Const(0),
                },
            ),
            b3: None,
            neg: None,
            diff: None,
        },
        Rule {
            head: Atom {
                rel: REL_TYPE_OF,
                t0: Term::Var(0),
                t1: Term::Const(TY_BOOL),
                t2: Term::Const(0),
                t3: Term::Const(0),
            },
            b0: Some(
                Atom {
                    rel: REL_EQU,
                    t0: Term::Var(0),
                    t1: Term::Var(1),
                    t2: Term::Var(2),
                    t3: Term::Const(0),
                },
            ),
            b1: Some(
                Atom {
                    rel: REL_TYPE_OF,
                    t0: Term::Var(1),
                    t1: Term::Var(3),
                    t2: Term::Const(0),
                    t3: Term::Const(0),
                },
            ),
            b2: Some(
                Atom {
                    rel: REL_TYPE_OF,
                    t0: Term::Var(2),
                    t1: Term::Var(3),
                    t2: Term::Const(0),
                    t3: Term::Const(0),
                },
            ),
            b3: None,
            neg: None,
            diff: None,
        },
        Rule {
            head: Atom {
                rel: REL_HAS_TYPE,
                t0: Term::Var(0),
                t1: Term::Const(0),
                t2: Term::Const(0),
                t3: Term::Const(0),
            },
            b0: Some(
                Atom {
                    rel: REL_TYPE_OF,
                    t0: Term::Var(0),
                    t1: Term::Var(1),
                    t2: Term::Const(0),
                    t3: Term::Const(0),
                },
            ),
            b1: None,
            b2: None,
            b3: None,
            neg: None,
            diff: None,
        },
    ];
    let stratum1: Vec<Rule> = vec![
        Rule {
            head: Atom {
                rel: REL_TYPE_ERROR,
                t0: Term::Var(0),
                t1: Term::Const(0),
                t2: Term::Const(0),
                t3: Term::Const(0),
            },
            b0: Some(
                Atom {
                    rel: REL_EXPR,
                    t0: Term::Var(0),
                    t1: Term::Const(0),
                    t2: Term::Const(0),
                    t3: Term::Const(0),
                },
            ),
            b1: None,
            b2: None,
            b3: None,
            neg: Some(
                Atom {
                    rel: REL_HAS_TYPE,
                    t0: Term::Var(0),
                    t1: Term::Const(0),
                    t2: Term::Const(0),
                    t3: Term::Const(0),
                },
            ),
            diff: None,
        },
    ];
    let strata: Vec<Vec<Rule>> = vec![stratum0, stratum1];
    let rs = RuleSet { strata };
    proof {
        assert(rs.strata_seq().len() == 2);
        assert(rs.strata_seq()[0] =~= ty_strata()[0]);
        assert(rs.strata_seq()[1] =~= ty_strata()[1]);
        assert(rs.strata_seq() =~= ty_strata());
        lemma_ty_strata_wf();
    }
    rs
}


// ---------------------------------------------------------------------
// Encoding the inputs as facts.
// ---------------------------------------------------------------------

/// `Root(x, p)` as a fact.
pub open spec fn root_fact(t: (PathId, NameId)) -> Fact {
    Fact { rel: REL_ROOT, a0: t.1.0 as u64, a1: t.0.0 as u64, a2: 0, a3: 0 }
}

/// `Parent(p, q)` as a fact.
pub open spec fn parent_fact(t: (PathId, PathId)) -> Fact {
    Fact { rel: REL_PARENT, a0: t.0.0 as u64, a1: t.1.0 as u64, a2: 0, a3: 0 }
}

/// `Used(p, e)` as a fact.
pub open spec fn use_fact(t: (PathId, ExprId)) -> Fact {
    Fact { rel: REL_USED, a0: t.0.0 as u64, a1: t.1.0 as u64, a2: 0, a3: 0 }
}

/// The base facts a path interner holds, as the evaluator reads them.
pub open spec fn path_fact_set(p: PathInterner) -> Set<Fact> {
    Set::new(
        |f: Fact|
            {
                ||| (exists|k: int|
                    0 <= k < p.roots@.len() && f == root_fact(#[trigger] p.roots@[k]))
                ||| (exists|k: int|
                    0 <= k < p.parents@.len() && f == parent_fact(#[trigger] p.parents@[k]))
                ||| (exists|k: int| 0 <= k < p.uses@.len() && f == use_fact(#[trigger] p.uses@[k]))
            },
    )
}

/// Encodes the base facts of a path interner.
pub fn path_facts(p: &PathInterner) -> (out: Vec<Fact>)
    ensures
        fset(out@) == path_fact_set(*p),
{
    let mut out: Vec<Fact> = Vec::new();
    let nr = p.roots.len();
    let mut i: usize = 0;
    while i < nr
        invariant
            nr == p.roots@.len(),
            i <= nr,
            out@.len() == i,
            forall|j: int| 0 <= j < i ==> out@[j] == root_fact(p.roots@[j]),
        decreases nr - i,
    {
        let t = p.roots[i];
        out.push(Fact { rel: REL_ROOT, a0: t.1.0 as u64, a1: t.0.0 as u64, a2: 0, a3: 0 });
        i = i + 1;
    }
    let np = p.parents.len();
    let mut i: usize = 0;
    while i < np
        invariant
            nr == p.roots@.len(),
            np == p.parents@.len(),
            i <= np,
            out@.len() == nr + i,
            forall|j: int| 0 <= j < nr ==> out@[j] == root_fact(p.roots@[j]),
            forall|j: int| 0 <= j < i ==> out@[nr + j] == parent_fact(p.parents@[j]),
        decreases np - i,
    {
        let t = p.parents[i];
        out.push(Fact { rel: REL_PARENT, a0: t.0.0 as u64, a1: t.1.0 as u64, a2: 0, a3: 0 });
        i = i + 1;
    }
    let nu = p.uses.len();
    let mut i: usize = 0;
    while i < nu
        invariant
            nr == p.roots@.len(),
            np == p.parents@.len(),
            nu == p.uses@.len(),
            i <= nu,
            out@.len() == nr + np + i,
            forall|j: int| 0 <= j < nr ==> out@[j] == root_fact(p.roots@[j]),
            forall|j: int| 0 <= j < np ==> out@[nr + j] == parent_fact(p.parents@[j]),
            forall|j: int| 0 <= j < i ==> out@[nr + np + j] == use_fact(p.uses@[j]),
        decreases nu - i,
    {
        let t = p.uses[i];
        out.push(Fact { rel: REL_USED, a0: t.0.0 as u64, a1: t.1.0 as u64, a2: 0, a3: 0 });
        i = i + 1;
    }
    proof {
        assert(fset(out@) =~= path_fact_set(*p)) by {
            assert forall|f: Fact| fset(out@).contains(f) implies path_fact_set(*p).contains(
                f,
            ) by {
                let j = choose|j: int| 0 <= j < out@.len() && out@[j] == f;
                if j < nr {
                    assert(f == root_fact(p.roots@[j]));
                } else if j < nr + np {
                    assert(f == parent_fact(p.parents@[j - nr]));
                } else {
                    assert(f == use_fact(p.uses@[j - nr - np]));
                }
            }
            assert forall|f: Fact| path_fact_set(*p).contains(f) implies fset(out@).contains(
                f,
            ) by {
                if exists|k: int| 0 <= k < p.roots@.len() && f == root_fact(#[trigger] p.roots@[k]) {
                    let k = choose|k: int| 0 <= k < p.roots@.len() && f == root_fact(p.roots@[k]);
                    assert(out@[k] == f);
                } else if exists|k: int|
                    0 <= k < p.parents@.len() && f == parent_fact(#[trigger] p.parents@[k]) {
                    let k = choose|k: int|
                        0 <= k < p.parents@.len() && f == parent_fact(p.parents@[k]);
                    assert(out@[nr + k] == f);
                } else {
                    let k = choose|k: int| 0 <= k < p.uses@.len() && f == use_fact(p.uses@[k]);
                    assert(out@[nr + np + k] == f);
                }
            }
        }
    }
    out
}

/// `Expr(e)` as a fact: the node exists.
pub open spec fn expr_fact(i: int) -> Fact {
    Fact { rel: REL_EXPR, a0: i as u64, a1: 0, a2: 0, a3: 0 }
}

/// The variant-specific fact of one typed node.
pub open spec fn kind_fact(i: int, k: ExprKind) -> Fact {
    match k {
        ExprKind::Let(x, e0, e1) => Fact {
            rel: REL_LET,
            a0: i as u64,
            a1: x.0 as u64,
            a2: e0.0 as u64,
            a3: e1.0 as u64,
        },
        ExprKind::Var(x) => Fact { rel: REL_VAR, a0: i as u64, a1: x.0 as u64, a2: 0, a3: 0 },
        ExprKind::Add(e0, e1) => Fact {
            rel: REL_ADD,
            a0: i as u64,
            a1: e0.0 as u64,
            a2: e1.0 as u64,
            a3: 0,
        },
        ExprKind::Equ(e0, e1) => Fact {
            rel: REL_EQU,
            a0: i as u64,
            a1: e0.0 as u64,
            a2: e1.0 as u64,
            a3: 0,
        },
        ExprKind::I32(_) => Fact { rel: REL_I32, a0: i as u64, a1: 0, a2: 0, a3: 0 },
        ExprKind::U32(_) => Fact { rel: REL_U32, a0: i as u64, a1: 0, a2: 0, a3: 0 },
    }
}

/// `f` is one of the two facts node `i` contributes.
pub open spec fn node_has_fact(es: Seq<ExprKind>, i: int, f: Fact) -> bool {
    f == expr_fact(i) || f == kind_fact(i, es[i])
}

/// The relational image of a typed expression table.
pub open spec fn typed_fact_set(es: Seq<ExprKind>) -> Set<Fact> {
    Set::new(|f: Fact| exists|i: int| 0 <= i < es.len() && #[trigger] node_has_fact(es, i, f))
}

/// Encodes a typed expression table as facts.
pub fn typed_facts(m: &ExprMap) -> (out: Vec<Fact>)
    ensures
        fset(out@) == typed_fact_set(m.exprs()),
{
    let mut out: Vec<Fact> = Vec::new();
    let n = m.len();
    let mut i: usize = 0;
    while i < n
        invariant
            n == m.exprs().len(),
            i <= n,
            out@.len() == 2 * i,
            forall|j: int| 0 <= j < i ==> out@[2 * j] == #[trigger] expr_fact(j),
            forall|j: int| 0 <= j < i ==> out@[2 * j + 1] == kind_fact(j, #[trigger] m.exprs()[j]),
        decreases n - i,
    {
        out.push(Fact { rel: REL_EXPR, a0: i as u64, a1: 0, a2: 0, a3: 0 });
        let kf = match m.get(Expr(i)) {
            ExprKind::Let(x, e0, e1) => Fact {
                rel: REL_LET,
                a0: i as u64,
                a1: x.0 as u64,
                a2: e0.0 as u64,
                a3: e1.0 as u64,
            },
            ExprKind::Var(x) => Fact { rel: REL_VAR, a0: i as u64, a1: x.0 as u64, a2: 0, a3: 0 },
            ExprKind::Add(e0, e1) => Fact {
                rel: REL_ADD,
                a0: i as u64,
                a1: e0.0 as u64,
                a2: e1.0 as u64,
                a3: 0,
            },
            ExprKind::Equ(e0, e1) => Fact {
                rel: REL_EQU,
                a0: i as u64,
                a1: e0.0 as u64,
                a2: e1.0 as u64,
                a3: 0,
            },
            ExprKind::I32(_) => Fact { rel: REL_I32, a0: i as u64, a1: 0, a2: 0, a3: 0 },
            ExprKind::U32(_) => Fact { rel: REL_U32, a0: i as u64, a1: 0, a2: 0, a3: 0 },
        };
        out.push(kf);
        proof {
            assert(out@[2 * (i as int)] == expr_fact(i as int));
            assert(kf == kind_fact(i as int, m.exprs()[i as int]));
            assert(out@[2 * (i as int) + 1] == kf);
        }
        i = i + 1;
    }
    proof {
        assert(fset(out@) =~= typed_fact_set(m.exprs())) by {
            assert forall|f: Fact| fset(out@).contains(f) implies typed_fact_set(
                m.exprs(),
            ).contains(f) by {
                let j = choose|j: int| 0 <= j < out@.len() && out@[j] == f;
                let i2 = j / 2;
                assert(0 <= i2 < m.exprs().len());
                if j % 2 == 0 {
                    assert(j == 2 * i2);
                    assert(out@[2 * i2] == expr_fact(i2));
                    assert(node_has_fact(m.exprs(), i2, f));
                } else {
                    assert(j == 2 * i2 + 1);
                    assert(out@[2 * i2 + 1] == kind_fact(i2, m.exprs()[i2]));
                    assert(node_has_fact(m.exprs(), i2, f));
                }
            }
            assert forall|f: Fact| typed_fact_set(m.exprs()).contains(f) implies fset(
                out@,
            ).contains(f) by {
                let i2 = choose|i2: int|
                    0 <= i2 < m.exprs().len() && #[trigger] node_has_fact(m.exprs(), i2, f);
                if f == expr_fact(i2) {
                    assert(out@[2 * i2] == f);
                } else {
                    assert(f == kind_fact(i2, m.exprs()[i2]));
                    assert(out@[2 * i2 + 1] == f);
                }
            }
        }
    }
    out
}


// ---------------------------------------------------------------------
// Running the analyses and decoding their relations.
// ---------------------------------------------------------------------

/// The least model of the linearity rules over an interner's base facts.
pub open spec fn lin_model(p: PathInterner) -> Set<Fact> {
    strata_lfp(lin_strata(), path_fact_set(p))
}

/// The least model of the typing rules over a table's relational image.
pub open spec fn ty_model(es: Seq<ExprKind>) -> Set<Fact> {
    strata_lfp(ty_strata(), typed_fact_set(es))
}

/// `Origin(x, p)` as a fact.
pub open spec fn origin_fact(x: NameId, p: PathId) -> Fact {
    Fact { rel: REL_ORIGIN, a0: x.0 as u64, a1: p.0 as u64, a2: 0, a3: 0 }
}

/// `Ancestor(p, q)` as a fact.
pub open spec fn ancestor_fact(p: PathId, q: PathId) -> Fact {
    Fact { rel: REL_ANCESTOR, a0: p.0 as u64, a1: q.0 as u64, a2: 0, a3: 0 }
}

/// `AncestorUsed(p, q, e)` as a fact.
pub open spec fn ancestor_used_fact(p: PathId, q: PathId, e: ExprId) -> Fact {
    Fact { rel: REL_ANCESTOR_USED, a0: p.0 as u64, a1: q.0 as u64, a2: e.0 as u64, a3: 0 }
}

/// `DoubleUse(p, e, e2)` as a fact.
pub open spec fn double_use_fact(p: PathId, e: ExprId, e2: ExprId) -> Fact {
    Fact { rel: REL_DOUBLE_USE, a0: p.0 as u64, a1: e.0 as u64, a2: e2.0 as u64, a3: 0 }
}

/// The numeric code of a type.
pub open spec fn ty_code(t: TypeKind) -> u64 {
    match t {
        TypeKind::I32 => TY_I32,
        TypeKind::U32 => TY_U32,
        TypeKind::Bool => TY_BOOL,
    }
}

/// `TypeOf(e, t)` as a fact.
pub open spec fn type_of_fact(e: Expr, t: TypeKind) -> Fact {
    Fact { rel: REL_TYPE_OF, a0: e.0 as u64, a1: ty_code(t), a2: 0, a3: 0 }
}

/// `TypeError(e)` as a fact.
pub open spec fn type_error_fact(e: Expr) -> Fact {
    Fact { rel: REL_TYPE_ERROR, a0: e.0 as u64, a1: 0, a2: 0, a3: 0 }
}

/// The derived relations of the linearity checker.
pub struct LinReport {
    pub origins: Vec<(NameId, PathId)>,
    pub ancestors: Vec<(PathId, PathId)>,
    pub ancestor_used: Vec<(PathId, PathId, ExprId)>,
    pub double_use: Vec<(PathId, ExprId, ExprId)>,
}

/// Each report row stands for exactly one fact of the model, in both
/// directions.
pub open spec fn lin_report_matches(model: Set<Fact>, rep: LinReport) -> bool {
    &&& forall|x: NameId, q: PathId|
        rep.origins@.contains((x, q)) <==> model.contains(#[trigger] origin_fact(x, q))
    &&& forall|a: PathId, b: PathId|
        rep.ancestors@.contains((a, b)) <==> model.contains(#[trigger] ancestor_fact(a, b))
    &&& forall|a: PathId, b: PathId, e: ExprId|
        rep.ancestor_used@.contains((a, b, e)) <==> model.contains(
            #[trigger] ancestor_used_fact(a, b, e),
        )
    &&& forall|a: PathId, e: ExprId, e2: ExprId|
        rep.double_use@.contains((a, e, e2)) <==> model.contains(
            #[trigger] double_use_fact(a, e, e2),
        )
}

/// The derived relations of the type checker.
pub struct TypeReport {
    pub typings: Vec<(Expr, TypeKind)>,
    pub errors: Vec<Expr>,
}

/// Each report row stands for exactly one fact of the model, in both
/// directions.
pub open spec fn ty_report_matches(model: Set<Fact>, rep: TypeReport) -> bool {
    &&& forall|e: Expr, t: TypeKind|
        rep.typings@.contains((e, t)) <==> model.contains(#[trigger] type_of_fact(e, t))
    &&& forall|e: Expr| rep.errors@.contains(e) <==> model.contains(#[trigger] type_error_fact(e))
}

fn fits(x: u64) -> (b: bool)
    ensures
        b == (x <= usize::MAX as u64),
{
    x <= (usize::MAX as u64)
}

/// Runs the linearity rules over an interner's base facts and reports
/// the derived `Origin`, `Ancestor`, `AncestorUsed` and `DoubleUse`
/// relations.
pub fn lincheck(p: &PathInterner) -> (rep: LinReport)
    ensures
        lin_report_matches(lin_model(*p), rep),
{
    let rs = lin_ruleset();
    let input = path_facts(p);
    let out = crate::engine::run(&rs, &input);
    proof {
        assert(fset(out@) == lin_model(*p));
    }
    let n = out.len();

    let mut origins: Vec<(NameId, PathId)> = Vec::new();
    let mut i: usize = 0;
    while i < n
        invariant
            n == out@.len(),
            i <= n,
            forall|x: NameId, q: PathId|
                origins@.contains((x, q)) <==> (exists|j: int|
                    0 <= j < i && out@[j] == #[trigger] origin_fact(x, q)),
        decreases n - i,
    {
        let f = out[i];
        let ghost pre = origins@;
        if f.rel == REL_ORIGIN && fits(f.a0) && fits(f.a1) && f.a2 == 0 && f.a3 == 0 {
            origins.push((NameId(f.a0 as usize), PathId(f.a1 as usize)));
        }
        proof {
            assert forall|x: NameId, q: PathId|
                origins@.contains((x, q)) <==> (exists|j: int|
                    0 <= j < i + 1 && out@[j] == #[trigger] origin_fact(x, q)) by {
                if origins@.contains((x, q)) {
                    let k = choose|k: int| 0 <= k < origins@.len() && origins@[k] == (x, q);
                    if k < pre.len() {
                        assert(pre[k] == (x, q));
                        assert(pre.contains((x, q)));
                    } else {
                        assert(origin_fact(x, q) == f);
                        assert(out@[i as int] == origin_fact(x, q));
                    }
                }
                if exists|j: int| 0 <= j < i + 1 && out@[j] == origin_fact(x, q) {
                    let j = choose|j: int| 0 <= j < i + 1 && out@[j] == origin_fact(x, q);
                    if j < i {
                        assert(pre.contains((x, q)));
                        let k = choose|k: int| 0 <= k < pre.len() && pre[k] == (x, q);
                        assert(origins@[k] == (x, q));
                    } else {
                        assert(f == origin_fact(x, q));
                        assert(f.a0 == x.0 as u64 && f.a1 == q.0 as u64);
                        assert(origins@[origins@.len() - 1] == (x, q));
                    }
                }
            }
        }
        i = i + 1;
    }

    let mut ancestors: Vec<(PathId, PathId)> = Vec::new();
    let mut i: usize = 0;
    while i < n
        invariant
            n == out@.len(),
            i <= n,
            forall|a: PathId, b: PathId|
                ancestors@.contains((a, b)) <==> (exists|j: int|
                    0 <= j < i && out@[j] == #[trigger] ancestor_fact(a, b)),
        decreases n - i,
    {
        let f = out[i];
        let ghost pre = ancestors@;
        if f.rel == REL_ANCESTOR && fits(f.a0) && fits(f.a1) && f.a2 == 0 && f.a3 == 0 {
            ancestors.push((PathId(f.a0 as usize), PathId(f.a1 as usize)));
        }
        proof {
            assert forall|a: PathId, b: PathId|
                ancestors@.contains((a, b)) <==> (exists|j: int|
                    0 <= j < i + 1 && out@[j] == #[trigger] ancestor_fact(a, b)) by {
                if ancestors@.contains((a, b)) {
                    let k = choose|k: int| 0 <= k < ancestors@.len() && ancestors@[k] == (a, b);
                    if k < pre.len() {
                        assert(pre[k] == (a, b));
                        assert(pre.contains((a, b)));
                    } else {
                        assert(ancestor_fact(a, b) == f);
                        assert(out@[i as int] == ancestor_fact(a, b));
                    }
                }
                if exists|j: int| 0 <= j < i + 1 && out@[j] == ancestor_fact(a, b) {
                    let j = choose|j: int| 0 <= j < i + 1 && out@[j] == ancestor_fact(a, b);
                    if j < i {
                        assert(pre.contains((a, b)));
                        let k = choose|k: int| 0 <= k < pre.len() && pre[k] == (a, b);
                        assert(ancestors@[k] == (a, b));
                    } else {
                        assert(f == ancestor_fact(a, b));
                        assert(ancestors@[ancestors@.len() - 1] == (a, b));
                    }
                }
            }
        }
        i = i + 1;
    }

    let mut ancestor_used: Vec<(PathId, PathId, ExprId)> = Vec::new();
    let mut i: usize = 0;
    while i < n
        invariant
            n == out@.len(),
            i <= n,
            forall|a: PathId, b: PathId, e: ExprId|
                ancestor_used@.contains((a, b, e)) <==> (exists|j: int|
                    0 <= j < i && out@[j] == #[trigger] ancestor_used_fact(a, b, e)),
        decreases n - i,
    {
        let f = out[i];
        let ghost pre = ancestor_used@;
        if f.rel == REL_ANCESTOR_USED && fits(f.a0) && fits(f.a1) && fits(f.a2) && f.a3 == 0 {
            ancestor_used.push(
                (PathId(f.a0 as usize), PathId(f.a1 as usize), ExprId(f.a2 as usize)),
            );
        }
        proof {
            assert forall|a: PathId, b: PathId, e: ExprId|
                ancestor_used@.contains((a, b, e)) <==> (exists|j: int|
                    0 <= j < i + 1 && out@[j] == #[trigger] ancestor_used_fact(a, b, e)) by {
                if ancestor_used@.contains((a, b, e)) {
                    let k = choose|k: int|
                        0 <= k < ancestor_used@.len() && ancestor_used@[k] == (a, b, e);
                    if k < pre.len() {
                        assert(pre[k] == (a, b, e));
                        assert(pre.contains((a, b, e)));
                    } else {
                        assert(ancestor_used_fact(a, b, e) == f);
                        assert(out@[i as int] == ancestor_used_fact(a, b, e));
                    }
                }
                if exists|j: int| 0 <= j < i + 1 && out@[j] == ancestor_used_fact(a, b, e) {
                    let j = choose|j: int|
                        0 <= j < i + 1 && out@[j] == ancestor_used_fact(a, b, e);
                    if j < i {
                        assert(pre.contains((a, b, e)));
                        let k = choose|k: int| 0 <= k < pre.len() && pre[k] == (a, b, e);
                        assert(ancestor_used@[k] == (a, b, e));
                    } else {
                        assert(f == ancestor_used_fact(a, b, e));
                        assert(ancestor_used@[ancestor_used@.len() - 1] == (a, b, e));
                    }
                }
            }
        }
        i = i + 1;
    }

    let mut double_use: Vec<(PathId, ExprId, ExprId)> = Vec::new();
    let mut i: usize = 0;
    while i < n
        invariant
            n == out@.len(),
            i <= n,
            forall|a: PathId, e: ExprId, e2: ExprId|
                double_use@.contains((a, e, e2)) <==> (exists|j: int|
                    0 <= j < i && out@[j] == #[trigger] double_use_fact(a, e, e2)),
        decreases n - i,
    {
        let f = out[i];
        let ghost pre = double_use@;
        if f.rel == REL_DOUBLE_USE && fits(f.a0) && fits(f.a1) && fits(f.a2) && f.a3 == 0 {
            double_use.push((PathId(f.a0 as usize), ExprId(f.a1 as usize), ExprId(f.a2 as usize)));
        }
        proof {
            assert forall|a: PathId, e: ExprId, e2: ExprId|
                double_use@.contains((a, e, e2)) <==> (exists|j: int|
                    0 <= j < i + 1 && out@[j] == #[trigger] double_use_fact(a, e, e2)) by {
                if double_use@.contains((a, e, e2)) {
                    let k = choose|k: int|
                        0 <= k < double_use@.len() && double_use@[k] == (a, e, e2);
                    if k < pre.len() {
                        assert(pre[k] == (a, e, e2));
                        assert(pre.contains((a, e, e2)));
                    } else {
                        assert(double_use_fact(a, e, e2) == f);
                        assert(out@[i as int] == double_use_fact(a, e, e2));
                    }
                }
                if exists|j: int| 0 <= j < i + 1 && out@[j] == double_use_fact(a, e, e2) {
                    let j = choose|j: int| 0 <= j < i + 1 && out@[j] == double_use_fact(a, e, e2);
                    if j < i {
                        assert(pre.contains((a, e, e2)));
                        let k = choose|k: int| 0 <= k < pre.len() && pre[k] == (a, e, e2);
                        assert(double_use@[k] == (a, e, e2));
                    } else {
                        assert(f == double_use_fact(a, e, e2));
                        assert(double_use@[double_use@.len() - 1] == (a, e, e2));
                    }
                }
            }
        }
        i = i + 1;
    }

    let rep = LinReport { origins, ancestors, ancestor_used, double_use };
    proof {
        assert forall|x: NameId, q: PathId|
            rep.origins@.contains((x, q)) <==> lin_model(*p).contains(
            #[trigger] origin_fact(x, q),
        ) by {
            if lin_model(*p).contains(origin_fact(x, q)) {
                assert(out@.contains(origin_fact(x, q)));
            }
            if rep.origins@.contains((x, q)) {
                assert(out@.contains(origin_fact(x, q)));
                assert(fset(out@).contains(origin_fact(x, q)));
            }
        }
        assert forall|a: PathId, b: PathId|
            rep.ancestors@.contains((a, b)) <==> lin_model(*p).contains(
            #[trigger] ancestor_fact(a, b),
        ) by {
            if lin_model(*p).contains(ancestor_fact(a, b)) {
                assert(out@.contains(ancestor_fact(a, b)));
            }
            if rep.ancestors@.contains((a, b)) {
                assert(out@.contains(ancestor_fact(a, b)));
                assert(fset(out@).contains(ancestor_fact(a, b)));
            }
        }
        assert forall|a: PathId, b: PathId, e: ExprId|
            rep.ancestor_used@.contains((a, b, e)) <==> lin_model(*p).contains(
            #[trigger] ancestor_used_fact(a, b, e),
        ) by {
            if lin_model(*p).contains(ancestor_used_fact(a, b, e)) {
                assert(out@.contains(ancestor_used_fact(a, b, e)));
            }
            if rep.ancestor_used@.contains((a, b, e)) {
                assert(out@.contains(ancestor_used_fact(a, b, e)));
                assert(fset(out@).contains(ancestor_used_fact(a, b, e)));
            }
        }
        assert forall|a: PathId, e: ExprId, e2: ExprId|
            rep.double_use@.contains((a, e, e2)) <==> lin_model(*p).contains(
            #[trigger] double_use_fact(a, e, e2),
        ) by {
            if lin_model(*p).contains(double_use_fact(a, e, e2)) {
                assert(out@.contains(double_use_fact(a, e, e2)));
            }
            if rep.double_use@.contains((a, e, e2)) {
                assert(out@.contains(double_use_fact(a, e, e2)));
                assert(fset(out@).contains(double_use_fact(a, e, e2)));
            }
        }
    }
    rep
}


fn decode_ty(x: u64) -> (t: Option<TypeKind>)
    ensures
        match t {
            Some(k) => ty_code(k) == x,
            None => forall|k: TypeKind| ty_code(k) != x,
        },
{
    if x == TY_I32 {
        Some(TypeKind::I32)
    } else if x == TY_U32 {
        Some(TypeKind::U32)
    } else if x == TY_BOOL {
        Some(TypeKind::Bool)
    } else {
        proof {
            assert forall|k: TypeKind| ty_code(k) != x by {
                match k {
                    TypeKind::I32 => {},
                    TypeKind::U32 => {},
                    TypeKind::Bool => {},
                }
            }
        }
        None
    }
}

/// Runs the typing rules over the relational image of a typed table and
/// reports the derived `TypeOf` and `TypeError` relations.
pub fn typecheck(m: &ExprMap) -> (rep: TypeReport)
    ensures
        ty_report_matches(ty_model(m.exprs()), rep),
{
    let rs = ty_ruleset();
    let input = typed_facts(m);
    let out = crate::engine::run(&rs, &input);
    proof {
        assert(fset(out@) == ty_model(m.exprs()));
    }
    let n = out.len();

    let mut typings: Vec<(Expr, TypeKind)> = Vec::new();
    let mut i: usize = 0;
    while i < n
        invariant
            n == out@.len(),
            i <= n,
            forall|e: Expr, t: TypeKind|
                typings@.contains((e, t)) <==> (exists|j: int|
                    0 <= j < i && out@[j] == #[trigger] type_of_fact(e, t)),
        decreases n - i,
    {
        let f = out[i];
        let ghost pre = typings@;
        if f.rel == REL_TYPE_OF && fits(f.a0) && f.a2 == 0 && f.a3 == 0 {
            match decode_ty(f.a1) {
                Some(k) => {
                    typings.push((Expr(f.a0 as usize), k));
                },
                None => {},
            }
        }
        proof {
            assert forall|e: Expr, t: TypeKind|
                typings@.contains((e, t)) <==> (exists|j: int|
                    0 <= j < i + 1 && out@[j] == #[trigger] type_of_fact(e, t)) by {
                if typings@.contains((e, t)) {
                    let k = choose|k: int| 0 <= k < typings@.len() && typings@[k] == (e, t);
                    if k < pre.len() {
                        assert(pre[k] == (e, t));
                        assert(pre.contains((e, t)));
                    } else {
                        assert(type_of_fact(e, t) == f);
                        assert(out@[i as int] == type_of_fact(e, t));
                    }
                }
                if exists|j: int| 0 <= j < i + 1 && out@[j] == type_of_fact(e, t) {
                    let j = choose|j: int| 0 <= j < i + 1 && out@[j] == type_of_fact(e, t);
                    if j < i {
                        assert(pre.contains((e, t)));
                        let k = choose|k: int| 0 <= k < pre.len() && pre[k] == (e, t);
                        assert(typings@[k] == (e, t));
                    } else {
                        assert(f == type_of_fact(e, t));
                        assert(f.a1 == ty_code(t));
                        assert(typings@[typings@.len() - 1] == (e, t));
                    }
                }
            }
        }
        i = i + 1;
    }

    let mut errors: Vec<Expr> = Vec::new();
    let mut i: usize = 0;
    while i < n
        invariant
            n == out@.len(),
            i <= n,
            forall|e: Expr|
                errors@.contains(e) <==> (exists|j: int|
                    0 <= j < i && out@[j] == #[trigger] type_error_fact(e)),
        decreases n - i,
    {
        let f = out[i];
        let ghost pre = errors@;
        if f.rel == REL_TYPE_ERROR && fits(f.a0) && f.a1 == 0 && f.a2 == 0 && f.a3 == 0 {
            errors.push(Expr(f.a0 as usize));
        }
        proof {
            assert forall|e: Expr|
                errors@.contains(e) <==> (exists|j: int|
                    0 <= j < i + 1 && out@[j] == #[trigger] type_error_fact(e)) by {
                if errors@.contains(e) {
                    let k = choose|k: int| 0 <= k < errors@.len() && errors@[k] == e;
                    if k < pre.len() {
                        assert(pre[k] == e);
                        assert(pre.contains(e));
                    } else {
                        assert(type_error_fact(e) == f);
                        assert(out@[i as int] == type_error_fact(e));
                    }
                }
                if exists|j: int| 0 <= j < i + 1 && out@[j] == type_error_fact(e) {
                    let j = choose|j: int| 0 <= j < i + 1 && out@[j] == type_error_fact(e);
                    if j < i {
                        assert(pre.contains(e));
                        let k = choose|k: int| 0 <= k < pre.len() && pre[k] == e;
                        assert(errors@[k] == e);
                    } else {
                        assert(f == type_error_fact(e));
                        assert(errors@[errors@.len() - 1] == e);
                    }
                }
            }
        }
        i = i + 1;
    }

    let rep = TypeReport { typings, errors };
    proof {
        assert forall|e: Expr, t: TypeKind|
            rep.typings@.contains((e, t)) <==> ty_model(m.exprs()).contains(
            #[trigger] type_of_fact(e, t),
        ) by {
            if ty_model(m.exprs()).contains(type_of_fact(e, t)) {
                assert(out@.contains(type_of_fact(e, t)));
            }
            if rep.typings@.contains((e, t)) {
                assert(out@.contains(type_of_fact(e, t)));
                assert(fset(out@).contains(type_of_fact(e, t)));
            }
        }
        assert forall|e: Expr|
            rep.errors@.contains(e) <==> ty_model(m.exprs()).contains(
            #[trigger] type_error_fact(e),
        ) by {
            if ty_model(m.exprs()).contains(type_error_fact(e)) {
                assert(out@.contains(type_error_fact(e)));
            }
            if rep.errors@.contains(e) {
                assert(out@.contains(type_error_fact(e)));
                assert(fset(out@).contains(type_error_fact(e)));
            }
        }
    }
    rep
}


// ---------------------------------------------------------------------
// The evaluator's laws, instantiated at the two rule sets.
// ---------------------------------------------------------------------

/// Re-running the linearity analysis on its own fixpoint changes
/// nothing.
pub proof fn lemma_lin_idempotent(base: Set<Fact>)
    ensures
        strata_lfp(lin_strata(), strata_lfp(lin_strata(), base)) == strata_lfp(
            lin_strata(),
            base,
        ),
{
    lemma_lin_strata_wf();
    crate::laws::lemma_eval_idempotent(lin_strata(), base);
}

/// Re-running the type inference on its own fixpoint changes nothing.
pub proof fn lemma_ty_idempotent(base: Set<Fact>)
    ensures
        strata_lfp(ty_strata(), strata_lfp(ty_strata(), base)) == strata_lfp(ty_strata(), base),
{
    lemma_ty_strata_wf();
    crate::laws::lemma_eval_idempotent(ty_strata(), base);
}

/// The linearity rules are purely positive, so adding base facts never
/// removes a derived fact.
pub proof fn lemma_lin_monotone(b1: Set<Fact>, b2: Set<Fact>)
    requires
        b1.subset_of(b2),
    ensures
        strata_lfp(lin_strata(), b1).subset_of(strata_lfp(lin_strata(), b2)),
{
    lemma_lin_strata_wf();
    crate::laws::lemma_eval_monotone(lin_strata(), b1, b2);
}

/// `HasType`, the relation the typing rules negate, is already final
/// when the negation reads it: the later stratum leaves it untouched.
pub proof fn lemma_ty_has_type_stable(base: Set<Fact>, k2: int)
    requires
        1 <= k2 <= ty_strata().len(),
    ensures
        crate::laws::restrict_rel(strata_lfp(ty_strata().take(k2), base), REL_HAS_TYPE)
            == crate::laws::restrict_rel(
            strata_lfp(ty_strata().take(1), base),
            REL_HAS_TYPE,
        ),
{
    lemma_ty_strata_wf();
    assert(rule_neg_rel(ty_strata()[1][0], REL_HAS_TYPE));
    assert(negs_rel(ty_strata()[1], REL_HAS_TYPE));
    crate::laws::lemma_negated_stable(ty_strata(), base, 1, REL_HAS_TYPE, k2);
}

} // verus!

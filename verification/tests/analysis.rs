//! End-to-end tests of the two analyses on the example programs.

use stratalog::data::{Expr, ExprId, ExprInterner, NameId, PathId};
use stratalog::scenarios::{test0, test1};
use stratalog::typed::{ExprKind, ExprMap, NameMap, TypeKind};
use stratalog::rules::{lincheck, typecheck};

#[test]
fn type_inference_ok() {
    // let x = 50 in x : the body occurrence of x types as I32, no error
    let mut exprs = ExprMap::empty();
    let mut names = NameMap::empty();
    let x = names.new();
    let lit = exprs.new(ExprKind::I32(50));
    let xref = exprs.new(ExprKind::Var(x));
    let let_x = exprs.new(ExprKind::Let(x, lit, xref));
    let rep = typecheck(&exprs);
    assert!(rep.typings.contains(&(xref, TypeKind::I32)));
    assert!(rep.typings.contains(&(lit, TypeKind::I32)));
    assert!(rep.typings.contains(&(let_x, TypeKind::I32)));
    assert!(rep.errors.is_empty());
}

#[test]
fn type_inference_unused_binder() {
    // let x = 50 (I32) in 150 (U32): every sub-expression types on its
    // own; the binder's declared type is never forced against its uses,
    // so no error is reported and the Let takes the body's type U32.
    let mut exprs = ExprMap::empty();
    let mut names = NameMap::empty();
    let x = names.new();
    let lit_i = exprs.new(ExprKind::I32(50));
    let lit_u = exprs.new(ExprKind::U32(150));
    let let_x = exprs.new(ExprKind::Let(x, lit_i, lit_u));
    let rep = typecheck(&exprs);
    assert!(rep.typings.contains(&(lit_i, TypeKind::I32)));
    assert!(rep.typings.contains(&(lit_u, TypeKind::U32)));
    assert!(rep.typings.contains(&(let_x, TypeKind::U32)));
    assert!(rep.errors.is_empty());
}

#[test]
fn type_inference_equ_and_add() {
    // (1 + 2) == 3 : Add of two I32 is I32, Equ of two I32 is Bool
    let mut exprs = ExprMap::empty();
    let one = exprs.new(ExprKind::I32(1));
    let two = exprs.new(ExprKind::I32(2));
    let add = exprs.new(ExprKind::Add(one, two));
    let three = exprs.new(ExprKind::I32(3));
    let equ = exprs.new(ExprKind::Equ(add, three));
    let rep = typecheck(&exprs);
    assert!(rep.typings.contains(&(add, TypeKind::I32)));
    assert!(rep.typings.contains(&(equ, TypeKind::Bool)));
    assert!(rep.errors.is_empty());
}

#[test]
fn type_inference_mismatched_add_is_error() {
    // 1i32 + 2u32 : the operands never share a type, so the Add has no
    // TypeOf fact and is reported as a TypeError
    let mut exprs = ExprMap::empty();
    let one = exprs.new(ExprKind::I32(1));
    let two = exprs.new(ExprKind::U32(2));
    let add = exprs.new(ExprKind::Add(one, two));
    let rep = typecheck(&exprs);
    assert!(rep.typings.contains(&(one, TypeKind::I32)));
    assert!(rep.typings.contains(&(two, TypeKind::U32)));
    assert!(!rep.typings.iter().any(|&(e, _)| e == add));
    assert!(rep.errors.contains(&add));
    assert!(!rep.errors.contains(&one));
    assert!(!rep.errors.contains(&two));
}

#[test]
fn type_inference_var_through_binding() {
    // let x = 50 in x + x : the variable takes its binding's type
    let mut exprs = ExprMap::empty();
    let mut names = NameMap::empty();
    let x = names.new();
    let lit = exprs.new(ExprKind::I32(50));
    let xref0 = exprs.new(ExprKind::Var(x));
    let xref1 = exprs.new(ExprKind::Var(x));
    let add = exprs.new(ExprKind::Add(xref0, xref1));
    let let_x = exprs.new(ExprKind::Let(x, lit, add));
    let rep = typecheck(&exprs);
    assert!(rep.typings.contains(&(xref0, TypeKind::I32)));
    assert!(rep.typings.contains(&(xref1, TypeKind::I32)));
    assert!(rep.typings.contains(&(add, TypeKind::I32)));
    assert!(rep.typings.contains(&(let_x, TypeKind::I32)));
    assert!(rep.errors.is_empty());
}

#[test]
fn type_inference_var_mismatch_in_add() {
    // let x = 50u32 in x + 1i32 : the Add never types, the rest does
    let mut exprs = ExprMap::empty();
    let mut names = NameMap::empty();
    let x = names.new();
    let lit_u = exprs.new(ExprKind::U32(50));
    let xref = exprs.new(ExprKind::Var(x));
    let one = exprs.new(ExprKind::I32(1));
    let add = exprs.new(ExprKind::Add(xref, one));
    let let_x = exprs.new(ExprKind::Let(x, lit_u, add));
    let rep = typecheck(&exprs);
    assert!(rep.typings.contains(&(xref, TypeKind::U32)));
    assert!(rep.typings.contains(&(one, TypeKind::I32)));
    assert!(rep.errors.contains(&add));
    // the Let's body never types, so the Let is untypeable too
    assert!(rep.errors.contains(&let_x));
}

#[test]
fn linearity_double_use() {
    // let a = "foo" in let b = "bar" in let c = a in let d = a in 1 :
    // the path `a` is consumed at both variable occurrences
    let (_exprs, _paths, rep) = test0();
    // the two occurrences of `a` are the third and fourth interned nodes
    let a_ref0 = ExprId(2);
    let a_ref1 = ExprId(3);
    let p_a = PathId(0);
    assert!(
        rep.double_use.contains(&(p_a, a_ref0, a_ref1))
            || rep.double_use.contains(&(p_a, a_ref1, a_ref0))
    );
    // `a` is the only origin fact's binder
    assert!(rep.origins.contains(&(NameId(0), p_a)));
    // no projections exist, so no ancestor-based violation
    assert!(rep.ancestor_used.is_empty());
    assert!(rep.ancestors.is_empty());
}

#[test]
fn linearity_disjoint_projections_ok() {
    // let a = (("foo", 5), "bar") in let b = a.0.0 in let c = a.0.1 in
    // let d = a.1 in 1 : three disjoint projections, each used once
    let (_exprs, _paths, rep) = test1();
    assert!(rep.double_use.is_empty());
    assert!(rep.ancestor_used.is_empty());
    // every interned path originates at `a`
    let a = NameId(0);
    for pid in 0..5 {
        assert!(rep.origins.contains(&(a, PathId(pid))));
    }
    // a.0 is an ancestor of a.0.0 and of a.0.1
    assert!(rep.ancestors.contains(&(PathId(0), PathId(1))));
    assert!(rep.ancestors.contains(&(PathId(1), PathId(2))));
    assert!(rep.ancestors.contains(&(PathId(0), PathId(2))));
}

#[test]
fn linearity_ancestor_used_violation() {
    // let a = ("foo", "bar") in let b = a in let c = a.0 in 1 :
    // the whole of `a` is consumed while its projection a.0 is too
    let mut exprs = ExprInterner::new();
    let mut names = stratalog::data::NameInterner::new();
    let a = names.fresh();
    let b = names.fresh();
    let c = names.fresh();
    let foo = exprs.intern(Expr::Str("foo".to_string()));
    let bar = exprs.intern(Expr::Str("bar".to_string()));
    let a_ref0 = exprs.intern(Expr::Var(a));
    let a_ref1 = exprs.intern(Expr::Var(a));
    let one = exprs.intern(Expr::I32(1));
    let tuple = exprs.intern(Expr::Tuple(vec![foo, bar]));
    let a_0 = exprs.intern(Expr::Project(a_ref1, stratalog::data::Index(0)));
    let let_c = exprs.intern(Expr::Let(c, a_0, one));
    let let_b = exprs.intern(Expr::Let(b, a_ref0, let_c));
    let _let_a = exprs.intern(Expr::Let(a, tuple, let_b));
    let paths = exprs.resolve_paths(&_let_a);
    let rep = lincheck(&paths);
    // path 0 is `a`, path 1 is `a.0`; `a` is used at a_ref0, `a.0` at a_0
    assert!(rep.ancestor_used.contains(&(PathId(0), PathId(1), a_ref0)));
    // the direct use and the projected use are different paths, so no double use
    assert!(rep.double_use.is_empty());
}

#[test]
fn boundary_bare_literal() {
    // a bare literal has no paths: every linearity relation is empty
    let mut exprs = ExprInterner::new();
    let lit = exprs.intern(Expr::I32(7));
    let paths = exprs.resolve_paths(&lit);
    assert!(paths.roots.is_empty());
    assert!(paths.parents.is_empty());
    assert!(paths.uses.is_empty());
    let rep = lincheck(&paths);
    assert!(rep.origins.is_empty());
    assert!(rep.ancestors.is_empty());
    assert!(rep.ancestor_used.is_empty());
    assert!(rep.double_use.is_empty());

    // and the type checker assigns it exactly one type
    let mut tex = ExprMap::empty();
    let tlit = tex.new(ExprKind::I32(7));
    let trep = typecheck(&tex);
    assert_eq!(trep.typings.len(), 1);
    assert!(trep.typings.contains(&(tlit, TypeKind::I32)));
    assert!(trep.errors.is_empty());
}

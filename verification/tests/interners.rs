//! Tests of the arenas: positional expression identities, structural
//! path deduplication, and the recorded base facts.

use stratalog::data::{
    Expr, ExprId, ExprInterner, Index, NameId, NameInterner, Path, PathId, PathInterner,
};

#[test]
fn expr_interner_is_positional() {
    let mut exprs = ExprInterner::new();
    let e0 = exprs.intern(Expr::I32(1));
    let e1 = exprs.intern(Expr::I32(1));
    // equal nodes still get distinct identities
    assert_ne!(e0, e1);
    assert_eq!(e0, ExprId(0));
    assert_eq!(e1, ExprId(1));
    assert!(matches!(exprs.resolve(&e0), Expr::I32(1)));
}

#[test]
fn name_interner_is_increasing() {
    let mut names = NameInterner::new();
    assert_eq!(names.fresh(), NameId(0));
    assert_eq!(names.fresh(), NameId(1));
    assert_eq!(names.fresh(), NameId(2));
}

#[test]
fn path_interner_deduplicates() {
    let mut paths = PathInterner::new();
    let p0 = paths.intern(Path::Var(NameId(7)));
    let p1 = paths.intern(Path::Var(NameId(7)));
    // one value, one identity
    assert_eq!(p0, p1);
    let q0 = paths.intern(Path::Project(p0, Index(0)));
    let q1 = paths.intern(Path::Project(p0, Index(0)));
    assert_eq!(q0, q1);
    let q2 = paths.intern(Path::Project(p0, Index(1)));
    assert_ne!(q0, q2);
    assert_eq!(paths.path_count(), 3);
    assert_eq!(*paths.resolve(q0), Path::Project(p0, Index(0)));
}

#[test]
fn path_interner_records_base_facts() {
    let mut paths = PathInterner::new();
    let p = paths.intern(Path::Var(NameId(0)));
    paths.add_root(p, NameId(0));
    let q = paths.intern(Path::Project(p, Index(2)));
    paths.add_parent(p, q);
    paths.add_use(q, ExprId(9));
    assert_eq!(paths.roots, vec![(p, NameId(0))]);
    assert_eq!(paths.parents, vec![(p, q)]);
    assert_eq!(paths.uses, vec![(q, ExprId(9))]);
}

//! The typed variant of the expression language: let-bindings, variable
//! occurrences, `+` and `==` over two operands, and integer literals
//! tagged `I32` or `U32`. The type-inference rule set works over a flat
//! relational image of this table.

use vstd::prelude::*;

verus! {

/// Identity of a binder in the typed language.
#[derive(Debug, Copy, Clone, PartialEq, Eq, Structural)]
pub struct Name(pub usize);

/// Identity of an interned typed expression node: a stable index.
#[derive(Debug, Copy, Clone, PartialEq, Eq, Structural)]
pub struct Expr(pub usize);

/// A typed-language expression node.
#[derive(Debug, Clone)]
pub enum ExprKind {
    Let(Name, Expr, Expr),
    Var(Name),
    Add(Expr, Expr),
    Equ(Expr, Expr),
    I32(i32),
    U32(u32),
}

/// A type the inference rules can assign.
#[derive(Debug, Copy, Clone, PartialEq, Eq, Structural)]
pub enum TypeKind {
    I32,
    U32,
    Bool,
}

/// Children of a node interned at position `n` refer strictly below `n`.
pub open spec fn kind_wf(e: ExprKind, n: nat) -> bool {
    match e {
        ExprKind::Let(_, e0, e1) => e0.0 < n && e1.0 < n,
        ExprKind::Var(_) => true,
        ExprKind::Add(e0, e1) => e0.0 < n && e1.0 < n,
        ExprKind::Equ(e0, e1) => e0.0 < n && e1.0 < n,
        ExprKind::I32(_) => true,
        ExprKind::U32(_) => true,
    }
}

/// Append-only arena of typed expression nodes.
pub struct ExprMap {
    vec: Vec<ExprKind>,
}

impl ExprMap {
    /// The interned nodes, in interning order.
    pub closed spec fn exprs(self) -> Seq<ExprKind> {
        self.vec@
    }

    /// Every node only refers to nodes interned strictly before it.
    pub open spec fn wf(self) -> bool {
        forall|i: int| 0 <= i < self.exprs().len() ==> kind_wf(#[trigger] self.exprs()[i], i as nat)
    }

    pub fn empty() -> (r: ExprMap)
        ensures
            r.exprs() == Seq::<ExprKind>::empty(),
            r.wf(),
    {
        ExprMap { vec: Vec::new() }
    }

    pub fn len(&self) -> (n: usize)
        ensures
            n == self.exprs().len(),
    {
        self.vec.len()
    }

    /// Appends a node and returns its fresh, positional identity.
    pub fn new(&mut self, expr: ExprKind) -> (id: Expr)
        requires
            old(self).wf(),
            kind_wf(expr, old(self).exprs().len() as nat),
        ensures
            final(self).wf(),
            id.0 == old(self).exprs().len(),
            final(self).exprs() == old(self).exprs().push(expr),
    {
        let id = Expr(self.vec.len());
        self.vec.push(expr);
        id
    }

    /// Looks a node up; identities issued by `new` are always valid.
    pub fn get(&self, id: Expr) -> (e: &ExprKind)
        requires
            id.0 < self.exprs().len(),
        ensures
            *e == self.exprs()[id.0 as int],
    {
        &self.vec[id.0]
    }
}

impl Default for ExprMap {
    fn default() -> (r: ExprMap)
        ensures
            r.exprs() == Seq::<ExprKind>::empty(),
            r.wf(),
    {
        ExprMap::empty()
    }
}

/// Issues strictly increasing binder identities for the typed language.
pub struct NameMap {
    pub counter: usize,
}

impl NameMap {
    pub fn empty() -> (r: NameMap)
        ensures
            r.counter == 0,
    {
        NameMap { counter: 0 }
    }

    pub fn new(&mut self) -> (id: Name)
        requires
            old(self).counter < usize::MAX,
        ensures
            id.0 == old(self).counter,
            final(self).counter == old(self).counter + 1,
    {
        let id = Name(self.counter);
        self.counter = self.counter + 1;
        id
    }
}

impl Default for NameMap {
    fn default() -> (r: NameMap)
        ensures
            r.counter == 0,
    {
        NameMap::empty()
    }
}

} // verus!

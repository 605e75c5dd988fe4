//! The symbol alphabet that terms are built from.

use vstd::prelude::*;

verus! {

/// Identity of a symbol within its kind and sort.
pub type Id = u32;

/// The sort (type) that a symbol, and every term headed by it, belongs to.
pub type Sort = u8;

/// The number of arguments that a symbol takes.
pub type Arity = u8;

/// The three mutually exclusive kinds of symbol. Only a function carries an
/// arity of its own; variables and names never take arguments.
#[derive(Clone, Copy, Debug, PartialEq, Eq, Structural, Hash)]
pub enum Kind {
    Variable,
    Name,
    Function(Arity),
}

/// An atomic, sorted, fixed-arity token. Two symbols are the same symbol
/// exactly when identity, sort and kind agree.
#[derive(Clone, Copy, Debug, PartialEq, Eq, Structural, Hash)]
pub struct Symbol {
    pub id: Id,
    pub sort: Sort,
    pub kind: Kind,
}

impl Symbol {
    /// The number of arguments that the symbol takes: what a function
    /// declares, and none for a variable or a name.
    pub open spec fn spec_arity(&self) -> Arity {
        match self.kind {
            Kind::Function(n) => n,
            _ => 0,
        }
    }

    /// The symbol is a variable.
    pub open spec fn spec_var(&self) -> bool {
        self.kind is Variable
    }

    /// The symbol is a name.
    pub open spec fn spec_name(&self) -> bool {
        self.kind is Name
    }

    /// The symbol is a function.
    pub open spec fn spec_fun(&self) -> bool {
        self.kind is Function
    }

    /// A variable of the given sort.
    pub fn new_var(id: Id, sort: Sort) -> (s: Symbol)
        ensures
            s == (Symbol { id, sort, kind: Kind::Variable }),
    {
        Symbol { id, sort, kind: Kind::Variable }
    }

    /// A name (a constant standing for itself) of the given sort.
    pub fn new_name(id: Id, sort: Sort) -> (s: Symbol)
        ensures
            s == (Symbol { id, sort, kind: Kind::Name }),
    {
        Symbol { id, sort, kind: Kind::Name }
    }

    /// A function symbol of the given sort taking `arity` arguments.
    pub fn new_fun(id: Id, sort: Sort, arity: Arity) -> (s: Symbol)
        ensures
            s == (Symbol { id, sort, kind: Kind::Function(arity) }),
    {
        Symbol { id, sort, kind: Kind::Function(arity) }
    }

    /// The identity of the symbol.
    pub fn id(&self) -> (r: Id)
        ensures
            r == self.id,
    {
        self.id
    }

    /// The sort of the symbol.
    pub fn sort(&self) -> (r: Sort)
        ensures
            r == self.sort,
    {
        self.sort
    }

    /// The number of arguments that the symbol takes.
    #[verifier::when_used_as_spec(spec_arity)]
    pub fn arity(&self) -> (r: Arity)
        ensures
            r == self.spec_arity(),
    {
        match self.kind {
            Kind::Function(n) => n,
            _ => 0,
        }
    }

    /// Whether the symbol is a variable.
    #[verifier::when_used_as_spec(spec_var)]
    pub fn var(&self) -> (r: bool)
        ensures
            r == self.spec_var(),
    {
        match self.kind {
            Kind::Variable => true,
            _ => false,
        }
    }

    /// Whether the symbol is a name.
    #[verifier::when_used_as_spec(spec_name)]
    pub fn name(&self) -> (r: bool)
        ensures
            r == self.spec_name(),
    {
        match self.kind {
            Kind::Name => true,
            _ => false,
        }
    }

    /// Whether the symbol is a function.
    #[verifier::when_used_as_spec(spec_fun)]
    pub fn fun(&self) -> (r: bool)
        ensures
            r == self.spec_fun(),
    {
        match self.kind {
            Kind::Function(_) => true,
            _ => false,
        }
    }
}

} // verus!

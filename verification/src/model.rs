//! The mathematical model of a term store: the sequence of stored nodes, what
//! makes it canonical, the tree that a handle stands for, and what interning
//! and substitution mean on it.

use crate::symbol::Symbol;
use crate::term::Term;
use vstd::prelude::*;

verus! {

/// What one stored node is: a symbol applied to a sequence of handles.
pub struct Node {
    pub sym: Symbol,
    pub args: Seq<Term>,
}

/// The finite tree that a term stands for: its symbol above the trees of its
/// arguments.
pub struct Tree {
    pub sym: Symbol,
    pub kids: Seq<Tree>,
}

impl Tree {
    /// Every symbol in the tree has as many arguments as its arity asks for.
    pub open spec fn well_formed(self) -> bool
        decreases self,
    {
        &&& self.kids.len() == self.sym.arity()
        &&& forall|k: int| 0 <= k < self.kids.len() ==> (#[trigger] self.kids[k]).well_formed()
    }

    /// A variable occurs somewhere in the tree.
    pub open spec fn has_variable(self) -> bool
        decreases self,
    {
        self.sym.var() || exists|k: int|
            0 <= k < self.kids.len() && (#[trigger] self.kids[k]).has_variable()
    }

    /// The term is ground: the root is a name, or a function all of whose
    /// arguments are ground in turn.
    pub open spec fn ground(self) -> bool
        decreases self,
    {
        self.sym.name() || (self.sym.fun() && forall|k: int|
            0 <= k < self.kids.len() ==> (#[trigger] self.kids[k]).ground())
    }

    /// A function applied to names only.
    pub open spec fn primitive(self) -> bool {
        self.sym.fun() && forall|k: int|
            0 <= k < self.kids.len() ==> (#[trigger] self.kids[k]).sym.name()
    }

    /// A function applied to names and variables only.
    pub open spec fn quasiprimitive(self) -> bool {
        self.sym.fun() && forall|k: int|
            0 <= k < self.kids.len() ==> {
                ||| (#[trigger] self.kids[k]).sym.name()
                ||| self.kids[k].sym.var()
            }
    }
}

/// `t` names a node of the store `s`.
pub open spec fn in_store(s: Seq<Node>, t: Term) -> bool {
    0 <= t@ < s.len()
}

/// The node at position `i` has as many arguments as its symbol asks for, and
/// each of them was stored before it.
pub open spec fn node_ok(s: Seq<Node>, i: int) -> bool {
    &&& s[i].args.len() == s[i].sym.arity()
    &&& forall|k: int| 0 <= k < s[i].args.len() ==> 0 <= (#[trigger] s[i].args[k])@ < i
}

/// Every node of the store is well formed and no node is stored twice.
pub open spec fn canonical(s: Seq<Node>) -> bool {
    &&& forall|i: int| 0 <= i < s.len() ==> node_ok(s, i)
    &&& forall|i: int, j: int| 0 <= i < j < s.len() ==> s[i] != s[j]
}

/// `n` can be interned into `s`: its argument count is the arity of its symbol
/// and its arguments are terms of `s`.
pub open spec fn fits(s: Seq<Node>, n: Node) -> bool {
    &&& n.args.len() == n.sym.arity()
    &&& forall|k: int| 0 <= k < n.args.len() ==> in_store(s, #[trigger] n.args[k])
}

/// The store after interning `n`, and the position of `n` in it: a node that is
/// already stored keeps its place and nothing is added; a new node goes to the
/// end.
pub open spec fn intern(s: Seq<Node>, n: Node) -> (Seq<Node>, int) {
    if s.contains(n) {
        (s, s.index_of(n))
    } else {
        (s.push(n), s.len() as int)
    }
}

/// Everything stored in `a` is stored in `b` at the same position.
pub open spec fn extends(a: Seq<Node>, b: Seq<Node>) -> bool {
    &&& a.len() <= b.len()
    &&& forall|i: int| 0 <= i < a.len() ==> a[i] == b[i]
}

/// The tree that the term `t` stands for in the store `s`.
pub open spec fn tree_of(s: Seq<Node>, t: Term) -> Tree
    decreases t@,
{
    Tree {
        sym: s[t@].sym,
        kids: Seq::new(
            s[t@].args.len(),
            |k: int|
                if 0 <= s[t@].args[k]@ < t@ {
                    tree_of(s, s[t@].args[k])
                } else {
                    Tree { sym: s[t@].sym, kids: Seq::empty() }
                },
        ),
    }
}

/// The node at position `j` is `t` or lies below it.
pub open spec fn reaches(s: Seq<Node>, t: Term, j: int) -> bool
    decreases t@,
{
    ||| t@ == j
    ||| exists|k: int|
        0 <= k < s[t@].args.len() && 0 <= (#[trigger] s[t@].args[k])@ < t@ && reaches(
            s,
            s[t@].args[k],
            j,
        )
}

/// The node at position `j` is one of `roots` or lies below one.
pub open spec fn reaches_from(s: Seq<Node>, roots: Seq<Term>, j: int) -> bool {
    exists|i: int| 0 <= i < roots.len() && reaches(s, #[trigger] roots[i], j)
}

/// What can be answered when asked whether a term is to be replaced:
/// `offers(t, Some(r))` says that `r` may be offered in place of `t`, and
/// `offers(t, None)` that `t` may be declined.
pub type Offers = spec_fn(Term, Option<Term>) -> bool;

/// What a replacement function can answer: `answers(theta)(t, o)` holds
/// when `o` is a possible result of asking `theta` about `t`.
pub open spec fn answers<F: Fn(Term) -> Option<Term>>(theta: F) -> Offers {
    |t: Term, o: Option<Term>| call_ensures(theta, (t,), o)
}

/// `out` is a tree that substituting into `t` can give, where `offers(t, o)`
/// says that `o` is a possible answer about `t`: the tree of a replacement
/// offered for `t` itself, or, where `t` can be declined, the symbol of `t`
/// above what substitution gives for each of its arguments.
pub open spec fn substitutes(offers: Offers, s: Seq<Node>, t: Term, out: Tree) -> bool
    decreases t@,
{
    ||| exists|r: Term| #[trigger] offers(t, Some(r)) && out == tree_of(s, r)
    ||| {
        &&& offers(t, None::<Term>)
        &&& out.sym == s[t@].sym
        &&& out.kids.len() == s[t@].args.len()
        &&& forall|k: int|
            0 <= k < s[t@].args.len() ==> 0 <= s[t@].args[k]@ < t@ && substitutes(
                offers,
                s,
                s[t@].args[k],
                #[trigger] out.kids[k],
            )
    }
}

/// Every replacement offered for a term of `s` is a term of `s` again.
pub open spec fn stays_in(offers: Offers, s: Seq<Node>) -> bool {
    forall|t: Term, r: Term| in_store(s, t) && #[trigger] offers(t, Some(r)) ==> in_store(s, r)
}

/// No replacement is offered for any term of `s`.
pub open spec fn never_matches(offers: Offers, s: Seq<Node>) -> bool {
    forall|t: Term, r: Term| in_store(s, t) ==> !#[trigger] offers(t, Some(r))
}

/// `t` is always declined: no replacement is offered for it.
pub open spec fn declines(offers: Offers, t: Term) -> bool {
    forall|r: Term| !#[trigger] offers(t, Some(r))
}

/// `t` is never declined: every answer about it is a replacement.
pub open spec fn always_matches(offers: Offers, t: Term) -> bool {
    !offers(t, None::<Term>)
}

/// `theta` can be asked about every term of `s`, and what it offers in
/// place of one is a term of `s` again.
pub open spec fn answers_for<F: Fn(Term) -> Option<Term>>(theta: F, s: Seq<Node>) -> bool {
    &&& forall|t: Term| in_store(s, t) ==> #[trigger] call_requires(theta, (t,))
    &&& stays_in(answers(theta), s)
}

/// In a canonical store a node has one position only.
pub proof fn lemma_position_unique(s: Seq<Node>, n: Node, i: int)
    requires
        canonical(s),
        0 <= i < s.len(),
        s[i] == n,
    ensures
        s.contains(n),
        s.index_of(n) == i,
{
    let j = s.index_of(n);
    assert(s[j] == n);
}

/// Storing a new node that fits keeps the store canonical.
pub proof fn lemma_push_canonical(s: Seq<Node>, n: Node)
    requires
        canonical(s),
        fits(s, n),
        !s.contains(n),
    ensures
        canonical(s.push(n)),
{
    let s2 = s.push(n);
    assert forall|i: int| 0 <= i < s2.len() implies node_ok(s2, i) by {
        if i < s.len() {
            assert(node_ok(s, i));
        }
    }
}

/// Interning a node that fits keeps the store canonical, changes nothing that
/// was stored, and leaves the node at the position returned.
pub proof fn lemma_intern(s: Seq<Node>, n: Node)
    requires
        canonical(s),
        fits(s, n),
    ensures
        canonical(intern(s, n).0),
        extends(s, intern(s, n).0),
        0 <= intern(s, n).1 < intern(s, n).0.len(),
        intern(s, n).0[intern(s, n).1] == n,
{
    if !s.contains(n) {
        lemma_push_canonical(s, n);
    }
}

/// A term keeps its tree when the store grows.
pub proof fn lemma_tree_of_extends(a: Seq<Node>, b: Seq<Node>, t: Term)
    requires
        extends(a, b),
        in_store(a, t),
    ensures
        tree_of(b, t) == tree_of(a, t),
    decreases t@,
{
    assert forall|k: int| 0 <= k < a[t@].args.len() implies tree_of(b, t).kids[k] == tree_of(
        a,
        t,
    ).kids[k] by {
        if 0 <= a[t@].args[k]@ < t@ {
            lemma_tree_of_extends(a, b, a[t@].args[k]);
        }
    }
    assert(tree_of(b, t).kids =~= tree_of(a, t).kids);
}

/// What lies at or below a term was stored no later than the term.
pub proof fn lemma_reaches_bound(s: Seq<Node>, t: Term, j: int)
    requires
        reaches(s, t, j),
        0 <= t@,
    ensures
        0 <= j <= t@,
    decreases t@,
{
    if t@ != j {
        let k = choose|k: int|
            0 <= k < s[t@].args.len() && 0 <= (#[trigger] s[t@].args[k])@ < t@ && reaches(
                s,
                s[t@].args[k],
                j,
            );
        lemma_reaches_bound(s, s[t@].args[k], j);
    }
}

/// What lies below a term still lies below it when the store grows.
pub proof fn lemma_reaches_extends(a: Seq<Node>, b: Seq<Node>, t: Term, j: int)
    requires
        extends(a, b),
        in_store(a, t),
        reaches(a, t, j),
    ensures
        reaches(b, t, j),
    decreases t@,
{
    if t@ != j {
        let k = choose|k: int|
            0 <= k < a[t@].args.len() && 0 <= (#[trigger] a[t@].args[k])@ < t@ && reaches(
                a,
                a[t@].args[k],
                j,
            );
        lemma_reaches_extends(a, b, a[t@].args[k], j);
    }
}

/// What lies at or below an argument of a term lies below the term.
pub proof fn lemma_reaches_through(s: Seq<Node>, t: Term, k: int, j: int)
    requires
        0 <= k < s[t@].args.len(),
        0 <= s[t@].args[k]@ < t@,
        reaches(s, s[t@].args[k], j),
    ensures
        reaches(s, t, j),
{
}

/// The trees below a well-formed node are the trees of its arguments.
pub proof fn lemma_tree_kids(s: Seq<Node>, t: Term)
    requires
        in_store(s, t),
        node_ok(s, t@),
    ensures
        tree_of(s, t).sym == s[t@].sym,
        tree_of(s, t).kids.len() == s[t@].args.len(),
        forall|k: int|
            0 <= k < s[t@].args.len() ==> #[trigger] tree_of(s, t).kids[k] == tree_of(
                s,
                s[t@].args[k],
            ),
{
}

} // verus!

//! What holds of every canonical store: one node per distinct structure, and
//! what follows from that for interning, classification and substitution.

use crate::model::{
    always_matches, canonical, extends, fits, in_store, intern, lemma_intern,
    lemma_position_unique, lemma_tree_kids, never_matches, node_ok, substitutes, tree_of, Node,
    Offers, Tree,
};
use crate::term::{lemma_handle_identity, Term};
use vstd::prelude::*;

verus! {

/// Structural equality is identity: in a canonical store, two terms stand for
/// the same tree exactly when they are the same handle.
pub proof fn law_one_node_per_tree(s: Seq<Node>, a: Term, b: Term)
    requires
        canonical(s),
        in_store(s, a),
        in_store(s, b),
    ensures
        tree_of(s, a) == tree_of(s, b) <==> a == b,
    decreases a@,
{
    if tree_of(s, a) == tree_of(s, b) {
        lemma_tree_kids(s, a);
        lemma_tree_kids(s, b);
        assert(node_ok(s, a@) && node_ok(s, b@));
        assert forall|k: int| 0 <= k < s[a@].args.len() implies s[a@].args[k] == s[b@].args[k] by {
            assert(tree_of(s, a).kids[k] == tree_of(s, s[a@].args[k]));
            assert(tree_of(s, b).kids[k] == tree_of(s, s[b@].args[k]));
            law_one_node_per_tree(s, s[a@].args[k], s[b@].args[k]);
        }
        assert(s[a@].args =~= s[b@].args);
        assert(s[a@] == s[b@]);
        lemma_handle_identity(a, b);
    }
}

/// Interning is canonical over the whole life of a store: a key interned now
/// and a key interned at any later time get the same handle exactly when they
/// are the same key, that is the same symbol applied to the same handles.
pub proof fn law_interning_is_canonical(s: Seq<Node>, m: Node, later: Seq<Node>, n: Node)
    requires
        canonical(s),
        fits(s, m),
        canonical(later),
        extends(intern(s, m).0, later),
        fits(later, n),
    ensures
        intern(later, n).1 == intern(s, m).1 <==> n == m,
        n == m ==> intern(later, n).0 == later,
{
    let i = intern(s, m).1;
    lemma_intern(s, m);
    assert(later[i] == m);
    if n == m {
        lemma_position_unique(later, m, i);
    } else {
        lemma_intern(later, n);
    }
}

/// The arity invariant: every term of a canonical store has as many arguments
/// as its symbol asks for, and so has every term below it.
pub proof fn law_arity_invariant(s: Seq<Node>, t: Term)
    requires
        canonical(s),
        in_store(s, t),
    ensures
        s[t@].args.len() == s[t@].sym.arity(),
        tree_of(s, t).well_formed(),
    decreases t@,
{
    lemma_tree_kids(s, t);
    assert(node_ok(s, t@));
    assert forall|k: int| 0 <= k < tree_of(s, t).kids.len() implies (#[trigger] tree_of(
        s,
        t,
    ).kids[k]).well_formed() by {
        law_arity_invariant(s, s[t@].args[k]);
    }
}

/// A well-formed tree is ground exactly when no variable occurs in it.
pub proof fn law_ground_has_no_variable(tree: Tree)
    requires
        tree.well_formed(),
    ensures
        tree.ground() <==> !tree.has_variable(),
    decreases tree,
{
    assert forall|k: int| 0 <= k < tree.kids.len() implies ((#[trigger] tree.kids[k]).ground()
        <==> !tree.kids[k].has_variable()) by {
        law_ground_has_no_variable(tree.kids[k]);
    }
    if tree.ground() && tree.has_variable() {
        let k = choose|k: int| 0 <= k < tree.kids.len() && (#[trigger] tree.kids[k]).has_variable();
        assert(!tree.kids[k].ground());
    }
}

/// Where the classes of terms meet and where they do not: only a function
/// application is primitive or quasiprimitive; a primitive term is
/// quasiprimitive and ground; a name is ground; a variable is not.
pub proof fn law_classification(tree: Tree)
    ensures
        tree.primitive() ==> tree.quasiprimitive() && tree.ground(),
        tree.quasiprimitive() ==> tree.sym.fun(),
        tree.sym.name() ==> tree.ground() && !tree.primitive() && !tree.quasiprimitive(),
        tree.sym.var() ==> !tree.ground() && !tree.primitive() && !tree.quasiprimitive(),
{
    if tree.primitive() {
        assert forall|k: int| 0 <= k < tree.kids.len() implies (#[trigger] tree.kids[k]).ground() by {
            assert(tree.kids[k].sym.name());
        }
    }
}

/// Substitution with a function that offers no replacement changes nothing:
/// the only tree it can give is the tree of the term itself.
pub proof fn law_substitute_identity(offers: Offers, s: Seq<Node>, t: Term, out: Tree)
    requires
        canonical(s),
        in_store(s, t),
        never_matches(offers, s),
        substitutes(offers, s, t, out),
    ensures
        out == tree_of(s, t),
    decreases t@,
{
    lemma_tree_kids(s, t);
    assert(node_ok(s, t@));
    assert forall|k: int| 0 <= k < s[t@].args.len() implies out.kids[k] == tree_of(s, t).kids[k] by {
        assert(substitutes(offers, s, s[t@].args[k], out.kids[k]));
        law_substitute_identity(offers, s, s[t@].args[k], out.kids[k]);
    }
    assert(out.kids =~= tree_of(s, t).kids);
}

/// Where the function always offers a replacement for the root, substitution
/// gives the tree of such a replacement and nothing else, whatever lies below
/// the root.
pub proof fn law_root_replacement(offers: Offers, s: Seq<Node>, t: Term, out: Tree)
    requires
        always_matches(offers, t),
        substitutes(offers, s, t, out),
    ensures
        exists|r: Term| #[trigger] offers(t, Some(r)) && out == tree_of(s, r),
{
}

} // verus!

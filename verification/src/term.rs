//! Canonical terms, the factory that owns them, and substitution.

use crate::laws::{law_one_node_per_tree, law_substitute_identity};
use crate::model::{
    always_matches, answers, answers_for, canonical, declines, extends, fits, in_store, intern,
    lemma_intern, lemma_position_unique, lemma_push_canonical, lemma_reaches_bound,
    lemma_reaches_extends, lemma_reaches_through, lemma_tree_of_extends, never_matches, node_ok,
    reaches, reaches_from, substitutes, tree_of, Node, Tree,
};
use crate::symbol::{Arity, Kind, Sort, Symbol};
use std::cmp::Ordering;
use std::collections::HashMap;
use std::slice::Iter;
use vstd::prelude::*;
use vstd::std_specs::cmp::PartialOrdSpecImpl;
use vstd::std_specs::iter::IteratorSpec;
use vstd::std_specs::slice::into_iter_elts;

verus! {

/// A handle to one canonical node of a [`Factory`].
///
/// A handle is the identity of its node: two handles issued by one factory are
/// equal exactly when they refer to the same node, and comparing, ordering or
/// hashing them never looks at the structure behind them.
#[derive(Clone, Copy, Debug, PartialEq, Eq, Structural, Ord, Hash)]
pub struct Term {
    idx: usize,
}

impl PartialOrd for Term {
    /// Handles are ordered by position, that is by the order in which their
    /// nodes were stored.
    fn partial_cmp(&self, other: &Self) -> (r: Option<Ordering>) {
        if self.idx < other.idx {
            Some(Ordering::Less)
        } else if self.idx > other.idx {
            Some(Ordering::Greater)
        } else {
            Some(Ordering::Equal)
        }
    }
}

impl PartialOrdSpecImpl for Term {
    open spec fn obeys_partial_cmp_spec() -> bool {
        true
    }

    open spec fn partial_cmp_spec(&self, other: &Self) -> Option<Ordering> {
        if self@ < other@ {
            Some(Ordering::Less)
        } else if self@ > other@ {
            Some(Ordering::Greater)
        } else {
            Some(Ordering::Equal)
        }
    }
}

impl View for Term {
    type V = int;

    /// The position of the node in its factory.
    closed spec fn view(&self) -> int {
        self.idx as int
    }
}

/// Two handles are the same handle exactly when they name the same position.
pub proof fn lemma_handle_identity(a: Term, b: Term)
    ensures
        a == b <==> a@ == b@,
{
}

/// The canonical, immutable node behind a [`Term`].
#[derive(Clone, Debug, PartialEq, Eq, Hash)]
pub struct TermData {
    sym: Symbol,
    args: Vec<Term>,
}

impl View for TermData {
    type V = Node;

    /// The symbol and the argument handles of the node.
    closed spec fn view(&self) -> Node {
        Node { sym: self.sym, args: self.args@ }
    }
}

/// The single owner of all canonical nodes of a session.
#[derive(Debug)]
pub struct Factory {
    nodes: Vec<TermData>,
    index: HashMap<u64, Vec<usize>>,
}

impl View for Factory {
    type V = Seq<Node>;

    /// The nodes in the order in which they were stored.
    closed spec fn view(&self) -> Seq<Node> {
        Seq::new(self.nodes@.len(), |i: int| self.nodes@[i]@)
    }
}

/// One step of the hash of a node's structural key.
spec fn mix(h: u64, x: u64) -> u64 {
    (h ^ x).wrapping_mul(0x0000_0100_0000_01b3)
}

/// The hash of a symbol, the seed for the hash of a node.
spec fn sym_hash(sym: Symbol) -> u64 {
    let h0 = mix(0xcbf2_9ce4_8422_2325, sym.id as u64);
    let h1 = mix(h0, sym.sort as u64);
    match sym.kind {
        Kind::Variable => mix(h1, 1),
        Kind::Name => mix(h1, 2),
        Kind::Function(n) => mix(mix(h1, 3), n as u64),
    }
}

/// The hash of a node's structural key: its symbol and the identities of its
/// arguments, in order.
spec fn key_hash(sym: Symbol, args: Seq<Term>) -> u64
    decreases args.len(),
{
    if args.len() == 0 {
        sym_hash(sym)
    } else {
        mix(key_hash(sym, args.drop_last()), args.last()@ as u64)
    }
}

/// Mixes one more word into a hash.
fn hash_step(h: u64, x: u64) -> (r: u64)
    ensures
        r == mix(h, x),
{
    (h ^ x).wrapping_mul(0x0000_0100_0000_01b3)
}

/// Hashes a symbol by identity, sort and kind.
fn hash_sym(sym: &Symbol) -> (h: u64)
    ensures
        h == sym_hash(*sym),
{
    let h0 = hash_step(0xcbf2_9ce4_8422_2325, sym.id as u64);
    let h1 = hash_step(h0, sym.sort as u64);
    match sym.kind {
        Kind::Variable => hash_step(h1, 1),
        Kind::Name => hash_step(h1, 2),
        Kind::Function(n) => hash_step(hash_step(h1, 3), n as u64),
    }
}

/// Hashes a structural key. The arguments go in by identity only: nothing
/// below them is looked at.
fn hash_key(sym: &Symbol, args: &Vec<Term>) -> (h: u64)
    ensures
        h == key_hash(*sym, args@),
{
    let mut h = hash_sym(sym);
    let mut k: usize = 0;
    while k < args.len()
        invariant
            k <= args.len(),
            h == key_hash(*sym, args@.take(k as int)),
        decreases args.len() - k,
    {
        assert(args@.take(k + 1).drop_last() =~= args@.take(k as int));
        h = hash_step(h, args[k].idx as u64);
        k += 1;
    }
    assert(args@.take(k as int) =~= args@);
    h
}

/// Whether two argument lists hold the same handles in the same order.
fn same_args(a: &Vec<Term>, b: &Vec<Term>) -> (r: bool)
    ensures
        r == (a@ == b@),
{
    if a.len() != b.len() {
        return false;
    }
    let mut k: usize = 0;
    while k < a.len()
        invariant
            k <= a.len(),
            a.len() == b.len(),
            forall|j: int| 0 <= j < k ==> a@[j] == b@[j],
        decreases a.len() - k,
    {
        if a[k] != b[k] {
            return false;
        }
        k += 1;
    }
    assert(a@ =~= b@);
    true
}

impl Factory {
    /// The lookup index agrees with the store: every node is listed under the
    /// hash of its key, and everything listed is a node.
    pub closed spec fn indexed(&self) -> bool {
        &&& forall|i: int|
            0 <= i < self.nodes@.len() ==> {
                let h = key_hash(#[trigger] self.nodes@[i].sym, self.nodes@[i].args@);
                self.index@.contains_key(h) && self.index@[h]@.contains(i as usize)
            }
        &&& forall|h: u64, k: int|
            self.index@.contains_key(h) && 0 <= k < self.index@[h]@.len() ==> (
            #[trigger] self.index@[h]@[k]) < self.nodes@.len()
    }

    /// The invariant of a factory.
    pub open spec fn wf(&self) -> bool {
        canonical(self@) && self.indexed()
    }

    /// `t` names a node of this factory.
    pub open spec fn spec_contains(&self, t: Term) -> bool {
        in_store(self@, t)
    }

    /// The node that `t` names.
    pub open spec fn node(&self, t: Term) -> Node {
        self@[t@]
    }

    /// The tree that `t` stands for.
    pub open spec fn tree(&self, t: Term) -> Tree {
        tree_of(self@, t)
    }

    /// An empty factory.
    pub fn new() -> (f: Factory)
        ensures
            f.wf(),
            f@ == Seq::<Node>::empty(),
    {
        Factory { nodes: Vec::new(), index: HashMap::new() }
    }

    /// The term stored under the structural key `(sym, args)`, if there is one.
    fn lookup(&self, h: u64, sym: &Symbol, args: &Vec<Term>) -> (r: Option<Term>)
        requires
            self.wf(),
            h == key_hash(*sym, args@),
        ensures
            match r {
                Some(t) => self.contains(t) && self@[t@] == (Node { sym: *sym, args: args@ }),
                None => !self@.contains(Node { sym: *sym, args: args@ }),
            },
    {
        let ghost key = Node { sym: *sym, args: args@ };
        match self.index.get(&h) {
            None => {
                assert forall|i: int| 0 <= i < self@.len() implies self@[i] != key by {
                    assert(self@[i] == self.nodes@[i]@);
                }
                None
            },
            Some(bucket) => {
                let mut k: usize = 0;
                while k < bucket.len()
                    invariant
                        k <= bucket.len(),
                        self.wf(),
                        self.index@.contains_key(h),
                        *bucket == self.index@[h],
                        key == (Node { sym: *sym, args: args@ }),
                        forall|j: int| 0 <= j < k ==> self@[bucket@[j] as int] != key,
                    decreases bucket.len() - k,
                {
                    let i = bucket[k];
                    let data = &self.nodes[i];
                    assert(self@[i as int] == data@);
                    if data.sym == *sym && same_args(&data.args, args) {
                        return Some(Term { idx: i });
                    }
                    k += 1;
                }
                assert forall|i: int| 0 <= i < self@.len() implies self@[i] != key by {
                    assert(self@[i] == self.nodes@[i]@);
                    if self@[i] == key {
                        assert(self.nodes@[i].sym == *sym && self.nodes@[i].args@ == args@);
                        assert(self@.len() == self.nodes.len());
                        assert(bucket@.contains(i as usize));
                        let j = choose|j: int| 0 <= j < bucket@.len() && bucket@[j] == i as usize;
                        assert(self@[bucket@[j] as int] != key);
                    }
                }
                None
            },
        }
    }

    /// The canonical term for `sym` applied to `args`.
    ///
    /// If a node with this symbol and these argument handles is already stored,
    /// its handle is returned and nothing is stored; otherwise the node is
    /// stored at the end and the handle of the new entry is returned. Nothing
    /// that was stored before is ever changed or removed.
    pub fn new_term(&mut self, sym: Symbol, args: Vec<Term>) -> (t: Term)
        requires
            old(self).wf(),
            fits(old(self)@, Node { sym, args: args@ }),
        ensures
            final(self).wf(),
            (final(self)@, t@) == intern(old(self)@, Node { sym, args: args@ }),
            extends(old(self)@, final(self)@),
            final(self).contains(t),
            final(self).node(t) == (Node { sym, args: args@ }),
            forall|u: Term|
                final(self).contains(u) && #[trigger] final(self).node(u) == (Node {
                    sym,
                    args: args@,
                }) ==> u == t,
    {
        let ghost key = Node { sym, args: args@ };
        proof {
            lemma_intern(self@, key);
        }
        let h = hash_key(&sym, &args);
        if let Some(t) = self.lookup(h, &sym, &args) {
            proof {
                lemma_position_unique(self@, key, t@);
            }
            return t;
        }
        let i = self.nodes.len();
        self.nodes.push(TermData { sym, args });
        let mut bucket = match self.index.remove(&h) {
            Some(b) => b,
            None => Vec::new(),
        };
        let ghost before = bucket@;
        bucket.push(i);
        self.index.insert(h, bucket);
        proof {
            assert(self@ =~= old(self)@.push(key));
            lemma_push_canonical(old(self)@, key);
            let listed = self.index@[h]@;
            assert(listed == before.push(i));
            assert(listed[before.len() as int] == i);
            assert forall|j: int| 0 <= j < self.nodes@.len() implies {
                let hj = key_hash(#[trigger] self.nodes@[j].sym, self.nodes@[j].args@);
                self.index@.contains_key(hj) && self.index@[hj]@.contains(j as usize)
            } by {
                let hj = key_hash(self.nodes@[j].sym, self.nodes@[j].args@);
                if j < i {
                    assert(self.nodes@[j] == old(self).nodes@[j]);
                    assert(old(self).index@[hj]@.contains(j as usize));
                    if hj == h {
                        let k = choose|k: int| 0 <= k < before.len() && before[k] == j as usize;
                        assert(listed[k] == j as usize);
                    }
                }
            }
            assert forall|g: u64, k: int|
                self.index@.contains_key(g) && 0 <= k < self.index@[g]@.len() implies (
            #[trigger] self.index@[g]@[k]) < self.nodes@.len() by {
                if g == h {
                    if k < before.len() {
                        assert(before[k] == old(self).index@[h]@[k]);
                    }
                } else {
                    assert(self.index@[g]@[k] == old(self).index@[g]@[k]);
                }
            }
        }
        Term { idx: i }
    }

    /// Whether `t` names a node of this factory. A handle that another factory
    /// issued names a node here as well when its position is small enough, so
    /// handles are to be kept with the factory that issued them.
    #[verifier::when_used_as_spec(spec_contains)]
    pub fn contains(&self, t: Term) -> (r: bool)
        ensures
            r == self.spec_contains(t),
    {
        t.idx < self.nodes.len()
    }

    /// The number of nodes stored.
    pub fn len(&self) -> (n: usize)
        ensures
            n == self@.len(),
    {
        self.nodes.len()
    }
}

impl Term {
    /// The position of the term's node in its factory: the number that
    /// equality, ordering and hashing of handles go by.
    pub fn index(&self) -> (i: usize)
        ensures
            i == self@,
    {
        self.idx
    }

    /// The symbol at the root of the term.
    pub fn sym(&self, factory: &Factory) -> (r: Symbol)
        requires
            factory.contains(*self),
        ensures
            r == factory.node(*self).sym,
    {
        factory.nodes[self.idx].sym
    }

    /// The sort of the term, which is the sort of its symbol.
    pub fn sort(&self, factory: &Factory) -> (r: Sort)
        requires
            factory.contains(*self),
        ensures
            r == factory.node(*self).sym.sort,
    {
        self.sym(factory).sort()
    }

    /// Whether the term is a variable.
    pub fn var(&self, factory: &Factory) -> (r: bool)
        requires
            factory.contains(*self),
        ensures
            r == factory.node(*self).sym.var(),
    {
        self.sym(factory).var()
    }

    /// Whether the term is a name.
    pub fn name(&self, factory: &Factory) -> (r: bool)
        requires
            factory.contains(*self),
        ensures
            r == factory.node(*self).sym.name(),
    {
        self.sym(factory).name()
    }

    /// Whether the term is a function application.
    pub fn fun(&self, factory: &Factory) -> (r: bool)
        requires
            factory.contains(*self),
        ensures
            r == factory.node(*self).sym.fun(),
    {
        self.sym(factory).fun()
    }

    /// The number of arguments of the term: the arity that its symbol
    /// declares, which is also the number of arguments stored.
    pub fn arity(&self, factory: &Factory) -> (r: Arity)
        requires
            factory.wf(),
            factory.contains(*self),
        ensures
            r == factory.node(*self).sym.arity(),
            r == factory.node(*self).args.len(),
    {
        assert(node_ok(factory@, self@));
        self.sym(factory).arity()
    }

    /// The arguments of the term as a slice of the factory's own storage.
    fn arg_slice<'a>(&self, factory: &'a Factory) -> (r: &'a [Term])
        requires
            factory.contains(*self),
        ensures
            r@ == factory.node(*self).args,
    {
        factory.nodes[self.idx].args.as_slice()
    }

    /// An iterator over the arguments of the term, in order.
    pub fn args<'a>(&self, factory: &'a Factory) -> (r: Iter<'a, Term>)
        requires
            factory.contains(*self),
        ensures
            into_iter_elts(r) == factory.node(*self).args,
            IteratorSpec::remaining(&r) == factory.node(*self).args.as_ref(),
            IteratorSpec::decrease(&r) is Some,
            IteratorSpec::initial_value_relation(&r, &r),
    {
        self.arg_slice(factory).iter()
    }

    /// The argument at position `i`.
    pub fn arg<'a>(&self, factory: &'a Factory, i: usize) -> (r: &'a Term)
        requires
            factory.contains(*self),
            i < factory.node(*self).args.len(),
        ensures
            *r == factory.node(*self).args[i as int],
    {
        &factory.nodes[self.idx].args[i]
    }

    /// Whether no variable occurs in the term, at any depth.
    pub fn ground(&self, factory: &Factory) -> (r: bool)
        requires
            factory.wf(),
            factory.contains(*self),
        ensures
            r == factory.tree(*self).ground(),
        decreases self@,
    {
        let sym = self.sym(factory);
        if sym.name() {
            return true;
        }
        if !sym.fun() {
            return false;
        }
        let args = self.arg_slice(factory);
        let ghost tree = factory.tree(*self);
        let mut k: usize = 0;
        while k < args.len()
            invariant
                k <= args.len(),
                factory.wf(),
                factory.contains(*self),
                args@ == factory.node(*self).args,
                tree == factory.tree(*self),
                forall|j: int| 0 <= j < k ==> (#[trigger] tree.kids[j]).ground(),
            decreases args.len() - k,
        {
            assert(node_ok(factory@, self@));
            assert(tree.kids[k as int] == tree_of(factory@, args@[k as int]));
            if !args[k].ground(factory) {
                return false;
            }
            k += 1;
        }
        true
    }

    /// Whether the term is a function applied to names only. Only the
    /// arguments themselves are looked at, not what is below them.
    pub fn primitive(&self, factory: &Factory) -> (r: bool)
        requires
            factory.wf(),
            factory.contains(*self),
        ensures
            r == factory.tree(*self).primitive(),
    {
        if !self.fun(factory) {
            return false;
        }
        let args = self.arg_slice(factory);
        let ghost tree = factory.tree(*self);
        let mut k: usize = 0;
        while k < args.len()
            invariant
                k <= args.len(),
                factory.wf(),
                factory.contains(*self),
                args@ == factory.node(*self).args,
                tree == factory.tree(*self),
                forall|j: int| 0 <= j < k ==> (#[trigger] tree.kids[j]).sym.name(),
            decreases args.len() - k,
        {
            assert(node_ok(factory@, self@));
            assert(tree.kids[k as int] == tree_of(factory@, args@[k as int]));
            if !args[k].name(factory) {
                return false;
            }
            k += 1;
        }
        true
    }

    /// Whether the term is a function applied to names and variables only.
    /// Only the arguments themselves are looked at, not what is below them.
    pub fn quasiprimitive(&self, factory: &Factory) -> (r: bool)
        requires
            factory.wf(),
            factory.contains(*self),
        ensures
            r == factory.tree(*self).quasiprimitive(),
    {
        if !self.fun(factory) {
            return false;
        }
        let args = self.arg_slice(factory);
        let ghost tree = factory.tree(*self);
        let mut k: usize = 0;
        while k < args.len()
            invariant
                k <= args.len(),
                factory.wf(),
                factory.contains(*self),
                args@ == factory.node(*self).args,
                tree == factory.tree(*self),
                forall|j: int|
                    0 <= j < k ==> {
                        ||| (#[trigger] tree.kids[j]).sym.name()
                        ||| tree.kids[j].sym.var()
                    },
            decreases args.len() - k,
        {
            assert(node_ok(factory@, self@));
            assert(tree.kids[k as int] == tree_of(factory@, args@[k as int]));
            if !(args[k].name(factory) || args[k].var(factory)) {
                return false;
            }
            k += 1;
        }
        true
    }

    /// The term itself followed by its arguments, in order; nothing below the
    /// arguments. Every call returns a sequence of its own.
    pub fn terms(&self, factory: &Factory) -> (r: Vec<Term>)
        requires
            factory.contains(*self),
        ensures
            r@ == seq![*self] + factory.node(*self).args,
    {
        let args = self.arg_slice(factory);
        let mut r: Vec<Term> = Vec::new();
        r.push(*self);
        let mut k: usize = 0;
        while k < args.len()
            invariant
                k <= args.len(),
                r@ == seq![*self] + args@.take(k as int),
            decreases args.len() - k,
        {
            r.push(args[k]);
            k += 1;
        }
        r
    }
}

impl Term {
    /// Substitution into `self`, where the factory may already have grown
    /// beyond the store `base` that `theta` answers for.
    fn substitute_from<F: Fn(Term) -> Option<Term>>(
        &self,
        theta: &F,
        factory: &mut Factory,
        Ghost(base): Ghost<Seq<Node>>,
    ) -> (r: Term)
        requires
            old(factory).wf(),
            canonical(base),
            extends(base, old(factory)@),
            in_store(base, *self),
            answers_for(*theta, base),
        ensures
            final(factory).wf(),
            extends(old(factory)@, final(factory)@),
            final(factory).contains(r),
            substitutes(answers(*theta), base, *self, tree_of(final(factory)@, r)),
            forall|j: int|
                old(factory)@.len() <= j < final(factory)@.len() ==> reaches(
                    final(factory)@,
                    r,
                    j,
                ),
            always_matches(answers(*theta), *self) ==> call_ensures(*theta, (*self,), Some(r))
                && in_store(base, r),
            declines(answers(*theta), *self) && base[self@].args.len() == 0 ==> r == *self,
        decreases self@,
    {
        if let Some(r) = theta(*self) {
            proof {
                assert(answers(*theta)(*self, Some(r)));
                lemma_tree_of_extends(base, factory@, r);
            }
            return r;
        }
        assert(node_ok(base, self@));
        let n = self.arity(factory);
        if n == 0 {
            proof {
                lemma_tree_of_extends(base, factory@, *self);
            }
            return *self;
        }
        let sym = self.sym(factory);
        let mut args: Vec<Term> = Vec::new();
        let mut k: usize = 0;
        while k < n as usize
            invariant
                k <= n,
                args@.len() == k,
                factory.wf(),
                canonical(base),
                extends(base, factory@),
                extends(old(factory)@, factory@),
                in_store(base, *self),
                sym == base[self@].sym,
                n == base[self@].args.len(),
                answers_for(*theta, base),
                forall|i: int|
                    0 <= i < k ==> {
                        &&& in_store(factory@, #[trigger] args@[i])
                        &&& substitutes(
                            answers(*theta),
                            base,
                            base[self@].args[i],
                            tree_of(factory@, args@[i]),
                        )
                    },
                forall|j: int|
                    old(factory)@.len() <= j < factory@.len() ==> #[trigger] reaches_from(
                        factory@,
                        args@,
                        j,
                    ),
            decreases n - k,
        {
            assert(node_ok(base, self@));
            let child = *self.arg(factory, k);
            let ghost before = factory@;
            let ghost found = args@;
            let r = child.substitute_from(theta, factory, Ghost(base));
            args.push(r);
            proof {
                assert forall|i: int| 0 <= i < k implies tree_of(factory@, #[trigger] args@[i])
                    == tree_of(before, args@[i]) by {
                    lemma_tree_of_extends(before, factory@, args@[i]);
                }
                assert forall|j: int|
                    old(factory)@.len() <= j < factory@.len() implies #[trigger] reaches_from(
                    factory@,
                    args@,
                    j,
                ) by {
                    if j < before.len() {
                        assert(reaches_from(before, found, j));
                        let i = choose|i: int|
                            0 <= i < found.len() && reaches(before, #[trigger] found[i], j);
                        lemma_reaches_extends(before, factory@, found[i], j);
                        assert(reaches(factory@, args@[i], j));
                    } else {
                        assert(reaches(factory@, args@[k as int], j));
                    }
                }
            }
            k += 1;
        }
        let ghost before = factory@;
        let ghost key = Node { sym, args: args@ };
        let r = factory.new_term(sym, args);
        proof {
            lemma_intern(before, key);
            assert(node_ok(factory@, r@));
            let out = tree_of(factory@, r);
            assert forall|i: int| 0 <= i < base[self@].args.len() implies 0 <= base[self@].args[i]@
                < self@ && substitutes(
                answers(*theta),
                base,
                base[self@].args[i],
                #[trigger] out.kids[i],
            ) by {
                lemma_tree_of_extends(before, factory@, args@[i]);
            }
            assert forall|j: int| old(factory)@.len() <= j < factory@.len() implies reaches(
                factory@,
                r,
                j,
            ) by {
                if j < before.len() {
                    assert(reaches_from(before, key.args, j));
                    let i = choose|i: int|
                        0 <= i < key.args.len() && reaches(before, #[trigger] key.args[i], j);
                    lemma_reaches_extends(before, factory@, key.args[i], j);
                    lemma_reaches_through(factory@, r, i, j);
                }
            }
        }
        r
    }

    /// The term that results from replacing subterms of `self` as `theta`
    /// says.
    ///
    /// `theta` is asked about `self` first. A replacement that it offers is
    /// the result, as it is: nothing below `self` is looked at and nothing is
    /// substituted into the replacement. Where `theta` declines, the result is
    /// the canonical term with the symbol of `self` and, for each argument,
    /// the result of substituting into that argument in the same way.
    ///
    /// Nothing stored before the call changes. What the call stores is the
    /// result and terms below it, so a call whose result was there before
    /// stores nothing. With a `theta` that always declines the result is
    /// `self`.
    pub fn substitute<F: Fn(Term) -> Option<Term>>(&self, theta: F, factory: &mut Factory) -> (r:
        Term)
        requires
            old(factory).wf(),
            old(factory).contains(*self),
            answers_for(theta, old(factory)@),
        ensures
            final(factory).wf(),
            extends(old(factory)@, final(factory)@),
            final(factory).contains(r),
            substitutes(answers(theta), old(factory)@, *self, final(factory).tree(r)),
            forall|j: int|
                old(factory)@.len() <= j < final(factory)@.len() ==> reaches(
                    final(factory)@,
                    r,
                    j,
                ),
            old(factory).contains(r) ==> final(factory)@ == old(factory)@,
            always_matches(answers(theta), *self) ==> call_ensures(theta, (*self,), Some(r))
                && old(factory).contains(r),
            declines(answers(theta), *self) && old(factory).node(*self).args.len() == 0 ==> r
                == *self,
            never_matches(answers(theta), old(factory)@) ==> r == *self,
    {
        let ghost base = factory@;
        let r = self.substitute_from(&theta, factory, Ghost(base));
        proof {
            if in_store(base, r) && base.len() < factory@.len() {
                lemma_reaches_bound(factory@, r, base.len() as int);
            }
            if in_store(base, r) {
            }
            if never_matches(answers(theta), base) {
                law_substitute_identity(answers(theta), base, *self, tree_of(factory@, r));
                lemma_tree_of_extends(base, factory@, *self);
                law_one_node_per_tree(factory@, r, *self);
            }
        }
        r
    }
}

} // verus!

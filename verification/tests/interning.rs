use lela::symbol::Symbol;
use lela::term::{Factory, Term};
use std::collections::hash_map::DefaultHasher;
use std::collections::HashSet;
use std::hash::{Hash, Hasher};

fn hash_of(t: &Term) -> u64 {
    let mut h = DefaultHasher::new();
    t.hash(&mut h);
    h.finish()
}

#[test]
fn new_factory_is_empty() {
    let f = Factory::new();
    assert_eq!(f.len(), 0);
}

#[test]
fn equal_keys_give_one_handle() {
    let mut f = Factory::new();
    let a = f.new_term(Symbol::new_name(1, 1), vec![]);
    let b = f.new_term(Symbol::new_name(2, 1), vec![]);
    let fun = Symbol::new_fun(1, 1, 2);
    let t1 = f.new_term(fun, vec![a, b]);
    let n = f.len();
    let t2 = f.new_term(fun, vec![a, b]);
    assert_eq!(t1, t2);
    assert_eq!(f.len(), n);
    assert_eq!(n, 3);
    assert_eq!(hash_of(&t1), hash_of(&t2));
}

#[test]
fn different_symbol_gives_another_handle() {
    let mut f = Factory::new();
    let a = f.new_term(Symbol::new_name(1, 1), vec![]);
    let t1 = f.new_term(Symbol::new_fun(1, 1, 1), vec![a]);
    let t2 = f.new_term(Symbol::new_fun(2, 1, 1), vec![a]);
    let t3 = f.new_term(Symbol::new_fun(1, 2, 1), vec![a]);
    assert_ne!(t1, t2);
    assert_ne!(t1, t3);
    assert_ne!(t2, t3);
    assert_eq!(f.len(), 4);
}

#[test]
fn different_argument_gives_another_handle() {
    let mut f = Factory::new();
    let a = f.new_term(Symbol::new_name(1, 1), vec![]);
    let b = f.new_term(Symbol::new_name(2, 1), vec![]);
    let fun = Symbol::new_fun(1, 1, 2);
    let ab = f.new_term(fun, vec![a, b]);
    let ba = f.new_term(fun, vec![b, a]);
    let aa = f.new_term(fun, vec![a, a]);
    assert_ne!(ab, ba);
    assert_ne!(ab, aa);
    assert_ne!(ba, aa);
    assert_eq!(f.len(), 5);
}

#[test]
fn name_variable_and_constant_function_are_distinct() {
    let mut f = Factory::new();
    let n = f.new_term(Symbol::new_name(1, 1), vec![]);
    let v = f.new_term(Symbol::new_var(1, 1), vec![]);
    let c = f.new_term(Symbol::new_fun(1, 1, 0), vec![]);
    assert_ne!(n, v);
    assert_ne!(n, c);
    assert_ne!(v, c);
    assert_eq!(f.len(), 3);
}

#[test]
fn handles_stay_canonical_across_later_use() {
    let mut f = Factory::new();
    let x = f.new_term(Symbol::new_var(1, 1), vec![]);
    let a = f.new_term(Symbol::new_name(1, 1), vec![]);
    let g = Symbol::new_fun(1, 1, 1);
    let h = Symbol::new_fun(2, 1, 2);
    let gx = f.new_term(g, vec![x]);
    let hgx = f.new_term(h, vec![gx, x]);
    let theta = |t: Term| if t == x { Some(a) } else { None };
    let r = hgx.substitute(&theta, &mut f);
    for i in 0..50u32 {
        let n = f.new_term(Symbol::new_name(100 + i, 1), vec![]);
        f.new_term(g, vec![n]);
    }
    let n = f.len();
    assert_eq!(f.new_term(Symbol::new_var(1, 1), vec![]), x);
    assert_eq!(f.new_term(Symbol::new_name(1, 1), vec![]), a);
    assert_eq!(f.new_term(g, vec![x]), gx);
    assert_eq!(f.new_term(h, vec![gx, x]), hgx);
    let ga = f.new_term(g, vec![a]);
    assert_eq!(f.new_term(h, vec![ga, a]), r);
    assert_eq!(f.len(), n);
}

#[test]
fn many_terms_are_all_told_apart_and_all_found_again() {
    let mut f = Factory::new();
    let g = Symbol::new_fun(1, 1, 1);
    let h = Symbol::new_fun(2, 1, 2);
    let mut names = Vec::new();
    let mut seen = HashSet::new();
    for i in 0..300u32 {
        let n = f.new_term(Symbol::new_name(i, 1), vec![]);
        assert!(seen.insert(n));
        names.push(n);
    }
    let mut unary = Vec::new();
    for n in names.iter() {
        let t = f.new_term(g, vec![*n]);
        assert!(seen.insert(t));
        unary.push(t);
    }
    let mut binary = Vec::new();
    for i in 0..299 {
        let t = f.new_term(h, vec![names[i], unary[i + 1]]);
        assert!(seen.insert(t));
        binary.push(t);
    }
    assert_eq!(f.len(), 899);
    assert_eq!(seen.len(), 899);
    for (i, n) in names.iter().enumerate() {
        assert_eq!(f.new_term(Symbol::new_name(i as u32, 1), vec![]), *n);
        assert_eq!(f.new_term(g, vec![*n]), unary[i]);
    }
    for i in 0..299 {
        assert_eq!(f.new_term(h, vec![names[i], unary[i + 1]]), binary[i]);
    }
    assert_eq!(f.len(), 899);
}

#[test]
fn handles_are_ordered_by_identity() {
    let mut f = Factory::new();
    let a = f.new_term(Symbol::new_name(9, 1), vec![]);
    let b = f.new_term(Symbol::new_name(1, 1), vec![]);
    let a2 = f.new_term(Symbol::new_name(9, 1), vec![]);
    assert!(a < b);
    assert!(b > a);
    assert!(a <= a2 && a >= a2);
    assert_eq!(a.cmp(&a2), std::cmp::Ordering::Equal);
    assert_eq!(a.cmp(&b), std::cmp::Ordering::Less);
    assert_eq!(b.partial_cmp(&a), Some(std::cmp::Ordering::Greater));
    let mut v = vec![b, a, b, a2];
    v.sort();
    assert_eq!(v, vec![a, a, b, b]);
}

#[test]
fn a_handle_is_a_cheap_copy() {
    let mut f = Factory::new();
    let a = f.new_term(Symbol::new_name(1, 1), vec![]);
    let copy = a;
    let clone = a.clone();
    assert_eq!(a, copy);
    assert_eq!(a, clone);
    assert_eq!(hash_of(&a), hash_of(&copy));
}

#[test]
fn factory_knows_its_own_terms() {
    let mut f = Factory::new();
    let mut other = Factory::new();
    let a = f.new_term(Symbol::new_name(1, 1), vec![]);
    let b = f.new_term(Symbol::new_name(2, 1), vec![]);
    let c = other.new_term(Symbol::new_name(1, 1), vec![]);
    assert!(f.contains(a));
    assert!(f.contains(b));
    assert!(other.contains(c));
    assert!(!other.contains(b));
}

#[test]
fn index_counts_the_nodes_in_the_order_stored() {
    let mut f = Factory::new();
    let a = f.new_term(Symbol::new_name(1, 1), vec![]);
    let b = f.new_term(Symbol::new_name(2, 1), vec![]);
    let g = f.new_term(Symbol::new_fun(1, 1, 2), vec![b, a]);
    let a2 = f.new_term(Symbol::new_name(1, 1), vec![]);
    assert_eq!(a.index(), 0);
    assert_eq!(b.index(), 1);
    assert_eq!(g.index(), 2);
    assert_eq!(a2.index(), 0);
}

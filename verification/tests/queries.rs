use lela::symbol::Symbol;
use lela::term::{Factory, Term};

struct World {
    f: Factory,
    x: Term,
    a: Term,
    b: Term,
    fab: Term,
    fax: Term,
    ga: Term,
    fgab: Term,
    c: Term,
}

fn world() -> World {
    let mut f = Factory::new();
    let fun = Symbol::new_fun(1, 3, 2);
    let g = Symbol::new_fun(2, 3, 1);
    let x = f.new_term(Symbol::new_var(1, 3), vec![]);
    let a = f.new_term(Symbol::new_name(1, 3), vec![]);
    let b = f.new_term(Symbol::new_name(2, 3), vec![]);
    let fab = f.new_term(fun, vec![a, b]);
    let fax = f.new_term(fun, vec![a, x]);
    let ga = f.new_term(g, vec![a]);
    let fgab = f.new_term(fun, vec![ga, b]);
    let c = f.new_term(Symbol::new_fun(3, 3, 0), vec![]);
    World { f, x, a, b, fab, fax, ga, fgab, c }
}

#[test]
fn name_is_ground_and_neither_primitive_nor_quasiprimitive() {
    // Primitive and quasiprimitive hold of function applications only, so a
    // name is ground without being either.
    let w = world();
    assert!(w.a.name(&w.f));
    assert!(!w.a.var(&w.f));
    assert!(!w.a.fun(&w.f));
    assert!(w.a.ground(&w.f));
    assert!(!w.a.primitive(&w.f));
    assert!(!w.a.quasiprimitive(&w.f));
    assert_eq!(w.a.arity(&w.f), 0);
}

#[test]
fn variable_is_not_ground() {
    let w = world();
    assert!(w.x.var(&w.f));
    assert!(!w.x.name(&w.f));
    assert!(!w.x.fun(&w.f));
    assert!(!w.x.ground(&w.f));
    assert!(!w.x.primitive(&w.f));
    assert!(!w.x.quasiprimitive(&w.f));
    assert_eq!(w.x.arity(&w.f), 0);
}

#[test]
fn function_of_names_is_ground_and_primitive() {
    let w = world();
    assert!(w.fab.fun(&w.f));
    assert!(w.fab.ground(&w.f));
    assert!(w.fab.primitive(&w.f));
    assert!(w.fab.quasiprimitive(&w.f));
}

#[test]
fn function_of_name_and_variable_is_quasiprimitive_only() {
    let w = world();
    assert!(w.fax.quasiprimitive(&w.f));
    assert!(!w.fax.ground(&w.f));
    assert!(!w.fax.primitive(&w.f));
}

#[test]
fn nested_function_is_ground_but_not_primitive() {
    let w = world();
    assert!(w.fgab.ground(&w.f));
    assert!(!w.fgab.primitive(&w.f));
    assert!(!w.fgab.quasiprimitive(&w.f));
    assert!(w.ga.primitive(&w.f));
}

#[test]
fn variable_deep_below_makes_a_term_not_ground() {
    let mut w = world();
    let g = Symbol::new_fun(2, 3, 1);
    let gx = w.f.new_term(g, vec![w.x]);
    let ggx = w.f.new_term(g, vec![gx]);
    let t = w.f.new_term(Symbol::new_fun(1, 3, 2), vec![w.a, ggx]);
    assert!(!gx.ground(&w.f));
    assert!(!ggx.ground(&w.f));
    assert!(!t.ground(&w.f));
    assert!(gx.quasiprimitive(&w.f));
    assert!(!ggx.quasiprimitive(&w.f));
}

#[test]
fn function_without_arguments_is_ground_and_primitive() {
    let w = world();
    assert!(w.c.fun(&w.f));
    assert_eq!(w.c.arity(&w.f), 0);
    assert!(w.c.ground(&w.f));
    assert!(w.c.primitive(&w.f));
    assert!(w.c.quasiprimitive(&w.f));
}

#[test]
fn symbol_sort_and_arity_are_those_given() {
    let w = world();
    assert_eq!(w.fab.sym(&w.f), Symbol::new_fun(1, 3, 2));
    assert_eq!(w.fab.sort(&w.f), 3);
    assert_eq!(w.fab.arity(&w.f), 2);
    assert_eq!(w.fab.arity(&w.f), w.fab.sym(&w.f).arity());
    assert_eq!(w.ga.sym(&w.f), Symbol::new_fun(2, 3, 1));
    assert_eq!(w.ga.arity(&w.f), 1);
    assert_eq!(w.a.sym(&w.f), Symbol::new_name(1, 3));
    assert_eq!(w.x.sym(&w.f), Symbol::new_var(1, 3));
}

#[test]
fn arity_is_the_number_of_arguments_of_every_term() {
    let w = world();
    for t in [w.x, w.a, w.b, w.fab, w.fax, w.ga, w.fgab, w.c] {
        assert_eq!(t.arity(&w.f) as usize, t.args(&w.f).count());
        assert_eq!(t.arity(&w.f), t.sym(&w.f).arity());
    }
}

#[test]
fn arguments_come_in_order() {
    let w = world();
    let args: Vec<Term> = w.fgab.args(&w.f).copied().collect();
    assert_eq!(args, vec![w.ga, w.b]);
    assert_eq!(*w.fgab.arg(&w.f, 0), w.ga);
    assert_eq!(*w.fgab.arg(&w.f, 1), w.b);
    assert_eq!(*w.fax.arg(&w.f, 0), w.a);
    assert_eq!(*w.fax.arg(&w.f, 1), w.x);
    assert_eq!(w.a.args(&w.f).count(), 0);
}

#[test]
fn terms_yields_the_term_and_then_its_arguments() {
    let w = world();
    assert_eq!(w.fab.terms(&w.f), vec![w.fab, w.a, w.b]);
    assert_eq!(w.fab.terms(&w.f).len(), 1 + w.fab.arity(&w.f) as usize);
    assert_eq!(w.a.terms(&w.f), vec![w.a]);
}

#[test]
fn terms_does_not_go_below_the_arguments() {
    let w = world();
    assert_eq!(w.fgab.terms(&w.f), vec![w.fgab, w.ga, w.b]);
}

#[test]
fn each_call_of_terms_gives_a_sequence_of_its_own() {
    let w = world();
    let mut first = w.fab.terms(&w.f);
    let second = w.fab.terms(&w.f);
    assert_eq!(first, second);
    first.pop();
    first.push(w.x);
    assert_eq!(second, vec![w.fab, w.a, w.b]);
    assert_eq!(w.fab.terms(&w.f), vec![w.fab, w.a, w.b]);
    let mut it = w.fab.args(&w.f);
    assert_eq!(it.next(), Some(&w.a));
    assert_eq!(w.fab.args(&w.f).next(), Some(&w.a));
    assert_eq!(it.next(), Some(&w.b));
    assert_eq!(it.next(), None);
}

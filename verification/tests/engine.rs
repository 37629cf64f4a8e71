use rugrads::functions::Rule;
use rugrads::iter::{depends_on, relevant_parents, reverse_topology};
use rugrads::utils::{assigning_sum, contains, push_unique};
use rugrads::{Container, Context, Expression, LeafVar, Node, VecJacProduct, Variable};

fn visited(root: &Node<f64, Rule<f64>>, target: usize) -> Vec<usize> {
    let mut pass = reverse_topology(root, target);
    let mut ids = Vec::new();
    loop {
        match pass.next() {
            Some(node) => ids.push(node.index()),
            None => return ids,
        }
    }
}

#[test]
fn variables_are_numbered_in_order_of_creation() {
    let mut context: Context<f64> = Context::new();
    let x = context.create_variable(0.5);
    let y = context.create_variable(0.25);
    assert_eq!(x.inner().0, 0);
    assert_eq!(y.inner().0, 1);
    assert_eq!(context.len(), 2);
    assert_eq!(*x.inner().value(&context), 0.5);
    context.set_variable_value(x, 8.0);
    assert_eq!(*x.inner().value(&context), 8.0);
    assert_eq!(*y.inner().value(&context), 0.25);
}

#[test]
fn node_ids_start_above_the_variables() {
    let mut context: Context<f64> = Context::new();
    let x = context.create_variable(0.5);
    let y = context.create_variable(0.25);
    let f = x * y + x;
    let node = f.eval(&mut context);
    assert_eq!(node.index(), 3);
    assert_eq!(node.parents()[0].index(), 2);
    assert_eq!(node.parents()[1].index(), 0);
    assert_eq!(node.parents()[0].parents()[0].index(), 0);
    assert_eq!(node.parents()[0].parents()[1].index(), 1);
    assert_eq!(*node.value(), 0.625);
}

#[test]
fn leaves_of_their_own_take_an_id_each() {
    let mut context: Context<f64> = Context::new();
    context.create_variable(0.5);
    let a: Node<f64, Rule<f64>> = LeafVar(1.0).eval(&mut context);
    let b: Node<f64, Rule<f64>> = LeafVar(2.0).eval(&mut context);
    assert_eq!(a.index(), 1);
    assert_eq!(b.index(), 2);
    assert_eq!(*b.value(), 2.0);
    assert_eq!(a.vjp(4.0, &b, 0), 4.0);
    let made = Node::new(&mut context, 9.0, vec![a, b], vec![1, 2], Rule::Identity);
    assert_eq!(made.index(), 3);
    assert_eq!(made.progenitors(), &vec![1, 2]);
    let plain: Node<f64, Rule<f64>> = Node::leaf(7, 1.5);
    assert_eq!(plain.index(), 7);
    assert_eq!(plain.parents().len(), 0);
}

#[test]
fn progenitors_hold_every_upstream_id_once() {
    let mut context: Context<f64> = Context::new();
    let x = context.create_variable(0.5);
    let y = context.create_variable(0.25);
    let twice = (x + x).eval(&mut context);
    assert_eq!(twice.progenitors(), &vec![0]);
    let f = (x * y + x).eval(&mut context);
    assert_eq!(f.progenitors(), &vec![3, 0, 1]);
    let again = Node::get_progenitors(f.parents());
    assert_eq!(again, vec![3, 0, 1]);
    let none: Vec<Node<f64, Rule<f64>>> = Vec::new();
    assert_eq!(Node::get_progenitors(&none), Vec::<usize>::new());
}

#[test]
fn relevance_goes_by_id_and_progenitors() {
    let mut context: Context<f64> = Context::new();
    let x = context.create_variable(0.5);
    let y = context.create_variable(0.25);
    let f = (x * y + y).eval(&mut context);
    assert!(depends_on(&f, 0));
    assert!(depends_on(&f, 1));
    assert!(depends_on(&f, 3));
    assert!(!depends_on(&f, 4));
    let kept = relevant_parents(f.parents(), 0);
    let towards_x: Vec<usize> = kept.iter().map(|p| p.index()).collect();
    assert_eq!(towards_x, vec![2]);
    let kept = relevant_parents(f.parents(), 1);
    let towards_y: Vec<usize> = kept.iter().map(|p| p.index()).collect();
    assert_eq!(towards_y, vec![2, 1]);
}

#[test]
fn the_pass_visits_dependents_first_and_the_target_last() {
    let mut context: Context<f64> = Context::new();
    let x = context.create_variable(0.5);
    let y = context.create_variable(0.25);
    let f = (x * y + x * x).eval(&mut context);
    assert_eq!(f.index(), 4);
    assert_eq!(visited(&f, 0), vec![4, 3, 2, 0]);
    assert_eq!(visited(&f, 1), vec![4, 2, 1]);
}

#[test]
fn the_pass_visits_only_the_result_without_the_target() {
    let mut context: Context<f64> = Context::new();
    let x = context.create_variable(0.5);
    let y = context.create_variable(0.25);
    context.create_variable(1.0);
    let f = (x * y).eval(&mut context);
    assert_eq!(visited(&f, 2), vec![3]);
    let leaf: Node<f64, Rule<f64>> = x.eval(&mut context);
    assert_eq!(visited(&leaf, 0), vec![0]);
    assert_eq!(visited(&leaf, 1), vec![0]);
}

#[test]
fn a_finished_pass_stays_finished() {
    let mut context: Context<f64> = Context::new();
    let x = context.create_variable(0.5);
    let f = (x + x).eval(&mut context);
    let mut pass = reverse_topology(&f, 0);
    assert_eq!(pass.next().map(|n| n.index()), Some(1));
    assert_eq!(pass.next().map(|n| n.index()), Some(0));
    assert!(pass.next().is_none());
    assert!(pass.next().is_none());
}

#[test]
fn sums_are_taken_from_the_left() {
    assert_eq!(assigning_sum(&[1.0, 2.0, 3.5]), 6.5);
    assert_eq!(assigning_sum(&[4.25]), 4.25);
    let big = 1e16;
    assert_eq!(assigning_sum(&[big, 1.0, -big]), (big + 1.0) - big);
    assert_eq!(assigning_sum(&[1usize, 2, 3]), 6);
}

#[test]
fn lists_of_ids_stay_free_of_duplicates() {
    let mut ids = vec![3, 1];
    assert!(contains(&ids, 1));
    assert!(!contains(&ids, 2));
    push_unique(&mut ids, 1);
    assert_eq!(ids, vec![3, 1]);
    push_unique(&mut ids, 2);
    assert_eq!(ids, vec![3, 1, 2]);
}

#[test]
fn rules_follow_their_formulas() {
    let node = 0.0;
    let operand = 0.0;
    assert_eq!(Rule::Identity.vjp(2.0, &node, &operand, 5), 2.0);
    assert_eq!(Rule::Negate.vjp(2.0, &node, &operand, 0), -2.0);
    assert_eq!(Rule::Difference.vjp(2.0, &node, &operand, 0), 2.0);
    assert_eq!(Rule::Difference.vjp(2.0, &node, &operand, 1), -2.0);
    assert_eq!(Rule::Product(3.0, 5.0).vjp(2.0, &node, &operand, 0), 10.0);
    assert_eq!(Rule::Product(3.0, 5.0).vjp(2.0, &node, &operand, 1), 6.0);
    assert_eq!(Rule::Quotient(3.0, 4.0).vjp(2.0, &node, &operand, 0), 0.5);
    assert_eq!(Rule::Quotient(3.0, 4.0).vjp(2.0, &node, &operand, 1), -0.375);
    assert_eq!(Rule::Scale(0.25).vjp(2.0, &node, &operand, 0), 0.5);
}

#[test]
fn containers_hand_back_what_they_wrap() {
    let wrapped: Container<f64, Variable> = Container::new(Variable(4));
    assert_eq!(wrapped.inner().0, 4);
    let copy = wrapped;
    assert_eq!(copy.into_inner().0, 4);
    assert_eq!(wrapped.clone().into_inner().0, 4);
}

#[test]
fn exact_sums_do_not_depend_on_the_order() {
    assert_eq!(assigning_sum(&[1usize, 2, 3]), assigning_sum(&[3usize, 1, 2]));
    assert_eq!(assigning_sum(&[0.5, 0.25, 2.0]), assigning_sum(&[2.0, 0.5, 0.25]));
}

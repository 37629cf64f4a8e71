use rugrads::functions::Rule;
use rugrads::testsupport::finite_diff_grad;
use rugrads::{Container, Context, Expression, Gradient, Node, Variable};

struct Sin<X>(X);

struct Cos<X>(X);

fn unary<X: Expression<f64, Rule<f64>>>(
    x: &X,
    c: &mut Context<f64>,
    f: fn(f64) -> f64,
    df: &dyn Fn(f64) -> f64,
) -> Node<f64, Rule<f64>> {
    let x_eval = x.eval(c);
    let parents = vec![x_eval];
    let progenitors = Node::get_progenitors(&parents);
    let v = *parents[0].value();
    Node::new(c, f(v), parents, progenitors, Rule::Scale(df(v)))
}

impl<X: Expression<f64, Rule<f64>>> Expression<f64, Rule<f64>> for Sin<X> {
    fn eval(&self, c: &mut Context<f64>) -> Node<f64, Rule<f64>> {
        unary(&self.0, c, f64::sin, &f64::cos)
    }
}

impl<X: Expression<f64, Rule<f64>>> Expression<f64, Rule<f64>> for Cos<X> {
    fn eval(&self, c: &mut Context<f64>) -> Node<f64, Rule<f64>> {
        unary(&self.0, c, f64::cos, &|x| -f64::sin(x))
    }
}

fn grad_of<E: Expression<f64, Rule<f64>>>(
    gradient: &mut Gradient<f64, E>,
    wrt: Container<f64, Variable>,
) -> Option<f64> {
    gradient.backprop(wrt, 1.0)
}

fn compare_grads<E: Expression<f64, Rule<f64>>>(
    expr: Container<f64, E>,
    mut c: Context<f64>,
    var: Container<f64, Variable>,
    h: f64,
) -> (f64, Option<f64>) {
    let fin_diff_grad = finite_diff_grad(&expr, &mut c, var, h);
    let mut g = Gradient::of(expr, c);
    let auto_grad = grad_of(&mut g, var);
    (fin_diff_grad, auto_grad)
}

fn sin<E>(x: Container<f64, E>) -> Container<f64, Sin<E>> {
    Container::new(Sin(x.into_inner()))
}

fn cos<E>(x: Container<f64, E>) -> Container<f64, Cos<E>> {
    Container::new(Cos(x.into_inner()))
}

#[test]
fn test_basic_sum() {
    let mut context: Context<f64> = Context::new();
    let x = context.create_variable(1.0);
    let f = x + x;

    assert_eq!(*f.eval(&mut context).value(), 2f64);

    let mut grad = Gradient::of(f, context);
    assert_eq!(grad_of(&mut grad, x).unwrap(), 2f64);
}

#[test]
fn test_basic_sin() {
    let mut context: Context<f64> = Context::new();
    let x = context.create_variable(1.0);
    let f = sin(x);

    assert!((*f.eval(&mut context).value() - 0.84147098).abs() < 1e-5);

    let mut grad = Gradient::of(f, context);
    assert!((grad_of(&mut grad, x).unwrap() - 0.540302305).abs() < 1e-5);

    grad.context().set_variable_value(x, 2.0);
    assert!((grad_of(&mut grad, x).unwrap() + 0.416146836).abs() < 1e-5);
}

#[test]
fn test_sum_x_sinx() {
    let mut context: Context<f64> = Context::new();
    let x = context.create_variable(0.5);
    let f = x + sin(x);

    assert!((*f.eval(&mut context).value() - 0.979425538f64).abs() < 1e-5);

    let mut grad = Gradient::of(f, context);
    assert!((grad_of(&mut grad, x).unwrap() - 1.87758256).abs() < 1e-5);
}

#[test]
fn test_multi_var() {
    let mut context: Context<f64> = Context::new();
    let x = context.create_variable(0.5);
    let y = context.create_variable(1.0);
    let f = x * y;

    assert!((*f.eval(&mut context).value() - 0.5).abs() < 1e-5);

    let mut grad = Gradient::of(f, context);
    assert!((grad_of(&mut grad, x).unwrap() - 1.0) < 1e-5);
    assert!((grad_of(&mut grad, y).unwrap() - 0.5) < 1e-5);
}

#[test]
fn test_grad_twice() {
    let mut context: Context<f64> = Context::new();
    let x = context.create_variable(0.5);
    let y = context.create_variable(0.3);

    let f = y * sin(x) + cos(y);
    let mut grad = Gradient::of(f, context);

    let g1 = grad_of(&mut grad, x).unwrap();
    let g2 = grad_of(&mut grad, x).unwrap();

    assert!((g1 - g2).abs() == 0f64)
}

#[test]
fn test_add_op() {
    let mut c: Context<f64> = Context::new();
    let x = c.create_variable(1.0);
    let y = c.create_variable(1.5);

    let f = x + y;
    assert!((*f.eval(&mut c).value() - 2.5).abs() < 1e-5);
    let mut g = Gradient::of(f, c);

    assert!((grad_of(&mut g, x).unwrap() - 1.0).abs() < 1e-5);
    assert!((grad_of(&mut g, y).unwrap() - 1.0).abs() < 1e-5);
}

#[test]
fn test_mul_op() {
    let mut c: Context<f64> = Context::new();
    let x = c.create_variable(1.0);
    let y = c.create_variable(1.5);

    let f = x * y;
    assert!((*f.eval(&mut c).value() - 1.5).abs() < 1e-5);
    let mut g = Gradient::of(f, c);

    assert!((grad_of(&mut g, x).unwrap() - 1.5).abs() < 1e-5);
    assert!((grad_of(&mut g, y).unwrap() - 1.0).abs() < 1e-5);
}

#[test]
fn test_div_op() {
    let mut c: Context<f64> = Context::new();
    let x = c.create_variable(1.0);
    let y = c.create_variable(1.5);

    let f = x / y;
    assert!((*f.eval(&mut c).value() - f64::recip(1.5)).abs() < 1e-5);
    let mut g = Gradient::of(f, c);

    assert!((grad_of(&mut g, x).unwrap() - f64::recip(1.5)).abs() < 1e-5);
    assert!((grad_of(&mut g, y).unwrap() + f64::recip(2.25)).abs() < 1e-5);
}

#[test]
fn test_sub_op() {
    let mut c: Context<f64> = Context::new();
    let x = c.create_variable(1.0);
    let y = c.create_variable(1.5);

    let f = x - y;
    assert!((*f.eval(&mut c).value() + 0.5).abs() < 1e-5);
    let mut g = Gradient::of(f, c);

    assert!((grad_of(&mut g, x).unwrap() - 1.0).abs() < 1e-5);
    assert!((grad_of(&mut g, y).unwrap() + 1.0).abs() < 1e-5);
}

#[test]
fn test_neg_op() {
    let mut c: Context<f64> = Context::new();
    let x = c.create_variable(1.5);

    let f = -x;
    assert!((*f.eval(&mut c).value() + 1.5).abs() < 1e-5);
    let mut g = Gradient::of(f, c);
    assert!((grad_of(&mut g, x).unwrap() + 1.0).abs() < 1e-5);
}

#[test]
fn test_linear_grad_compare() {
    let mut context: Context<f64> = Context::new();
    let x = context.create_variable(0.5);
    let y = context.create_variable(3.0);

    let f = x * y;

    let (findiff, autodiff) = compare_grads(f, context, x, 0.01);
    assert!((findiff - autodiff.unwrap()).abs() < 1e-8);
}

#[test]
fn test_sin_func_grad_compare() {
    let mut context: Context<f64> = Context::new();
    let x = context.create_variable(0.5);
    let y = context.create_variable(3.0);

    let f = x * y + cos(y) * sin(x);

    let (findiff, autodiff) = compare_grads(f, context, x, 1e-8);
    println!("{}", (findiff - autodiff.unwrap()).abs());
    assert!((findiff - autodiff.unwrap()).abs() < 1e-7);
}

#[test]
fn composite_expression_has_the_analytic_gradients() {
    let mut context: Context<f64> = Context::new();
    let x = context.create_variable(0.5);
    let y = context.create_variable(0.3);

    let f = y * sin(x) + cos(y);
    assert!((*f.eval(&mut context).value() - (0.3 * f64::sin(0.5) + f64::cos(0.3))).abs() < 1e-12);

    let mut grad = Gradient::of(f, context);
    assert!((grad_of(&mut grad, x).unwrap() - 0.3 * f64::cos(0.5)).abs() < 1e-12);
    assert!((grad_of(&mut grad, y).unwrap() - (f64::sin(0.5) - f64::sin(0.3))).abs() < 1e-12);
}

#[test]
fn product_rule_gives_the_other_factor() {
    let mut context: Context<f64> = Context::new();
    let x = context.create_variable(0.5);
    let y = context.create_variable(1.0);
    let mut grad = Gradient::of(x * y, context);
    assert_eq!(grad_of(&mut grad, x), Some(1.0));
    assert_eq!(grad_of(&mut grad, y), Some(0.5));
}

#[test]
fn quotient_rule_is_exact_on_dyadic_values() {
    let mut context: Context<f64> = Context::new();
    let x = context.create_variable(3.0);
    let y = context.create_variable(2.0);
    let mut grad = Gradient::of(x / y, context);
    assert_eq!(grad_of(&mut grad, x), Some(0.5));
    assert_eq!(grad_of(&mut grad, y), Some(-0.75));
}

#[test]
fn chain_rule_multiplies_by_the_derivative_at_the_operand() {
    let mut context: Context<f64> = Context::new();
    let x = context.create_variable(0.5);
    let mut grad = Gradient::of(sin(x), context);
    assert_eq!(grad.backprop(x, 1.0), Some(f64::cos(0.5)));
    assert!((grad_of(&mut grad, x).unwrap() - 0.8776).abs() < 1e-4);
    let mut nested = Gradient::of(sin(cos(x)), {
        let mut c: Context<f64> = Context::new();
        c.create_variable(0.5);
        c
    });
    let expected = f64::cos(f64::cos(0.5)) * -f64::sin(0.5);
    assert!((grad_of(&mut nested, x).unwrap() - expected).abs() < 1e-12);
}

#[test]
fn mutation_is_seen_by_the_next_pass() {
    let mut context: Context<f64> = Context::new();
    let x = context.create_variable(2.0);
    let y = context.create_variable(5.0);
    let f = x * x * y;
    let mut grad = Gradient::of(f, context);
    assert_eq!(grad_of(&mut grad, x), Some(20.0));
    assert_eq!(grad_of(&mut grad, y), Some(4.0));

    grad.context().set_variable_value(x, 3.0);
    assert_eq!(grad_of(&mut grad, x), Some(30.0));
    assert_eq!(grad_of(&mut grad, y), Some(9.0));

    *grad.get_mut(y) = 1.0;
    assert_eq!(*grad.get(y), 1.0);
    assert_eq!(grad_of(&mut grad, x), Some(6.0));
}

#[test]
fn scaling_the_seed_scales_the_gradient() {
    let mut context: Context<f64> = Context::new();
    let x = context.create_variable(0.5);
    let y = context.create_variable(1.0);
    let mut grad = Gradient::of(x * y + x, context);
    let unit = grad.backprop(x, 1.0).unwrap();
    assert_eq!(unit, 2.0);
    assert_eq!(grad.backprop(x, 3.0), Some(3.0 * unit));
    assert_eq!(grad.backprop(x, -0.25), Some(-0.25 * unit));
}

#[test]
fn a_variable_outside_the_expression_has_no_gradient() {
    let mut context: Context<f64> = Context::new();
    let x = context.create_variable(0.5);
    let y = context.create_variable(1.0);
    let z = context.create_variable(4.0);
    let mut grad = Gradient::of(x * y, context);
    assert_eq!(grad_of(&mut grad, z), None);
    assert_eq!(grad.backprop(z, 7.0), None);
    assert_eq!(grad_of(&mut grad, x), Some(1.0));
}

#[test]
fn a_variable_of_another_context_has_no_gradient() {
    let mut other: Context<f64> = Context::new();
    other.create_variable(0.0);
    other.create_variable(0.0);
    let foreign = other.create_variable(0.0);
    let far = {
        other.create_variable(0.0);
        other.create_variable(0.0)
    };

    let mut context: Context<f64> = Context::new();
    let x = context.create_variable(0.5);
    let y = context.create_variable(1.0);
    let mut grad = Gradient::of(x * y, context);
    assert_eq!(grad_of(&mut grad, foreign), None);
    assert_eq!(grad_of(&mut grad, far), None);
}

#[test]
fn the_expression_itself_as_target_gets_the_seed() {
    let mut context: Context<f64> = Context::new();
    let x = context.create_variable(0.5);
    let node: Node<f64, Rule<f64>> = x.eval(&mut context);
    assert_eq!(node.index(), 0);
    assert_eq!(node.parents().len(), 0);
    assert_eq!(node.progenitors().len(), 0);
    let mut grad: Gradient<f64, _> = Gradient::of(x, context);
    assert_eq!(grad.backprop::<Rule<f64>>(x, 2.5), Some(2.5));
    assert_eq!(grad.backprop::<Rule<f64>>(x, 1.0), Some(1.0));
}

#[test]
fn every_occurrence_of_a_variable_contributes() {
    let mut context: Context<f64> = Context::new();
    let x = context.create_variable(1.0);
    let f = x + x + x * x;
    assert_eq!(*f.eval(&mut context).value(), 3.0);
    let mut grad = Gradient::of(f, context);
    assert_eq!(grad_of(&mut grad, x), Some(4.0));
}

#[test]
fn difference_and_negation_hand_on_signed_gradients() {
    let mut context: Context<f64> = Context::new();
    let x = context.create_variable(1.0);
    let y = context.create_variable(1.5);
    let f = -(x - y) - y;
    assert_eq!(*f.eval(&mut context).value(), -1.0);
    let mut grad = Gradient::of(f, context);
    assert_eq!(grad_of(&mut grad, x), Some(-1.0));
    assert_eq!(grad_of(&mut grad, y), Some(0.0));
}

use rugrads::functions;
use rugrads::functions::Rule;
use rugrads::{Context, Expression, LeafVar, Node};

struct Sin<X>(X);

struct Cos<X>(X);

struct Exp<X>(X);

struct Ln<X>(X);

struct Powf<X>(X, f64);

fn unary<X: Expression<f64, Rule<f64>>>(
    x: &X,
    c: &mut Context<f64>,
    f: &dyn Fn(f64) -> f64,
    df: &dyn Fn(f64) -> f64,
) -> Node<f64, Rule<f64>> {
    let x_eval = x.eval(c);
    let parents = vec![x_eval];
    let progenitors = Node::get_progenitors(&parents);
    let v = *parents[0].value();
    Node::new(c, f(v), parents, progenitors, Rule::Scale(df(v)))
}

impl<X: Expression<f64, Rule<f64>>> Expression<f64, Rule<f64>> for Sin<X> {
    fn eval(&self, c: &mut Context<f64>) -> Node<f64, Rule<f64>> {
        unary(&self.0, c, &f64::sin, &f64::cos)
    }
}

impl<X: Expression<f64, Rule<f64>>> Expression<f64, Rule<f64>> for Cos<X> {
    fn eval(&self, c: &mut Context<f64>) -> Node<f64, Rule<f64>> {
        unary(&self.0, c, &f64::cos, &|x| -f64::sin(x))
    }
}

impl<X: Expression<f64, Rule<f64>>> Expression<f64, Rule<f64>> for Exp<X> {
    fn eval(&self, c: &mut Context<f64>) -> Node<f64, Rule<f64>> {
        unary(&self.0, c, &f64::exp, &f64::exp)
    }
}

impl<X: Expression<f64, Rule<f64>>> Expression<f64, Rule<f64>> for Ln<X> {
    fn eval(&self, c: &mut Context<f64>) -> Node<f64, Rule<f64>> {
        unary(&self.0, c, &f64::ln, &f64::recip)
    }
}

impl<X: Expression<f64, Rule<f64>>> Expression<f64, Rule<f64>> for Powf<X> {
    fn eval(&self, c: &mut Context<f64>) -> Node<f64, Rule<f64>> {
        let n = self.1;
        unary(&self.0, c, &|x| f64::powf(x, n), &|x| n * f64::powf(x, n - 1f64))
    }
}

#[test]
fn functions_test_add() {
    let mut c: Context<f64> = Context::new();
    let f = functions::Add::new(LeafVar(1.0), LeafVar(1.0));
    let node = f.eval(&mut c);
    let x = &node.parents()[0];
    assert!((*node.value() - 2.0).abs() < 1e-5);
    assert!((node.vjp(1.0, x, 0) - 1.0).abs() < 1e-5);
}

#[test]
fn functions_test_mul() {
    let mut c: Context<f64> = Context::new();
    let f = functions::Mul::new(LeafVar(0.5), LeafVar(0.3));
    let node = f.eval(&mut c);
    let x = &node.parents()[0];
    assert!((*node.value() - 0.5 * 0.3).abs() < 1e-5);
    assert!((node.vjp(2.0, x, 0) - 0.6).abs() < 1e-5);
    assert!((node.vjp(3.0, x, 1) - 1.5).abs() < 1e-5);
}

#[test]
fn functions_test_sin() {
    let mut c: Context<f64> = Context::new();
    let f = Sin(LeafVar(0.5));
    let node = f.eval(&mut c);
    let x = &node.parents()[0];
    assert!((*node.value() - f64::sin(0.5)).abs() < 1e-5);
    assert!((node.vjp(1.0, x, 0) - f64::cos(0.5)).abs() < 1e-5);
}

#[test]
fn functions_test_cos() {
    let mut c: Context<f64> = Context::new();
    let f = Cos(LeafVar(0.5));
    let node = f.eval(&mut c);
    let x = &node.parents()[0];
    assert!((*node.value() - f64::cos(0.5)).abs() < 1e-5);
    assert!((node.vjp(1.0, x, 0) + f64::sin(0.5)).abs() < 1e-5);
}

#[test]
fn functions_test_exp() {
    let mut c: Context<f64> = Context::new();
    let f = Exp(LeafVar(0.5));
    let node = f.eval(&mut c);
    let x = &node.parents()[0];
    assert!((*node.value() - f64::exp(0.5)).abs() < 1e-5);
    assert!((node.vjp(1.0, x, 0) - f64::exp(0.5)).abs() < 1e-5);
}

#[test]
fn functions_test_ln() {
    let mut c: Context<f64> = Context::new();
    let f = Ln(LeafVar(0.5));
    let node = f.eval(&mut c);
    let x = &node.parents()[0];
    assert!((*node.value() - f64::ln(0.5)).abs() < 1e-5);
    assert!((node.vjp(1.0, x, 0) - f64::recip(0.5)).abs() < 1e-5);
}

#[test]
fn functions_test_powf_integer() {
    let mut c: Context<f64> = Context::new();
    let f = Powf(LeafVar(3.0), 2.0);
    let node = f.eval(&mut c);
    let x = &node.parents()[0];
    assert!((*node.value() - f64::powf(3.0, 2.0)).abs() < 1e-5);
    assert!((node.vjp(1.0, x, 0) - 6.0).abs() < 1e-5);
}

#[test]
fn functions_test_powf_neg_non_int() {
    let mut c: Context<f64> = Context::new();
    let f = Powf(LeafVar(3.0), -1.3);
    let node = f.eval(&mut c);
    let x = &node.parents()[0];
    assert!((*node.value() - f64::powf(3.0, -1.3)).abs() < 1e-5);
    assert!((node.vjp(1.0, x, 0) + 1.3 * f64::powf(3.0, -2.3)).abs() < 1e-5);
}

#[test]
fn ext_test_add() {
    let mut c: Context<f64> = Context::new();
    let f = functions::Add::new(LeafVar(1.0), LeafVar(1.0));
    let node = f.eval(&mut c);
    let x = &node.parents()[0];
    assert!((*node.value() - 2.0).abs() < 1e-5);
    assert!((node.vjp(1.0, x, 0) - 1.0).abs() < 1e-5);
}

#[test]
fn ext_test_mul() {
    let mut c: Context<f64> = Context::new();
    let f = functions::Mul::new(LeafVar(0.5), LeafVar(0.3));
    let node = f.eval(&mut c);
    let x = &node.parents()[0];
    assert!((*node.value() - 0.5 * 0.3).abs() < 1e-5);
    assert!((node.vjp(2.0, x, 0) - 0.6).abs() < 1e-5);
    assert!((node.vjp(3.0, x, 1) - 1.5).abs() < 1e-5);
}

#[test]
fn ext_test_sin() {
    let mut c: Context<f64> = Context::new();
    let f = Sin(LeafVar(0.5));
    let node = f.eval(&mut c);
    let x = &node.parents()[0];
    assert!((*node.value() - f64::sin(0.5)).abs() < 1e-5);
    assert!((node.vjp(1.0, x, 0) - f64::cos(0.5)).abs() < 1e-5);
}

#[test]
fn ext_test_cos() {
    let mut c: Context<f64> = Context::new();
    let f = Cos(LeafVar(0.5));
    let node = f.eval(&mut c);
    let x = &node.parents()[0];
    assert!((*node.value() - f64::cos(0.5)).abs() < 1e-5);
    assert!((node.vjp(1.0, x, 0) + f64::sin(0.5)).abs() < 1e-5);
}

#[test]
fn ext_test_exp() {
    let mut c: Context<f64> = Context::new();
    let f = Exp(LeafVar(0.5));
    let node = f.eval(&mut c);
    let x = &node.parents()[0];
    assert!((*node.value() - f64::exp(0.5)).abs() < 1e-5);
    assert!((node.vjp(1.0, x, 0) - f64::exp(0.5)).abs() < 1e-5);
}

#[test]
fn ext_test_ln() {
    let mut c: Context<f64> = Context::new();
    let f = Ln(LeafVar(0.5));
    let node = f.eval(&mut c);
    let x = &node.parents()[0];
    assert!((*node.value() - f64::ln(0.5)).abs() < 1e-5);
    assert!((node.vjp(1.0, x, 0) - f64::recip(0.5)).abs() < 1e-5);
}

#[test]
fn ext_test_powf_integer() {
    let mut c: Context<f64> = Context::new();
    let f = Powf(LeafVar(3.0), 2.0);
    let node = f.eval(&mut c);
    let x = &node.parents()[0];
    assert!((*node.value() - f64::powf(3.0, 2.0)).abs() < 1e-5);
    assert!((node.vjp(1.0, x, 0) - 6.0).abs() < 1e-5);
}

#[test]
fn ext_test_powf_neg_non_int() {
    let mut c: Context<f64> = Context::new();
    let f = Powf(LeafVar(3.0), -1.3);
    let node = f.eval(&mut c);
    let x = &node.parents()[0];
    assert!((*node.value() - f64::powf(3.0, -1.3)).abs() < 1e-5);
    assert!((node.vjp(1.0, x, 0) + 1.3 * f64::powf(3.0, -2.3)).abs() < 1e-5);
}

#[test]
fn float_test_add() {
    let mut c: Context<f64> = Context::new();
    let f = functions::Add::new(LeafVar(1.0), LeafVar(1.0));
    let node = f.eval(&mut c);
    let x = &node.parents()[0];
    assert!((*node.value() - 2.0).abs() < 1e-5);
    assert!((node.vjp(1.0, x, 0) - 1.0).abs() < 1e-5);
}

#[test]
fn float_test_mul() {
    let mut c: Context<f64> = Context::new();
    let f = functions::Mul::new(LeafVar(0.5), LeafVar(0.3));
    let node = f.eval(&mut c);
    let x = &node.parents()[0];
    assert!((*node.value() - 0.5 * 0.3).abs() < 1e-5);
    assert!((node.vjp(2.0, x, 0) - 0.6).abs() < 1e-5);
    assert!((node.vjp(3.0, x, 1) - 1.5).abs() < 1e-5);
}

#[test]
fn float_test_sin() {
    let mut c: Context<f64> = Context::new();
    let f = Sin(LeafVar(0.5));
    let node = f.eval(&mut c);
    let x = &node.parents()[0];
    assert!((*node.value() - f64::sin(0.5)).abs() < 1e-5);
    assert!((node.vjp(1.0, x, 0) - f64::cos(0.5)).abs() < 1e-5);
}

#[test]
fn float_test_cos() {
    let mut c: Context<f64> = Context::new();
    let f = Cos(LeafVar(0.5));
    let node = f.eval(&mut c);
    let x = &node.parents()[0];
    assert!((*node.value() - f64::cos(0.5)).abs() < 1e-5);
    assert!((node.vjp(1.0, x, 0) + f64::sin(0.5)).abs() < 1e-5);
}

#[test]
fn float_test_exp() {
    let mut c: Context<f64> = Context::new();
    let f = Exp(LeafVar(0.5));
    let node = f.eval(&mut c);
    let x = &node.parents()[0];
    assert!((*node.value() - f64::exp(0.5)).abs() < 1e-5);
    assert!((node.vjp(1.0, x, 0) - f64::exp(0.5)).abs() < 1e-5);
}

#[test]
fn float_test_ln() {
    let mut c: Context<f64> = Context::new();
    let f = Ln(LeafVar(0.5));
    let node = f.eval(&mut c);
    let x = &node.parents()[0];
    assert!((*node.value() - f64::ln(0.5)).abs() < 1e-5);
    assert!((node.vjp(1.0, x, 0) - f64::recip(0.5)).abs() < 1e-5);
}

#[test]
fn float_test_powf_integer() {
    let mut c: Context<f64> = Context::new();
    let f = Powf(LeafVar(3.0), 2.0);
    let node = f.eval(&mut c);
    let x = &node.parents()[0];
    assert!((*node.value() - f64::powf(3.0, 2.0)).abs() < 1e-5);
    assert!((node.vjp(1.0, x, 0) - 6.0).abs() < 1e-5);
}

#[test]
fn float_test_powf_neg_non_int() {
    let mut c: Context<f64> = Context::new();
    let f = Powf(LeafVar(3.0), -1.3);
    let node = f.eval(&mut c);
    let x = &node.parents()[0];
    assert!((*node.value() - f64::powf(3.0, -1.3)).abs() < 1e-5);
    assert!((node.vjp(1.0, x, 0) + 1.3 * f64::powf(3.0, -2.3)).abs() < 1e-5);
}


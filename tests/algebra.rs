use uiua_algebra::calculus::{algebraic_inverse, derivative, integral};
use uiua_algebra::editor_app::UiuaEditorApp;
use uiua_algebra::expr::{cmp_exprs, cmp_terms, copy_expr, Base, Expr, Term};
use uiua_algebra::lower::expr_to_node;
use uiua_algebra::interp::{analyze, AlgebraError};
use uiua_algebra::ir::{Assembly, CustomInverse, Datum, Modifier, Node, Primitive, SigNode, Value};
use uiua_algebra::scalar::{Op1, Op2, Order, Probe, Scalar};

#[derive(Clone, Copy, Debug, PartialEq)]
struct C {
    re: f64,
    im: f64,
}

fn c(re: f64, im: f64) -> C {
    C { re, im }
}

fn r(x: f64) -> C {
    c(x, 0.0)
}

impl C {
    fn abs(self) -> f64 {
        self.re.hypot(self.im)
    }
    fn arg(self) -> f64 {
        self.im.atan2(self.re)
    }
    fn polar(m: f64, t: f64) -> C {
        c(m * t.cos(), m * t.sin())
    }
    fn mul(self, o: C) -> C {
        c(self.re * o.re - self.im * o.im, self.re * o.im + self.im * o.re)
    }
    fn div(self, o: C) -> C {
        let d = o.re * o.re + o.im * o.im;
        c((self.re * o.re + self.im * o.im) / d, (self.im * o.re - self.re * o.im) / d)
    }
}

fn total(a: f64, b: f64) -> Order {
    match a.partial_cmp(&b) {
        Some(std::cmp::Ordering::Less) => Order::Less,
        Some(std::cmp::Ordering::Equal) => Order::Equal,
        Some(std::cmp::Ordering::Greater) => Order::Greater,
        None => match (a.is_nan(), b.is_nan()) {
            (false, true) => Order::Less,
            (true, false) => Order::Greater,
            _ => Order::Equal,
        },
    }
}

impl Scalar for C {

    fn apply1(op: Op1, a: Self) -> Self {
        Self::op1(op, a)
    }
    fn apply2(op: Op2, a: Self, b: Self) -> Self {
        Self::op2(op, a, b)
    }
    fn holds(p: Probe, a: Self) -> bool {
        Self::probe(p, a)
    }
    fn of_int(n: i64) -> Self {
        Self::from_int(n)
    }
    fn unit_i() -> Self {
        Self::imaginary_unit()
    }
    fn nan_value() -> Self {
        Self::not_a_number()
    }
    fn real_of(a: Self) -> Option<Self> {
        <Self as Scalar>::into_real(a)
    }
    fn compare(a: Self, b: Self) -> Order {
        Self::cmp_total(a, b)
    }
    fn op1(op: Op1, a: C) -> C {
        match op {
            Op1::Neg => c(-a.re, -a.im),
            Op1::Sqrt => {
                if a.im == 0.0 && a.re >= 0.0 {
                    r(a.re.sqrt())
                } else {
                    C::polar(a.abs().sqrt(), a.arg() / 2.0)
                }
            }
            Op1::Recip => r(1.0).div(a),
        }
    }
    fn op2(op: Op2, a: C, b: C) -> C {
        match op {
            Op2::Add => c(a.re + b.re, a.im + b.im),
            Op2::Sub => c(a.re - b.re, a.im - b.im),
            Op2::Mul => a.mul(b),
            Op2::Div => a.div(b),
            Op2::Powf => {
                if a.im == 0.0 && a.re >= 0.0 {
                    r(a.re.powf(b.re))
                } else {
                    C::polar(a.abs().powf(b.re), a.arg() * b.re)
                }
            }
            Op2::Log => c(a.abs().ln() / b.re.ln(), a.arg() / b.re.ln()),
        }
    }
    fn probe(p: Probe, a: C) -> bool {
        match p {
            Probe::IsZero => a.re == 0.0 && a.im == 0.0,
            Probe::IsOne => a.re == 1.0 && a.im == 0.0,
            Probe::AbsAboveOne => a.abs() > 1.0,
        }
    }
    fn from_int(n: i64) -> C {
        r(n as f64)
    }
    fn imaginary_unit() -> C {
        c(0.0, 1.0)
    }
    fn not_a_number() -> C {
        r(f64::NAN)
    }
    fn into_real(a: C) -> Option<C> {
        if a.im == 0.0 {
            Some(r(a.re))
        } else {
            None
        }
    }
    fn cmp_total(a: C, b: C) -> Order {
        match total(a.re, b.re) {
            Order::Equal => total(a.im, b.im),
            o => o,
        }
    }
}

fn prim(p: Primitive) -> Node<C> {
    Node::Prim(p, 0)
}

fn num(x: f64) -> Node<C> {
    Node::Push(Value { rank: 0, first: Datum::Num(r(x)) })
}

fn sig(node: Node<C>, args: usize) -> SigNode<C> {
    SigNode { node, args, outputs: 1 }
}

fn prog() -> Assembly<C> {
    Assembly { functions: Vec::new(), spans: vec![0] }
}

fn binary(stack: &mut Vec<C>, f: impl Fn(C, C) -> C) {
    let a = stack.pop().expect("operand");
    let b = stack.pop().expect("operand");
    stack.push(f(b, a));
}

/// Runs code on a stack of numbers.
fn eval(node: &Node<C>, stack: &mut Vec<C>) {
    match node {
        Node::Run(v) => v.iter().for_each(|n| eval(n, stack)),
        Node::Push(v) => match v.first {
            Datum::Num(x) | Datum::Complex(x) => stack.push(x),
            Datum::Byte(b) => stack.push(r(b as f64)),
            _ => panic!("not a number"),
        },
        Node::Prim(p, _) => match p {
            Primitive::Identity => {}
            Primitive::Pop => {
                stack.pop();
            }
            Primitive::Dup => {
                let a = *stack.last().unwrap();
                stack.push(a);
            }
            Primitive::Flip => {
                let a = stack.pop().unwrap();
                let b = stack.pop().unwrap();
                stack.push(a);
                stack.push(b);
            }
            Primitive::Over => {
                let a = stack.pop().unwrap();
                let b = stack.pop().unwrap();
                stack.push(b);
                stack.push(a);
                stack.push(b);
            }
            Primitive::Neg => {
                let a = stack.pop().unwrap();
                stack.push(C::op1(Op1::Neg, a));
            }
            Primitive::Not => {
                let a = stack.pop().unwrap();
                stack.push(C::op2(Op2::Sub, r(1.0), a));
            }
            Primitive::Sqrt => {
                let a = stack.pop().unwrap();
                stack.push(C::op1(Op1::Sqrt, a));
            }
            Primitive::Add => binary(stack, |b, a| C::op2(Op2::Add, b, a)),
            Primitive::Sub => binary(stack, |b, a| C::op2(Op2::Sub, b, a)),
            Primitive::Mul => binary(stack, |b, a| C::op2(Op2::Mul, b, a)),
            Primitive::Div => binary(stack, |b, a| C::op2(Op2::Div, b, a)),
            Primitive::Pow => binary(stack, |b, a| C::op2(Op2::Powf, b, a)),
            Primitive::Max => binary(stack, |b, a| r(b.re.max(a.re))),
            other => panic!("cannot evaluate {other:?}"),
        },
        Node::Mod(Modifier::On, ops, _) => {
            let a = *stack.last().unwrap();
            eval(&ops[0].node, stack);
            stack.push(a);
        }
        Node::Mod(Modifier::Dip, ops, _) => {
            let a = stack.pop().unwrap();
            eval(&ops[0].node, stack);
            stack.push(a);
        }
        _ => panic!("cannot evaluate this node"),
    }
}

fn apply(node: &Node<C>, x: f64) -> f64 {
    let mut stack = vec![r(x)];
    eval(node, &mut stack);
    assert_eq!(stack.len(), 1);
    stack[0].re
}

fn apply_all(nodes: &[Node<C>], x: f64) -> f64 {
    let mut stack = vec![r(x)];
    for n in nodes {
        eval(n, &mut stack);
    }
    assert_eq!(stack.len(), 1);
    stack[0].re
}

fn close(a: f64, b: f64) -> bool {
    (a - b).abs() < 1e-9
}

fn is_num(n: &Node<C>, x: f64) -> bool {
    matches!(n, Node::Push(Value { rank: 0, first: Datum::Num(v) }) if v.re == x && v.im == 0.0)
}

fn is_prim(n: &Node<C>, p: &str) -> bool {
    matches!(n, Node::Prim(q, _) if format!("{q:?}") == p)
}

fn children(n: &Node<C>) -> &Vec<Node<C>> {
    match n {
        Node::Run(v) => v,
        _ => panic!("expected a sequence"),
    }
}

#[test]
fn negate_then_add_three_inverts_to_linear() {
    let nodes = vec![prim(Primitive::Neg), num(3.0), prim(Primitive::Add)];
    let inv = algebraic_inverse(&nodes, &prog()).expect("invertible");
    let code = children(&inv);
    assert_eq!(code.len(), 4);
    assert!(is_num(&code[0], 3.0));
    assert!(is_prim(&code[1], "Sub"));
    assert!(is_num(&code[2], -1.0));
    assert!(is_prim(&code[3], "Div"));
    assert!(close(apply(&inv, 5.0), -2.0));
    assert!(close(apply_all(&nodes, -2.0), 5.0));
}

#[test]
fn square_by_dup_inverts_to_root_and_differentiates_to_double() {
    let nodes = vec![prim(Primitive::Dup), prim(Primitive::Mul)];
    let inv = algebraic_inverse(&nodes, &prog()).expect("invertible");
    let code = children(&inv);
    assert_eq!(code.len(), 5);
    assert!(is_num(&code[0], 0.0));
    assert!(is_prim(&code[1], "Sub"));
    assert!(is_num(&code[2], 1.0));
    assert!(is_prim(&code[3], "Div"));
    assert!(is_prim(&code[4], "Sqrt"));
    assert!(close(apply(&inv, 9.0), 3.0));
    let d = derivative(&nodes, &prog()).expect("differentiable");
    let code = children(&d);
    assert_eq!(code.len(), 2);
    assert!(is_num(&code[0], 2.0));
    assert!(is_prim(&code[1], "Mul"));
}

#[test]
fn full_quadratic_inverts_through_the_formula() {
    // 4x^2 + 6x - 3
    let nodes = vec![
        prim(Primitive::Dup),
        prim(Primitive::Dup),
        prim(Primitive::Mul),
        num(4.0),
        prim(Primitive::Mul),
        prim(Primitive::Flip),
        num(6.0),
        prim(Primitive::Mul),
        prim(Primitive::Add),
        num(3.0),
        prim(Primitive::Sub),
    ];
    assert!(close(apply_all(&nodes, 1.0), 7.0));
    let inv = algebraic_inverse(&nodes, &prog()).expect("invertible");
    let code = children(&inv);
    assert_eq!(code.len(), 18);
    assert!(code.iter().any(|n| is_prim(n, "Max")));
    assert!(close(apply(&inv, 7.0), 1.0));
}

#[test]
fn over_on_a_single_value_runs_out_of_variables() {
    let nodes = vec![
        prim(Primitive::Dup),
        prim(Primitive::Mul),
        num(4.0),
        prim(Primitive::Mul),
        num(3.0),
        prim(Primitive::Sub),
        prim(Primitive::Over),
        num(6.0),
        prim(Primitive::Mul),
        prim(Primitive::Add),
    ];
    assert_eq!(algebraic_inverse(&nodes, &prog()).err(), Some(Some(AlgebraError::TooManyVariables)));
}

#[test]
fn power_two_differentiates_to_double() {
    let nodes = vec![num(2.0), prim(Primitive::Pow)];
    let d = derivative(&nodes, &prog()).expect("differentiable");
    let code = children(&d);
    assert_eq!(code.len(), 2);
    assert!(is_num(&code[0], 2.0));
    assert!(is_prim(&code[1], "Mul"));
}

#[test]
fn identity_is_its_own_inverse_with_derivative_one() {
    let nodes = vec![prim(Primitive::Identity)];
    let a = analyze(&nodes, &prog());
    let e = a.expr.expect("one value");
    assert_eq!(e.entries.len(), 1);
    assert!(matches!(e.entries[0].0.base, Base::X));
    assert_eq!(e.entries[0].0.power, r(1.0));
    assert_eq!(e.entries[0].1, r(1.0));
    let inv = algebraic_inverse(&nodes, &prog()).expect("invertible");
    assert!(is_prim(&inv, "Identity"));
    let d = derivative(&nodes, &prog()).expect("differentiable");
    let code = children(&d);
    assert_eq!(code.len(), 2);
    assert!(is_prim(&code[0], "Pop"));
    assert!(is_num(&code[1], 1.0));
    assert!(close(apply(&d, 42.0), 1.0));
}

#[test]
fn pushing_an_array_is_not_scalar() {
    let arr = Node::Push(Value { rank: 1, first: Datum::Num(r(1.0)) });
    let nodes = vec![arr, prim(Primitive::Add)];
    assert_eq!(algebraic_inverse(&nodes, &prog()).err(), Some(Some(AlgebraError::NonScalar)));
    let nodes = vec![Node::Push(Value { rank: 1, first: Datum::Num(r(1.0)) }), prim(Primitive::Add)];
    assert_eq!(derivative(&nodes, &prog()).err(), Some(AlgebraError::NonScalar));
}

#[test]
fn linear_round_trip() {
    for (b, k) in [(2.0, 5.0), (-3.0, 1.5), (0.5, -4.0)] {
        let nodes = vec![num(b), prim(Primitive::Mul), num(k), prim(Primitive::Add)];
        let inv = algebraic_inverse(&nodes, &prog()).expect("invertible");
        for x in [-7.0, 0.0, 1.0, 3.25] {
            assert!(close(apply(&inv, apply_all(&nodes, x)), x));
        }
    }
}

#[test]
fn linear_through_origin_divides_or_multiplies() {
    let nodes = vec![num(4.0), prim(Primitive::Mul)];
    let inv = algebraic_inverse(&nodes, &prog()).expect("invertible");
    let code = children(&inv);
    assert!(is_num(&code[0], 4.0) && is_prim(&code[1], "Div"));
    let nodes = vec![num(0.5), prim(Primitive::Mul)];
    let inv = algebraic_inverse(&nodes, &prog()).expect("invertible");
    let code = children(&inv);
    assert!(is_num(&code[0], 2.0) && is_prim(&code[1], "Mul"));
}

#[test]
fn constant_program_inverts_to_its_constant() {
    let nodes = vec![prim(Primitive::Pop), num(3.0), num(1.0), prim(Primitive::Add)];
    let inv = algebraic_inverse(&nodes, &prog()).expect("invertible");
    let code = children(&inv);
    assert_eq!(code.len(), 2);
    assert!(is_prim(&code[0], "Pop"));
    assert!(is_num(&code[1], 4.0));
}

#[test]
fn quadratic_identity_on_the_positive_branch() {
    // 2x^2 + 1
    let nodes = vec![prim(Primitive::Dup), prim(Primitive::Mul), num(2.0), prim(Primitive::Mul), num(1.0), prim(Primitive::Add)];
    let inv = algebraic_inverse(&nodes, &prog()).expect("invertible");
    for x in [0.0, 0.5, 3.0] {
        assert!(close(apply(&inv, apply_all(&nodes, x)), x));
    }
    // x^2 - 2x + 5, vertex at 1
    let nodes = vec![
        prim(Primitive::Dup),
        prim(Primitive::Dup),
        prim(Primitive::Mul),
        prim(Primitive::Flip),
        num(2.0),
        prim(Primitive::Mul),
        prim(Primitive::Sub),
        num(5.0),
        prim(Primitive::Add),
    ];
    let inv = algebraic_inverse(&nodes, &prog()).expect("invertible");
    for x in [1.0, 2.0, 10.0] {
        assert!(close(apply(&inv, apply_all(&nodes, x)), x));
    }
}

#[test]
fn derivative_of_integral_gives_back_the_polynomial() {
    // 3x^2 + 2x + 1
    let nodes = vec![
        prim(Primitive::Dup),
        prim(Primitive::Dup),
        prim(Primitive::Mul),
        num(3.0),
        prim(Primitive::Mul),
        prim(Primitive::Flip),
        num(2.0),
        prim(Primitive::Mul),
        prim(Primitive::Add),
        num(1.0),
        prim(Primitive::Add),
    ];
    let i = integral(&nodes, &prog()).expect("integrable");
    assert!(close(apply(&i, 2.0), 8.0 + 4.0 + 2.0));
    let d = derivative(&[i], &prog()).expect("differentiable");
    for x in [-1.0, 0.0, 2.0, 3.5] {
        assert!(close(apply(&d, x), apply_all(&nodes, x)));
    }
}

#[test]
fn power_rule_on_a_cubic() {
    // 5x^3 - 7x
    let nodes = vec![
        prim(Primitive::Dup),
        prim(Primitive::Dup),
        prim(Primitive::Dup),
        prim(Primitive::Mul),
        prim(Primitive::Mul),
        num(5.0),
        prim(Primitive::Mul),
        prim(Primitive::Flip),
        num(7.0),
        prim(Primitive::Mul),
        prim(Primitive::Sub),
    ];
    let d = derivative(&nodes, &prog()).expect("differentiable");
    assert!(close(apply(&d, 2.0), 53.0));
    assert!(close(apply(&d, 0.0), -7.0));
}

#[test]
fn derivative_of_a_constant_is_zero() {
    let nodes = vec![prim(Primitive::Pop), num(9.0)];
    let d = derivative(&nodes, &prog()).expect("differentiable");
    assert!(close(apply(&d, 5.0), 0.0));
}

#[test]
fn shuffles_alone_are_not_handled() {
    let a = analyze(&[prim(Primitive::Pop)], &prog());
    assert!(!a.handled);
    assert_eq!(a.expr.err(), Some(AlgebraError::NoOutput));
    assert_eq!(algebraic_inverse(&[prim(Primitive::Pop)], &prog()).err(), Some(None));
    let a = analyze(&[prim(Primitive::Neg)], &prog());
    assert!(a.handled);
    let a = analyze(&[prim(Primitive::Dup), num(1.0), prim(Primitive::Add), prim(Primitive::Mul)], &prog());
    assert!(a.handled);
}

#[test]
fn leftover_values_are_too_many_outputs() {
    let a = analyze(&[prim(Primitive::Dup)], &prog());
    assert_eq!(a.expr.err(), Some(AlgebraError::TooManyOutputs));
}

#[test]
fn characters_are_not_real() {
    let nodes = vec![Node::Push(Value { rank: 0, first: Datum::Char('a') }), prim(Primitive::Add)];
    assert_eq!(derivative(&nodes, &prog()).err(), Some(AlgebraError::NonReal));
}

#[test]
fn unknown_primitives_are_not_supported() {
    let nodes = vec![prim(Primitive::Other("sine".to_string()))];
    assert_eq!(derivative(&nodes, &prog()).err(), Some(AlgebraError::NotSupported("sine".to_string())));
    let nodes = vec![Node::ImplPrim("reduce add".to_string(), 0)];
    assert_eq!(derivative(&nodes, &prog()).err(), Some(AlgebraError::NotSupported("reduce add".to_string())));
    let nodes = vec![Node::Unknown("array".to_string())];
    assert_eq!(derivative(&nodes, &prog()).err(), Some(AlgebraError::NotSupported("array".to_string())));
}

#[test]
fn cubes_are_too_complex_to_invert() {
    let nodes = vec![prim(Primitive::Dup), prim(Primitive::Dup), prim(Primitive::Mul), prim(Primitive::Mul)];
    assert_eq!(algebraic_inverse(&nodes, &prog()).err(), Some(Some(AlgebraError::TooComplex)));
}

#[test]
fn nested_roots_are_too_complex_for_calculus() {
    let nodes = vec![num(1.0), prim(Primitive::Add), prim(Primitive::Sqrt)];
    assert_eq!(derivative(&nodes, &prog()).err(), Some(AlgebraError::TooComplex));
    let nodes = vec![num(1.0), prim(Primitive::Add), prim(Primitive::Sqrt)];
    assert_eq!(integral(&nodes, &prog()).err(), Some(AlgebraError::TooComplex));
}

#[test]
fn too_few_values_for_a_binary_primitive() {
    assert_eq!(derivative(&[prim(Primitive::Add)], &prog()).err(), Some(AlgebraError::TooManyVariables));
}

#[test]
fn combinator_with_wrong_function_count_is_a_bug() {
    let node = Node::Mod(Modifier::Dip, vec![sig(prim(Primitive::Neg), 1), sig(prim(Primitive::Neg), 1)], 0);
    assert_eq!(derivative(&[node], &prog()).err(), Some(AlgebraError::InterpreterBug));
}

#[test]
fn custom_inverse_without_forward_has_no_inverse() {
    let node = Node::CustomInverse(Box::new(CustomInverse { is_obverse: false, normal: None }), 0);
    assert_eq!(derivative(&[node], &prog()).err(), Some(AlgebraError::NoInverse));
    let node = Node::CustomInverse(Box::new(CustomInverse { is_obverse: true, normal: None }), 0);
    assert_eq!(derivative(&[node], &prog()).err(), Some(AlgebraError::NotSupported("custom inverses".to_string())));
    let node = Node::CustomInverse(
        Box::new(CustomInverse { is_obverse: false, normal: Some(sig(prim(Primitive::Neg), 1)) }),
        0,
    );
    let d = derivative(&[node], &prog()).expect("differentiable");
    assert!(close(apply(&d, 3.0), -1.0));
}

#[test]
fn on_keeps_the_input_below() {
    // x * (x + 1)
    let on = Node::Mod(Modifier::On, vec![sig(Node::Run(vec![num(1.0), prim(Primitive::Add)]), 1)], 0);
    let nodes = vec![on, prim(Primitive::Mul)];
    let d = derivative(&nodes, &prog()).expect("differentiable");
    assert!(close(apply(&d, 3.0), 7.0));
}

#[test]
fn dip_gap_by_both_bracket_fork() {
    // dip: x, 2 -> (x + 1) * 2 with dip over the 2
    let dip = Node::Mod(Modifier::Dip, vec![sig(Node::Run(vec![num(1.0), prim(Primitive::Add)]), 1)], 0);
    let nodes = vec![num(2.0), dip, prim(Primitive::Mul)];
    let d = derivative(&nodes, &prog()).expect("differentiable");
    assert!(close(apply(&d, 10.0), 2.0));
    // gap drops the input: 5
    let gap = Node::Mod(Modifier::Gap, vec![sig(num(5.0), 0)], 0);
    let nodes = vec![prim(Primitive::Dup), gap, prim(Primitive::Mul)];
    let i = integral(&nodes, &prog()).expect("integrable");
    assert!(close(apply(&i, 2.0), 5.0 * 2.0 * 2.0 / 2.0));
    // by with a two-argument function: x, 3 -> x, x, 3 -> x, 3x; then add
    let by = Node::Mod(Modifier::By, vec![sig(prim(Primitive::Mul), 2)], 0);
    let nodes = vec![num(3.0), by, prim(Primitive::Add)];
    let d = derivative(&nodes, &prog()).expect("differentiable");
    assert!(close(apply(&d, 1.0), 4.0));
    // both squares each of x and x + 1, then adds
    let both = Node::Mod(Modifier::Both, vec![sig(Node::Run(vec![prim(Primitive::Dup), prim(Primitive::Mul)]), 1)], 0);
    let nodes = vec![prim(Primitive::Dup), num(1.0), prim(Primitive::Add), both, prim(Primitive::Add)];
    let d = derivative(&nodes, &prog()).expect("differentiable");
    assert!(close(apply(&d, 1.0), 2.0 + 4.0));
    // bracket doubles the lower value and negates the upper: x, x -> 2x, -x
    let bracket = Node::Mod(
        Modifier::Bracket,
        vec![sig(prim(Primitive::Neg), 1), sig(Node::Run(vec![num(2.0), prim(Primitive::Mul)]), 1)],
        0,
    );
    let nodes = vec![prim(Primitive::Dup), bracket, prim(Primitive::Sub)];
    let d = derivative(&nodes, &prog()).expect("differentiable");
    assert!(close(apply(&d, 5.0), 3.0));
    // fork: x -> (x + 2) and (x * 3), then multiply
    let fork = Node::Mod(
        Modifier::Fork,
        vec![sig(Node::Run(vec![num(2.0), prim(Primitive::Add)]), 1), sig(Node::Run(vec![num(3.0), prim(Primitive::Mul)]), 1)],
        0,
    );
    let nodes = vec![fork, prim(Primitive::Mul)];
    let d = derivative(&nodes, &prog()).expect("differentiable");
    // 3x^2 + 6x -> 6x + 6
    assert!(close(apply(&d, 1.0), 12.0));
    let a = analyze(&[Node::Mod(Modifier::Other("rows".to_string()), vec![], 0)], &prog());
    assert_eq!(a.expr.err(), Some(AlgebraError::NotSupported("rows".to_string())));
}

#[test]
fn calls_run_the_function_and_recursion_stops() {
    let program = Assembly { functions: vec![Node::Run(vec![prim(Primitive::Dup), prim(Primitive::Mul)])], spans: vec![0, 1] };
    let d = derivative(&[Node::Call(0, 1)], &program).expect("differentiable");
    assert!(close(apply(&d, 4.0), 8.0));
    let program = Assembly { functions: vec![Node::<C>::Call(0, 0)], spans: vec![0] };
    assert_eq!(derivative(&[Node::Call(0, 0)], &program).err(), Some(AlgebraError::NotSupported("recursion".to_string())));
    assert_eq!(derivative(&[Node::Call(3, 0)], &prog()).err(), Some(AlgebraError::InterpreterBug));
}

#[test]
fn complex_literals_keep_their_imaginary_part() {
    let nodes = vec![num(1.0), prim(Primitive::Complex), prim(Primitive::Dup), prim(Primitive::Add)];
    let a = analyze(&nodes, &prog());
    assert!(a.any_complex);
    let d = derivative(&nodes, &prog()).expect("differentiable");
    let code = children(&d);
    assert!(is_prim(&code[0], "Pop"));
    assert!(matches!(code[2], Node::Push(Value { rank: 0, first: Datum::Complex(_) })));
    let mut stack = vec![r(0.0)];
    eval(&d, &mut stack);
    assert_eq!(stack, vec![r(2.0)]);
}

#[test]
fn byte_pushes_are_real() {
    let nodes = vec![Node::Push(Value { rank: 0, first: Datum::Byte(3) }), prim(Primitive::Mul)];
    let inv = algebraic_inverse(&nodes, &prog()).expect("invertible");
    assert!(close(apply(&inv, 12.0), 4.0));
}

#[test]
fn logarithm_and_not_and_under_nodes() {
    // 1 - x with under-stack nodes around it
    let nodes = vec![Node::PushUnder(1, 0), prim(Primitive::Not), Node::PopUnder(1, 0), Node::CopyToUnder(1, 0)];
    let inv = algebraic_inverse(&nodes, &prog()).expect("invertible");
    assert!(close(apply(&inv, 1.0 - 4.0), 4.0));
    // log base 2 of x^4 gives power 2 with coefficient log2(1) = 0
    let nodes = vec![num(4.0), prim(Primitive::Pow), num(2.0), prim(Primitive::Log)];
    let e = analyze(&nodes, &prog()).expr.expect("one value");
    assert_eq!(e.entries.len(), 1);
    assert_eq!(e.entries[0].0.power, r(2.0));
    assert_eq!(e.entries[0].1, r(0.0));
    let nodes = vec![prim(Primitive::Dup), prim(Primitive::Log)];
    assert_eq!(derivative(&nodes, &prog()).err(), Some(AlgebraError::NonScalar));
}

#[test]
fn sums_merge_equal_terms_and_keep_order() {
    let x = Expr::<C>::variable();
    let k = Expr::constant(r(3.0));
    let s = x.add(k);
    assert_eq!(s.entries.len(), 2);
    assert_eq!(s.entries[0].0.power, r(0.0));
    assert_eq!(s.entries[1].0.power, r(1.0));
    let s2 = s.add(Expr::variable());
    assert_eq!(s2.entries.len(), 2);
    assert_eq!(s2.entries[1].1, r(2.0));
    let sq = s2.mul(&Expr::variable());
    assert_eq!(sq.entries.len(), 2);
    assert_eq!(sq.entries[0].0.power, r(1.0));
    assert_eq!(sq.entries[1].0.power, r(2.0));
    let q = sq.div(&Expr::variable());
    assert_eq!(q.entries[0].0.power, r(0.0));
    assert_eq!(q.entries[1].0.power, r(1.0));
    assert_eq!(q.entries[1].1, r(2.0));
}

#[test]
fn roots_of_sums_nest() {
    let s = Expr::<C>::variable().add(Expr::constant(r(1.0)));
    let root = s.sqrt();
    assert_eq!(root.entries.len(), 1);
    assert!(matches!(root.entries[0].0.base, Base::Nested(_)));
    assert_eq!(root.entries[0].0.power, r(0.5));
    let t = Term { base: Base::<C>::X, power: r(1.0) };
    assert!(matches!(t.base, Base::X));
    let single = Expr::constant(r(9.0)).sqrt();
    assert_eq!(single.entries[0].1, r(3.0));
    assert_eq!(Expr::constant(r(9.0)).as_constant(), Some(r(9.0)));
    assert_eq!(Expr::<C>::variable().as_constant(), None);
}

#[test]
fn editor_registers_under_its_tag() {
    let def = UiuaEditorApp::register();
    assert_eq!(def.tag, "uiua-editor");
    assert!(def.shadow_open);
    assert!(def.observed_attributes.is_empty());
}

#[test]
fn nested_bases_lower_to_their_own_code() {
    let root = Expr::<C>::variable().add(Expr::constant(r(1.0))).sqrt();
    let code = expr_to_node(&root, false, 0);
    assert!(close(apply(&code, 3.0), 2.0));
    assert!(close(apply(&code, 8.0), 3.0));
    // a nested base multiplied by a plain term is opened: its power is not
    // carried, its coefficients scale
    let scaled = Expr::<C>::variable().add(Expr::constant(r(1.0))).sqrt().mul(&Expr::constant(r(4.0)));
    let code = expr_to_node(&scaled, false, 0);
    assert!(close(apply(&code, 3.0), 16.0));
}

#[test]
fn terms_order_variable_first_then_by_power() {
    let x1 = Term { base: Base::<C>::X, power: r(1.0) };
    let x2 = Term { base: Base::<C>::X, power: r(2.0) };
    let nan = Term { base: Base::<C>::X, power: r(f64::NAN) };
    assert_eq!(cmp_terms(&x1, &x2), Order::Less);
    assert_eq!(cmp_terms(&x2, &x1), Order::Greater);
    assert_eq!(cmp_terms(&x2, &nan), Order::Less);
    assert_eq!(cmp_terms(&nan, &nan), Order::Equal);
    let nested = Term { base: Base::Nested(Box::new(Expr::<C>::variable())), power: r(0.5) };
    assert_eq!(cmp_terms(&x2, &nested), Order::Less);
    let short = Expr::<C>::variable();
    let long = Expr::<C>::variable().add(Expr::constant(r(2.0)));
    assert_eq!(cmp_exprs(&short, &long), Order::Less);
    assert_eq!(cmp_exprs(&long, &copy_expr(&long)), Order::Equal);
    let other = Expr::<C>::variable().add(Expr::constant(r(5.0)));
    assert_eq!(cmp_exprs(&long, &other), Order::Less);
}

#[test]
fn opened_nested_terms_keep_both_coefficients() {
    // (2 * sqrt(x + 1)) * 3x opens to 6x + 6x^2
    let two_root = Expr { entries: vec![(Term { base: Base::Nested(Box::new(Expr::<C>::variable().add(Expr::constant(r(1.0))))), power: r(0.5) }, r(2.0))] }
        .add(Expr { entries: Vec::new() });
    let three_x = Expr::<C>::variable().mul(&Expr::constant(r(3.0)));
    let p = two_root.mul(&three_x);
    assert_eq!(p.entries.len(), 2);
    assert_eq!(p.entries[0].0.power, r(1.0));
    assert_eq!(p.entries[0].1, r(6.0));
    assert_eq!(p.entries[1].0.power, r(2.0));
    assert_eq!(p.entries[1].1, r(6.0));
    let q = three_x.mul(&Expr { entries: vec![(Term { base: Base::Nested(Box::new(Expr::<C>::variable())), power: r(0.5) }, r(2.0))] });
    assert_eq!(q.entries.len(), 1);
    assert_eq!(q.entries[0].0.power, r(2.0));
    assert_eq!(q.entries[0].1, r(6.0));
    let d = three_x.div(&Expr { entries: vec![(Term { base: Base::Nested(Box::new(Expr::<C>::variable())), power: r(0.5) }, r(2.0))] });
    assert_eq!(d.entries[0].0.power, r(2.0));
    assert_eq!(d.entries[0].1, r(1.5));
}

#[test]
fn fork_feeds_the_top_values_to_its_second_function() {
    // x, 10: the negation gets 10; the subtraction gets the popped values back
    let fork = Node::Mod(Modifier::Fork, vec![sig(prim(Primitive::Sub), 2), sig(prim(Primitive::Neg), 1)], 0);
    let nodes = vec![num(10.0), fork, prim(Primitive::Add)];
    let d = derivative(&nodes, &prog()).expect("differentiable");
    assert!(close(apply(&d, 7.0), -1.0));
    let e = analyze(&nodes, &prog()).expr.expect("one value");
    assert_eq!(e.entries.len(), 2);
    assert_eq!(e.entries[0].1, r(0.0));
    assert_eq!(e.entries[1].1, r(-1.0));
}

//! The abstract interpreter: runs stack code on a stack of expressions,
//! starting from the variable alone.
use vstd::prelude::*;
use crate::scalar::{Scalar, Op2};
use crate::expr::{
    Expr, EntryModel, TermModel, BaseModel, negated, add_all, rooted, product, powered, logged,
    constant_of, real_constant_of,
};
use crate::ir::{Primitive, Modifier, Datum, Value, SigNode, Node, Assembly, prim_name, prim_label};

verus! {

/// Why an analysis failed.
#[derive(Debug, PartialEq, Eq)]
pub enum AlgebraError {
    /// A value was taken from an empty stack.
    TooManyVariables,
    /// A primitive, combinator, node or value that is not modelled.
    NotSupported(String),
    /// The analysis left the stack empty.
    NoOutput,
    /// The analysis left more than one value.
    TooManyOutputs,
    /// A value that is not a scalar, or a power or base that is not a real
    /// constant.
    NonScalar,
    /// A scalar that is not a number.
    NonReal,
    /// An expression beyond what the operation handles.
    TooComplex,
    /// A combinator with the wrong number of functions.
    InterpreterBug,
    /// A custom inverse without a forward function.
    NoInverse,
}

/// The model of an expression.
pub type Poly<S> = Seq<EntryModel<S>>;

/// The constant `c`.
pub open spec fn const_poly<S: Scalar>(c: S) -> Poly<S> {
    seq![(TermModel { base: BaseModel::X, power: S::of_int(0) }, c)]
}

/// What a primitive does to the modelled stack: the stack after it, whether
/// it counts as algebra, whether it makes the analysis complex, and the
/// error, if any. Values taken before an error are gone from the stack.
pub struct Step<S> {
    pub stack: Seq<Poly<S>>,
    pub algebra: bool,
    pub complex: bool,
    pub err: Option<Failure>,
}

pub open spec fn done<S>(stack: Seq<Poly<S>>, algebra: bool) -> Step<S> {
    Step { stack, algebra, complex: false, err: None }
}

pub open spec fn failed<S>(stack: Seq<Poly<S>>, e: AlgebraError) -> Step<S> {
    Step { stack, algebra: false, complex: false, err: Some(Failure::Plain(e)) }
}

/// Whether a primitive only rearranges the stack.
pub open spec fn is_shuffle(p: Primitive) -> bool {
    p is Identity || p is Pop || p is Dup || p is Flip || p is Over
}

/// Whether a primitive is one of the algebra the analysis performs.
pub open spec fn is_algebra(p: Primitive) -> bool {
    p is Neg || p is Not || p is Sqrt || p is Add || p is Sub || p is Mul || p is Div || p is Pow
        || p is Log || p is Complex
}

pub open spec fn arity(p: Primitive) -> nat {
    match p {
        Primitive::Identity | Primitive::Pop | Primitive::Dup | Primitive::Neg | Primitive::Not
        | Primitive::Sqrt => 1,
        _ => 2,
    }
}

/// The effect of one primitive on the modelled stack.
pub open spec fn prim_step<S: Scalar>(p: Primitive, s: Seq<Poly<S>>) -> Step<S> {
    let n = s.len();
    if !is_shuffle(p) && !is_algebra(p) {
        Step { stack: s, algebra: false, complex: false, err: Some(Failure::Unsupported(prim_label(p))) }
    } else if n < arity(p) {
        failed(Seq::empty(), AlgebraError::TooManyVariables)
    } else {
        let a = s[n - 1];
        let b = s[n - 2];
        let below1 = s.take(n - 1);
        let below2 = s.take(n - 2);
        match p {
            Primitive::Identity => done(s, false),
            Primitive::Pop => done(below1, false),
            Primitive::Dup => done(s.push(a), false),
            Primitive::Flip => done(below2.push(a).push(b), false),
            Primitive::Over => done(below2.push(b).push(a).push(b), false),
            Primitive::Neg => done(below1.push(negated(a)), true),
            Primitive::Not => done(below1.push(add_all(const_poly(S::of_int(1)), negated(a))), true),
            Primitive::Sqrt => done(below1.push(rooted(a)), true),
            Primitive::Add => done(below2.push(add_all(b, a)), true),
            Primitive::Sub => done(below2.push(add_all(b, negated(a))), true),
            Primitive::Mul => done(below2.push(product(b, a, false)), true),
            Primitive::Div => done(below2.push(product(b, a, true)), true),
            Primitive::Pow => match real_constant_of(a) {
                Some(q) => done(below2.push(powered(b, q)), true),
                None => failed(below2, AlgebraError::NonScalar),
            },
            Primitive::Log => match real_constant_of(a) {
                Some(q) => done(below2.push(logged(b, q)), true),
                None => failed(below2, AlgebraError::NonScalar),
            },
            _ => {
                let r = match (constant_of(a), constant_of(b)) {
                    (Some(ca), Some(cb)) => const_poly(
                        S::apply2(Op2::Add, S::apply2(Op2::Mul, ca, S::unit_i()), cb),
                    ),
                    _ => add_all(b, product(a, const_poly(S::unit_i()), false)),
                };
                Step { stack: below2.push(r), algebra: true, complex: true, err: None }
            },
        }
    }
}

/// The model of an error: one without a description, or a lack of support
/// with the characters of its description.
pub enum Failure {
    Plain(AlgebraError),
    Unsupported(Seq<char>),
}

/// Whether the error `r` is the one that `f` models.
pub open spec fn error_is(r: AlgebraError, f: Failure) -> bool {
    match f {
        Failure::Plain(e) => r == e && !(e is NotSupported),
        Failure::Unsupported(d) => r is NotSupported && r->NotSupported_0@ == d,
    }
}

/// The interpreter's state.
pub struct AlgebraEnv<S> {
    /// The stack of expressions, top last.
    pub stack: Vec<Expr<S>>,
    /// The spans of the nodes being run, innermost last.
    pub call_stack: Vec<usize>,
    /// How many algebra primitives have run, saturating.
    pub handled: usize,
    /// Whether a complex literal or the `Complex` primitive was seen.
    pub any_complex: bool,
}

/// A counter one up, stopping at the largest `usize`.
pub open spec fn bumped(n: usize) -> usize {
    if n < usize::MAX {
        (n + 1) as usize
    } else {
        n
    }
}

/// The expression with the variable alone.
pub open spec fn var_poly<S: Scalar>() -> Poly<S> {
    seq![(TermModel { base: BaseModel::X, power: S::of_int(1) }, S::of_int(1))]
}

impl<S: Scalar> AlgebraEnv<S> {
    /// The modelled stack.
    pub open spec fn model(&self) -> Seq<Poly<S>> {
        self.stack@.map_values(|e: Expr<S>| e@)
    }

    /// A fresh state: the variable alone on the stack.
    pub fn new() -> (r: AlgebraEnv<S>)
        ensures
            r.model() == seq![var_poly::<S>()],
            r.handled == 0,
            !r.any_complex,
    {
        let mut stack: Vec<Expr<S>> = Vec::new();
        stack.push(Expr::variable());
        let r = AlgebraEnv { stack, call_stack: Vec::new(), handled: 0, any_complex: false };
        proof {
            assert(r.model() =~= seq![var_poly::<S>()]);
        }
        r
    }

    fn push(&mut self, e: Expr<S>)
        ensures
            final(self).model() == old(self).model().push(e@),
            final(self).handled == old(self).handled,
            final(self).any_complex == old(self).any_complex,
    {
        self.stack.push(e);
        proof {
            assert(final(self).model() =~= old(self).model().push(e@));
        }
    }

    /// Takes the top of the stack.
    pub fn pop(&mut self) -> (r: Result<Expr<S>, AlgebraError>)
        ensures
            old(self).stack.len() > 0 ==> r is Ok && r->Ok_0@ == old(self).model().last()
                && final(self).model() == old(self).model().drop_last(),
            old(self).stack.len() == 0 ==> r == Err::<Expr<S>, AlgebraError>(AlgebraError::TooManyVariables)
                && final(self).model() == old(self).model(),
            final(self).handled == old(self).handled,
            final(self).any_complex == old(self).any_complex,
    {
        match self.stack.pop() {
            Some(e) => {
                proof {
                    assert(final(self).model() =~= old(self).model().drop_last());
                }
                Ok(e)
            },
            None => Err(AlgebraError::TooManyVariables),
        }
    }

    fn count(&mut self)
        ensures
            final(self).handled == bumped(old(self).handled),
            final(self).stack == old(self).stack,
            final(self).any_complex == old(self).any_complex,
    {
        if self.handled < usize::MAX {
            self.handled = self.handled + 1;
        }
    }

    /// Runs one primitive.
    pub fn prim(&mut self, p: &Primitive) -> (r: Result<(), AlgebraError>)
        ensures
            ({
                let st = prim_step(*p, old(self).model());
                &&& final(self).model() == st.stack
                &&& final(self).handled == if st.algebra && st.err is None {
                    bumped(old(self).handled)
                } else {
                    old(self).handled
                }
                &&& final(self).any_complex == (old(self).any_complex || (st.complex && st.err is None))
                &&& match st.err {
                    None => r is Ok,
                    Some(f) => r is Err && error_is(r->Err_0, f),
                }
            }),
    {
        let ghost m = self.model();
        let ghost n = m.len();
        match p {
            Primitive::Identity | Primitive::Pop | Primitive::Dup | Primitive::Neg | Primitive::Not
            | Primitive::Sqrt => {
                let a = self.pop()?;
                match p {
                    Primitive::Identity => self.push(a),
                    Primitive::Pop => {},
                    Primitive::Dup => {
                        let c = crate::expr::copy_expr(&a);
                        self.push(c);
                        self.push(a);
                    },
                    Primitive::Neg => {
                        self.push(a.neg());
                        self.count();
                    },
                    Primitive::Not => {
                        let one = S::from_int(1);
                        self.push(Expr::constant(one).sub(a));
                        self.count();
                    },
                    _ => {
                        self.push(a.sqrt());
                        self.count();
                    },
                }
                proof {
                    assert(m.take(n - 1) =~= m.drop_last());
                    assert(m.take(n - 1).push(m[n - 1]) =~= m);
                }
                Ok(())
            },
            Primitive::Flip | Primitive::Over | Primitive::Add | Primitive::Sub | Primitive::Mul
            | Primitive::Div | Primitive::Pow | Primitive::Log | Primitive::Complex => {
                let a = self.pop()?;
                let b = match self.pop() {
                    Ok(b) => b,
                    Err(e) => {
                        proof {
                            assert(self.model() =~= Seq::<Poly<S>>::empty());
                        }
                        return Err(e);
                    },
                };
                proof {
                    assert(m.take(n - 2) =~= m.drop_last().drop_last());
                }
                match p {
                    Primitive::Flip => {
                        self.push(a);
                        self.push(b);
                    },
                    Primitive::Over => {
                        let c = crate::expr::copy_expr(&b);
                        self.push(c);
                        self.push(a);
                        self.push(b);
                    },
                    Primitive::Add => {
                        self.push(b.add(a));
                        self.count();
                    },
                    Primitive::Sub => {
                        self.push(b.sub(a));
                        self.count();
                    },
                    Primitive::Mul => {
                        self.push(b.mul(&a));
                        self.count();
                    },
                    Primitive::Div => {
                        self.push(b.div(&a));
                        self.count();
                    },
                    Primitive::Pow => {
                        match b.pow(&a) {
                            Some(r) => {
                                self.push(r);
                                self.count();
                            },
                            None => return Err(AlgebraError::NonScalar),
                        }
                    },
                    Primitive::Log => {
                        match b.log(&a) {
                            Some(r) => {
                                self.push(r);
                                self.count();
                            },
                            None => return Err(AlgebraError::NonScalar),
                        }
                    },
                    _ => {
                        let i = S::imaginary_unit();
                        match (a.as_constant(), b.as_constant()) {
                            (Some(ca), Some(cb)) => {
                                let m1 = S::op2(Op2::Mul, ca, i);
                                let s1 = S::op2(Op2::Add, m1, cb);
                                self.push(Expr::constant(s1));
                            },
                            _ => {
                                let im = a.mul(&Expr::constant(i));
                                self.push(b.add(im));
                            },
                        }
                        self.any_complex = true;
                        self.count();
                    },
                }
                Ok(())
            },
            _ => Err(AlgebraError::NotSupported(prim_name(p))),
        }
    }
}

/// The modelled state: the stack, the count of algebra primitives and
/// whether the analysis became complex.
pub struct EnvModel<S> {
    pub stack: Seq<Poly<S>>,
    pub handled: usize,
    pub any_complex: bool,
}

/// The state after running a node, and the error it stopped on, if any.
pub struct Outcome<S> {
    pub env: EnvModel<S>,
    pub err: Option<Failure>,
}

pub open spec fn ok_out<S>(env: EnvModel<S>) -> Outcome<S> {
    Outcome { env, err: None }
}

pub open spec fn fail_out<S>(env: EnvModel<S>, e: AlgebraError) -> Outcome<S> {
    Outcome { env, err: Some(Failure::Plain(e)) }
}

pub open spec fn unsupported<S>(env: EnvModel<S>, d: Seq<char>) -> Outcome<S> {
    Outcome { env, err: Some(Failure::Unsupported(d)) }
}

pub open spec fn with_stack<S>(env: EnvModel<S>, stack: Seq<Poly<S>>) -> EnvModel<S> {
    EnvModel { stack, ..env }
}

/// The state after one primitive.
pub open spec fn after_prim<S: Scalar>(env: EnvModel<S>, p: Primitive) -> Outcome<S> {
    let st = prim_step(p, env.stack);
    Outcome {
        env: EnvModel {
            stack: st.stack,
            handled: if st.algebra && st.err is None {
                bumped(env.handled)
            } else {
                env.handled
            },
            any_complex: env.any_complex || (st.complex && st.err is None),
        },
        err: st.err,
    }
}

/// The number of functions each combinator takes.
pub open spec fn mod_arity(m: Modifier) -> nat {
    match m {
        Modifier::Bracket | Modifier::Fork => 2,
        _ => 1,
    }
}

/// The state after pushing a constant read from a value.
pub open spec fn after_push<S: Scalar>(env: EnvModel<S>, v: Value<S>) -> Outcome<S> {
    if v.rank > 0 {
        fail_out(env, AlgebraError::NonScalar)
    } else {
        match v.first {
            Datum::Num(x) => ok_out(with_stack(env, env.stack.push(const_poly(x)))),
            Datum::Byte(b) => ok_out(with_stack(env, env.stack.push(const_poly(S::of_int(b as i64))))),
            Datum::Complex(c) => ok_out(
                EnvModel { stack: env.stack.push(const_poly(c)), any_complex: true, ..env },
            ),
            _ => fail_out(env, AlgebraError::NonReal),
        }
    }
}

/// Running a node. `budget` bounds how deep calls may nest: a chain of
/// calls longer than the number of functions repeats one, so the program
/// recurses, which the analysis does not support.
pub open spec fn run_spec<S: Scalar>(prog: Assembly<S>, n: Node<S>, env: EnvModel<S>, budget: nat) -> Outcome<S>
    decreases budget, n, 0int,
{
    match n {
        Node::Run(v) => run_list(prog, v@, env, budget),
        Node::Call(f, _) => {
            if f >= prog.functions.len() {
                fail_out(env, AlgebraError::InterpreterBug)
            } else if budget == 0 {
                unsupported(env, "recursion"@)
            } else {
                run_spec(prog, prog.functions@[f as int], env, (budget - 1) as nat)
            }
        },
        Node::Push(v) => after_push(env, v),
        Node::Prim(p, _) => after_prim(env, p),
        Node::ImplPrim(name, _) => unsupported(env, name@),
        Node::Mod(m, ops, _) => {
            if m is Other {
                unsupported(env, m->Other_0@)
            } else if ops.len() != mod_arity(m) {
                fail_out(env, AlgebraError::InterpreterBug)
            } else {
                let f = ops@[0];
                let g = ops@[ops.len() - 1];
                let s = env.stack;
                let len = s.len();
                match m {
                    Modifier::Dip | Modifier::Gap | Modifier::On => {
                        if len == 0 {
                            fail_out(env, AlgebraError::TooManyVariables)
                        } else {
                            let a = s.last();
                            let start = if m is On {
                                s
                            } else {
                                s.drop_last()
                            };
                            let o = run_spec(prog, f.node, with_stack(env, start), budget);
                            if o.err is Some || m is Gap {
                                o
                            } else {
                                ok_out(with_stack(o.env, o.env.stack.push(a)))
                            }
                        }
                    },
                    _ => {
                        let k = f.args as int;
                        if len < k {
                            fail_out(with_stack(env, Seq::empty()), AlgebraError::TooManyVariables)
                        } else {
                            let rest = s.take(len - k);
                            let saved = s.skip(len - k);
                            match m {
                                Modifier::By => {
                                    let dup = if k > 0 {
                                        seq![saved[0]]
                                    } else {
                                        Seq::empty()
                                    };
                                    run_spec(prog, f.node, with_stack(env, rest + dup + saved), budget)
                                },
                                Modifier::Both => {
                                    let o = run_spec(prog, f.node, with_stack(env, rest), budget);
                                    if o.err is Some {
                                        o
                                    } else {
                                        run_spec(prog, f.node, with_stack(o.env, o.env.stack + saved), budget)
                                    }
                                },
                                Modifier::Bracket => {
                                    let o = run_spec(prog, g.node, with_stack(env, rest), budget);
                                    if o.err is Some {
                                        o
                                    } else {
                                        run_spec(prog, f.node, with_stack(o.env, o.env.stack + saved), budget)
                                    }
                                },
                                _ => {
                                    let fed = if f.args > g.args {
                                        saved.skip(f.args - g.args)
                                    } else {
                                        saved
                                    };
                                    let o = run_spec(prog, g.node, with_stack(env, rest + fed), budget);
                                    if o.err is Some {
                                        o
                                    } else {
                                        run_spec(
                                            prog,
                                            f.node,
                                            with_stack(o.env, o.env.stack + saved.reverse()),
                                            budget,
                                        )
                                    }
                                },
                            }
                        }
                    },
                }
            }
        },
        Node::ImplMod(name, _) => unsupported(env, name@),
        Node::CustomInverse(c, _) => {
            if c.is_obverse {
                unsupported(env, "custom inverses"@)
            } else {
                match c.normal {
                    Some(sn) => run_spec(prog, sn.node, env, budget),
                    None => fail_out(env, AlgebraError::NoInverse),
                }
            }
        },
        Node::CopyToUnder(..) | Node::PushUnder(..) | Node::PopUnder(..) => ok_out(env),
        Node::Unknown(d) => unsupported(env, d@),
    }
}

/// Running nodes one after another, stopping at the first error.
pub open spec fn run_list<S: Scalar>(prog: Assembly<S>, ns: Seq<Node<S>>, env: EnvModel<S>, budget: nat) -> Outcome<S>
    decreases budget, ns, 0int,
{
    if ns.len() == 0 {
        ok_out(env)
    } else {
        let o = run_spec(prog, ns[0], env, budget);
        if o.err is Some {
            o
        } else {
            run_list(prog, ns.drop_first(), o.env, budget)
        }
    }
}

/// Whether a run ended in `env`, with the result `r`, as `o` says.
pub open spec fn outcome_is<S>(o: Outcome<S>, env: EnvModel<S>, r: Result<(), AlgebraError>) -> bool {
    &&& env == o.env
    &&& match o.err {
        None => r is Ok,
        Some(f) => r is Err && error_is(r->Err_0, f),
    }
}

pub open spec fn views<S>(v: Seq<Expr<S>>) -> Seq<Poly<S>> {
    v.map_values(|e: Expr<S>| e@)
}

/// Copies of a sequence of expressions.
fn copy_all<S: Scalar>(v: &Vec<Expr<S>>) -> (r: Vec<Expr<S>>)
    ensures
        views(r@) == views(v@),
{
    let mut r: Vec<Expr<S>> = Vec::new();
    let mut i: usize = 0;
    while i < v.len()
        invariant
            i <= v.len(),
            r.len() == i,
            forall|j: int| 0 <= j < i ==> (#[trigger] r@[j])@ == v@[j]@,
        decreases v.len() - i,
    {
        let c = crate::expr::copy_expr(&v[i]);
        r.push(c);
        i = i + 1;
    }
    proof {
        assert(views(r@) =~= views(v@));
    }
    r
}

impl<S: Scalar> AlgebraEnv<S> {
    /// The modelled state.
    pub open spec fn env_model(&self) -> EnvModel<S> {
        EnvModel { stack: self.model(), handled: self.handled, any_complex: self.any_complex }
    }

    /// Takes the top `n` values, in stack order; with fewer than `n` on the
    /// stack, the stack is emptied and the analysis fails.
    fn pop_args(&mut self, n: usize) -> (r: Result<Vec<Expr<S>>, AlgebraError>)
        ensures
            final(self).handled == old(self).handled,
            final(self).any_complex == old(self).any_complex,
            old(self).stack.len() >= n ==> r is Ok && views(r->Ok_0@) == old(self).model().skip(
                old(self).stack.len() - n,
            ) && final(self).model() == old(self).model().take(old(self).stack.len() - n),
            old(self).stack.len() < n ==> r == Err::<Vec<Expr<S>>, AlgebraError>(AlgebraError::TooManyVariables)
                && final(self).model() == Seq::<Poly<S>>::empty(),
    {
        if self.stack.len() < n {
            self.stack.clear();
            proof {
                assert(self.model() =~= Seq::<Poly<S>>::empty());
            }
            return Err(AlgebraError::TooManyVariables);
        }
        let at = self.stack.len() - n;
        let saved = self.stack.split_off(at);
        proof {
            assert(views(saved@) =~= old(self).model().skip(at as int));
            assert(self.model() =~= old(self).model().take(at as int));
        }
        Ok(saved)
    }

    /// Pushes the values in order.
    fn push_all(&mut self, v: Vec<Expr<S>>)
        ensures
            final(self).model() == old(self).model() + views(v@),
            final(self).handled == old(self).handled,
            final(self).any_complex == old(self).any_complex,
    {
        let ghost v0 = v@;
        let mut v = v;
        self.stack.append(&mut v);
        proof {
            assert(self.model() =~= old(self).model() + views(v0));
        }
    }

    /// Pushes the values last first.
    fn push_reversed(&mut self, v: Vec<Expr<S>>)
        ensures
            final(self).model() == old(self).model() + views(v@).reverse(),
            final(self).handled == old(self).handled,
            final(self).any_complex == old(self).any_complex,
    {
        let ghost v0 = v@;
        let mut v = v;
        while v.len() > 0
            invariant
                v@ == v0.take(v@.len() as int),
                v@.len() <= v0.len(),
                self.model() == old(self).model() + views(v0).reverse().take(v0.len() - v@.len()),
                self.handled == old(self).handled,
                self.any_complex == old(self).any_complex,
            decreases v.len(),
        {
            let ghost k = v@.len();
            let e = v.pop().unwrap();
            self.push(e);
            proof {
                assert(v@ =~= v0.take(v@.len() as int));
                assert(self.model() =~= old(self).model() + views(v0).reverse().take(v0.len() - v@.len()));
            }
        }
        proof {
            assert(views(v0).reverse().take(v0.len() as int) =~= views(v0).reverse());
        }
    }

    /// Pushes the constant that a value holds.
    fn push_value(&mut self, v: &Value<S>) -> (r: Result<(), AlgebraError>)
        ensures
            outcome_is(after_push(old(self).env_model(), *v), final(self).env_model(), r),
    {
        if v.rank > 0 {
            return Err(AlgebraError::NonScalar);
        }
        match &v.first {
            Datum::Num(x) => self.push(Expr::constant(*x)),
            Datum::Byte(b) => {
                let c = S::from_int(*b as i64);
                self.push(Expr::constant(c));
            },
            Datum::Complex(c) => {
                self.push(Expr::constant(*c));
                self.any_complex = true;
            },
            _ => return Err(AlgebraError::NonReal),
        }
        Ok(())
    }

    /// Runs a node; calls may nest `budget` deep.
    pub fn run(&mut self, prog: &Assembly<S>, node: &Node<S>, budget: usize) -> (r: Result<(), AlgebraError>)
        ensures
            outcome_is(run_spec(*prog, *node, old(self).env_model(), budget as nat), final(self).env_model(), r),
        decreases budget, *node, 2int,
    {
        let span = match node {
            Node::Call(_, s) | Node::Prim(_, s) | Node::ImplPrim(_, s) | Node::Mod(_, _, s)
            | Node::ImplMod(_, s) | Node::CustomInverse(_, s) => Some(*s),
            _ => None,
        };
        if let Some(s) = span {
            self.call_stack.push(s);
        }
        let r = self.run_inner(prog, node, budget);
        if r.is_ok() && span.is_some() {
            self.call_stack.pop();
        }
        r
    }

    fn run_inner(&mut self, prog: &Assembly<S>, node: &Node<S>, budget: usize) -> (r: Result<(), AlgebraError>)
        ensures
            outcome_is(run_spec(*prog, *node, old(self).env_model(), budget as nat), final(self).env_model(), r),
        decreases budget, *node, 1int,
    {
        match node {
            Node::Run(v) => {
                let ghost e0 = self.env_model();
                proof {
                    assert(v@.skip(0) =~= v@);
                }
                let mut i: usize = 0;
                while i < v.len()
                    invariant
                        i <= v.len(),
                        e0 == old(self).env_model(),
                        *node is Run,
                        node->Run_0 == *v,
                        run_list(*prog, v@, e0, budget as nat) == run_list(
                            *prog,
                            v@.skip(i as int),
                            self.env_model(),
                            budget as nat,
                        ),
                    decreases v.len() - i,
                {
                    proof {
                        assert(v@.skip(i as int)[0] == v@[i as int]);
                        assert(v@.skip(i as int).drop_first() =~= v@.skip(i + 1));
                        vstd::std_specs::vec::axiom_vec_index_decreases(*v, i as int);
                        assert(decreases_to!(*node => node->Run_0));
                        assert(decreases_to!(*v => v[i as int]));
                    }
                    let ghost ei = self.env_model();
                    let r = self.run(prog, &v[i], budget);
                    if r.is_err() {
                        proof {
                            let sk = v@.skip(i as int);
                            assert(sk.len() > 0);
                            assert(run_list(*prog, sk, ei, budget as nat) == run_spec(*prog, v@[i as int], ei, budget as nat));
                        }
                        return r;
                    }
                    i = i + 1;
                }
                proof {
                    assert(v@.skip(i as int) =~= Seq::<Node<S>>::empty());
                }
                Ok(())
            },
            Node::Call(f, _) => {
                if *f >= prog.functions.len() {
                    return Err(AlgebraError::InterpreterBug);
                }
                if budget == 0 {
                    return Err(AlgebraError::NotSupported(recursion_label()));
                }
                self.run(prog, &prog.functions[*f], budget - 1)
            },
            Node::Push(v) => self.push_value(v),
            Node::Prim(p, _) => self.prim(p),
            Node::ImplPrim(name, _) => Err(AlgebraError::NotSupported(name.clone())),
            Node::Mod(m, ops, _) => self.run_mod(prog, node, m, ops, budget),
            Node::ImplMod(name, _) => Err(AlgebraError::NotSupported(name.clone())),
            Node::CustomInverse(c, _) => {
                if c.is_obverse {
                    Err(AlgebraError::NotSupported(custom_inverse_label()))
                } else {
                    match &c.normal {
                        Some(sn) => self.run(prog, &sn.node, budget),
                        None => Err(AlgebraError::NoInverse),
                    }
                }
            },
            Node::CopyToUnder(..) | Node::PushUnder(..) | Node::PopUnder(..) => Ok(()),
            Node::Unknown(d) => Err(AlgebraError::NotSupported(d.clone())),
        }
    }

    /// Runs a combinator node.
    fn run_mod(
        &mut self,
        prog: &Assembly<S>,
        node: &Node<S>,
        m: &Modifier,
        ops: &Vec<SigNode<S>>,
        budget: usize,
    ) -> (r: Result<(), AlgebraError>)
        requires
            node is Mod,
            node->Mod_0 == *m,
            node->Mod_1 == *ops,
        ensures
            outcome_is(run_spec(*prog, *node, old(self).env_model(), budget as nat), final(self).env_model(), r),
        decreases budget, *node, 0int,
    {
        let want: usize = match m {
            Modifier::Other(name) => return Err(AlgebraError::NotSupported(name.clone())),
            Modifier::Bracket | Modifier::Fork => 2,
            _ => 1,
        };
        if ops.len() != want {
            return Err(AlgebraError::InterpreterBug);
        }
        let f = &ops[0];
        let g = &ops[ops.len() - 1];
        proof {
            assert(decreases_to!(*node => f.node));
            assert(decreases_to!(*node => g.node));
        }
        match m {
            Modifier::Dip | Modifier::Gap | Modifier::On => {
                let a = self.pop()?;
                if let Modifier::On = m {
                    let c = crate::expr::copy_expr(&a);
                    self.push(c);
                    proof {
                        assert(self.model() =~= old(self).model());
                    }
                }
                self.run(prog, &f.node, budget)?;
                if let Modifier::Gap = m {
                } else {
                    self.push(a);
                }
                Ok(())
            },
            _ => {
                let saved = self.pop_args(f.args)?;
                match m {
                    Modifier::By => {
                        if saved.len() > 0 {
                            let d = crate::expr::copy_expr(&saved[0]);
                            self.push(d);
                        }
                        proof {
                            if saved.len() > 0 {
                                assert(views(saved@)[0] == saved@[0]@);
                            }
                        }
                        self.push_all(saved);
                        proof {
                            let k = f.args as int;
                            let s0 = old(self).model();
                            let rest = s0.take(s0.len() - k);
                            let sv = s0.skip(s0.len() - k);
                            let dup = if k > 0 { seq![sv[0]] } else { Seq::<Poly<S>>::empty() };
                            assert(self.model() =~= rest + dup + sv);
                        }
                        self.run(prog, &f.node, budget)
                    },
                    Modifier::Both => {
                        let again = copy_all(&saved);
                        self.run(prog, &f.node, budget)?;
                        self.push_all(again);
                        self.run(prog, &f.node, budget)
                    },
                    Modifier::Bracket => {
                        self.run(prog, &g.node, budget)?;
                        self.push_all(saved);
                        self.run(prog, &f.node, budget)
                    },
                    _ => {
                        let fed = if f.args > g.args {
                            let mut all = copy_all(&saved);
                            let fed = all.split_off(f.args - g.args);
                            proof {
                                assert(views(fed@) =~= views(saved@).skip(f.args - g.args));
                            }
                            fed
                        } else {
                            copy_all(&saved)
                        };
                        self.push_all(fed);
                        self.run(prog, &g.node, budget)?;
                        self.push_reversed(saved);
                        self.run(prog, &f.node, budget)
                    },
                }
            },
        }
    }
}

/// The description of a recursive call.
fn recursion_label() -> (r: String)
    ensures
        r@ == "recursion"@,
{
    "recursion".to_string()
}

/// The description of an obverse.
fn custom_inverse_label() -> (r: String)
    ensures
        r@ == "custom inverses"@,
{
    "custom inverses".to_string()
}

/// The state an analysis starts from.
pub open spec fn initial_env<S: Scalar>() -> EnvModel<S> {
    EnvModel { stack: seq![var_poly::<S>()], handled: 0, any_complex: false }
}

/// Running a sequence of nodes from the initial state; calls may nest as
/// deep as there are functions.
pub open spec fn analysis_of<S: Scalar>(prog: Assembly<S>, ns: Seq<Node<S>>) -> Outcome<S> {
    run_list(prog, ns, initial_env(), prog.functions.len() as nat)
}

/// Whether the analysis engaged: at least two algebra primitives ran, or a
/// value left on the stack has a term.
pub open spec fn handled_of<S>(env: EnvModel<S>) -> bool {
    env.handled >= 2 || exists|i: int| 0 <= i < env.stack.len() && (#[trigger] env.stack[i]).len() > 0
}

/// The single expression that a run leaves, or why there is none.
pub open spec fn result_of<S>(o: Outcome<S>) -> Result<Poly<S>, Failure> {
    match o.err {
        Some(f) => Err(f),
        None => if o.env.stack.len() == 0 {
            Err(Failure::Plain(AlgebraError::NoOutput))
        } else if o.env.stack.len() == 1 {
            Ok(o.env.stack[0])
        } else {
            Err(Failure::Plain(AlgebraError::TooManyOutputs))
        },
    }
}

/// What an analysis found.
pub struct Analysis<S> {
    pub expr: Result<Expr<S>, AlgebraError>,
    pub handled: bool,
    pub any_complex: bool,
}

/// Whether `r` is the result that `m` models.
pub open spec fn result_is<S>(r: Result<Expr<S>, AlgebraError>, m: Result<Poly<S>, Failure>) -> bool {
    match m {
        Ok(p) => r is Ok && r->Ok_0@ == p,
        Err(f) => r is Err && error_is(r->Err_0, f),
    }
}

/// Whether `a` reports the outcome `o`.
pub open spec fn analysis_is<S>(a: Analysis<S>, o: Outcome<S>) -> bool {
    &&& result_is(a.expr, result_of(o))
    &&& a.handled == handled_of(o.env)
    &&& a.any_complex == o.env.any_complex
}

/// Reads off the analysis from the final state and the error, if any.
fn finish<S: Scalar>(env: AlgebraEnv<S>, err: Option<AlgebraError>) -> (r: Analysis<S>)
    ensures
        r.handled == handled_of(env.env_model()),
        r.any_complex == env.any_complex,
        err is Some ==> r.expr == Err::<Expr<S>, AlgebraError>(err->0),
        err is None ==> result_is(r.expr, result_of(ok_out(env.env_model()))),
{
    let mut env = env;
    let ghost m = env.env_model();
    let mut handled = env.handled >= 2;
    let mut j: usize = 0;
    while j < env.stack.len()
        invariant
            j <= env.stack.len(),
            m == env.env_model(),
            handled == (env.handled >= 2 || exists|k: int| 0 <= k < j && (#[trigger] m.stack[k]).len() > 0),
        decreases env.stack.len() - j,
    {
        proof {
            assert(m.stack[j as int] == env.stack@[j as int]@);
        }
        if env.stack[j].is_complex() {
            handled = true;
        }
        j = j + 1;
    }
    let any_complex = env.any_complex;
    let expr = match err {
        Some(e) => Err(e),
        None => {
            if env.stack.len() == 0 {
                Err(AlgebraError::NoOutput)
            } else if env.stack.len() == 1 {
                proof {
                    assert(m.stack[0] == env.stack@[0]@);
                }
                let e = env.stack.pop().unwrap();
                Ok(e)
            } else {
                Err(AlgebraError::TooManyOutputs)
            }
        },
    };
    Analysis { expr, handled, any_complex }
}

/// Runs the nodes on the variable and reads off the expression they compute.
pub fn analyze<S: Scalar>(nodes: &[Node<S>], prog: &Assembly<S>) -> (r: Analysis<S>)
    ensures
        analysis_is(r, analysis_of(*prog, nodes@)),
{
    let mut env: AlgebraEnv<S> = AlgebraEnv::new();
    let budget = prog.functions.len();
    let ghost e0 = env.env_model();
    proof {
        assert(e0 == initial_env::<S>());
        assert(nodes@.skip(0) =~= nodes@);
    }
    let mut i: usize = 0;
    while i < nodes.len()
        invariant
            i <= nodes.len(),
            budget == prog.functions.len(),
            e0 == initial_env::<S>(),
            run_list(*prog, nodes@, e0, budget as nat) == run_list(
                *prog,
                nodes@.skip(i as int),
                env.env_model(),
                budget as nat,
            ),
        decreases nodes.len() - i,
    {
        proof {
            assert(nodes@.skip(i as int)[0] == nodes@[i as int]);
            assert(nodes@.skip(i as int).drop_first() =~= nodes@.skip(i + 1));
        }
        let ghost ei = env.env_model();
        let r = env.run(prog, &nodes[i], budget);
        if let Err(e) = r {
            proof {
                assert(run_list(*prog, nodes@.skip(i as int), ei, budget as nat) == run_spec(
                    *prog,
                    nodes@[i as int],
                    ei,
                    budget as nat,
                ));
            }
            return finish(env, Some(e));
        }
        i = i + 1;
    }
    proof {
        assert(nodes@.skip(i as int) =~= Seq::<Node<S>>::empty());
    }
    finish(env, None)
}

} // verus!

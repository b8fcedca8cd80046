//! The inverse, derivative and integral of what a program computes.
use vstd::prelude::*;
use crate::scalar::{Scalar, Op2, Probe};
use crate::expr::{Expr, Term, Base, BaseModel, TermModel, EntryModel, insert_put, take_key, lemma_view};
use crate::ir::{Primitive, Node, Assembly};
use crate::interp::{
    AlgebraError, Poly, Failure, analyze, analysis_of, result_of, handled_of, error_is, const_poly,
};
use crate::lower::{Instr, flat, flat_list, lower, push_coef, expr_to_node, emit, emit_prim, push_coef_node};

verus! {

/// Whether every term's base is the variable.
pub open spec fn all_on_x<S>(s: Poly<S>) -> bool {
    forall|i: int| 0 <= i < s.len() ==> (#[trigger] s[i]).0.base is X
}

/// The derivative term by term from entry `i` on, put into `acc`: `c x^p`
/// gives `(c p) x^(p - 1)`, left out where `c p` is zero.
pub open spec fn derived_from<S: Scalar>(acc: Poly<S>, s: Poly<S>, i: nat) -> Poly<S>
    decreases s.len() - i,
{
    if i >= s.len() {
        acc
    } else {
        let p = s[i as int].0.power;
        let c = S::apply2(Op2::Mul, s[i as int].1, p);
        let next = if S::holds(Probe::IsZero, c) {
            acc
        } else {
            insert_put(acc, TermModel { base: BaseModel::X, power: S::apply2(Op2::Sub, p, S::of_int(1)) }, c)
        };
        derived_from(next, s, i + 1)
    }
}

/// The derivative of a polynomial in the variable; zero where every term
/// drops out.
pub open spec fn derived<S: Scalar>(s: Poly<S>) -> Poly<S> {
    let d = derived_from(Seq::empty(), s, 0);
    if d.len() == 0 {
        const_poly(S::of_int(0))
    } else {
        d
    }
}

/// The integral term by term from entry `i` on, put into `acc`: `c x^p`
/// gives `(c / (p + 1)) x^(p + 1)`.
pub open spec fn integrated_from<S: Scalar>(acc: Poly<S>, s: Poly<S>, i: nat) -> Poly<S>
    decreases s.len() - i,
{
    if i >= s.len() {
        acc
    } else {
        let q = S::apply2(Op2::Add, s[i as int].0.power, S::of_int(1));
        integrated_from(
            insert_put(acc, TermModel { base: BaseModel::X, power: q }, S::apply2(Op2::Div, s[i as int].1, q)),
            s,
            i + 1,
        )
    }
}

/// The integral of a polynomial in the variable, without a constant.
pub open spec fn integrated<S: Scalar>(s: Poly<S>) -> Poly<S> {
    integrated_from(Seq::empty(), s, 0)
}

/// The span that emitted code carries: the last of the program's.
pub open spec fn last_span<S>(prog: Assembly<S>) -> usize {
    (prog.spans.len() - 1) as usize
}

/// What a calculus operation returns for the analysis of `nodes`: the
/// analysis error; `TooComplex` where a base is nested; else code for
/// `op` of the expression.
pub open spec fn calculus_ok<S: Scalar>(
    r: Result<Node<S>, AlgebraError>,
    prog: Assembly<S>,
    nodes: Seq<Node<S>>,
    integral: bool,
) -> bool {
    let o = analysis_of(prog, nodes);
    match result_of(o) {
        Err(f) => r is Err && error_is(r->Err_0, f),
        Ok(p) => if !all_on_x(p) {
            r == Err::<Node<S>, AlgebraError>(AlgebraError::TooComplex)
        } else {
            r is Ok && flat(r->Ok_0) == lower(
                if integral {
                    integrated(p)
                } else {
                    derived(p)
                },
                o.env.any_complex,
                last_span(prog),
            )
        },
    }
}

fn calculus<S: Scalar>(nodes: &[Node<S>], prog: &Assembly<S>, integral: bool) -> (r: Result<Node<S>, AlgebraError>)
    requires
        prog.spans.len() > 0,
    ensures
        calculus_ok(r, *prog, nodes@, integral),
{
    let data = analyze(nodes, prog);
    let e = match data.expr {
        Ok(e) => e,
        Err(err) => return Err(err),
    };
    let ghost p = e@;
    proof {
        lemma_view(e);
        assert(result_of(analysis_of(*prog, nodes@)) == Ok::<Poly<S>, Failure>(p));
    }
    let mut out: Expr<S> = Expr { entries: Vec::new() };
    proof {
        lemma_view(out);
        assert(out@ =~= Seq::<EntryModel<S>>::empty());
    }
    let mut i: usize = 0;
    while i < e.entries.len()
        invariant
            i <= e.entries.len(),
            p == e@,
            result_of(analysis_of(*prog, nodes@)) == Ok::<Poly<S>, Failure>(p),
            data.any_complex == analysis_of(*prog, nodes@).env.any_complex,
            prog.spans.len() > 0,
            p.len() == e.entries.len(),
            forall|k: int| 0 <= k < e.entries.len() ==> #[trigger] p[k] == (
                crate::expr::term_view(e.entries@[k].0),
                e.entries@[k].1,
            ),
            forall|j: int| 0 <= j < i ==> (#[trigger] p[j]).0.base is X,
            integral ==> integrated(p) == integrated_from(out@, p, i as nat),
            !integral ==> derived_from(Seq::empty(), p, 0) == derived_from(out@, p, i as nat),
        decreases e.entries.len() - i,
    {
        match &e.entries[i].0.base {
            Base::X => {},
            Base::Nested(_) => {
                proof {
                    assert(!(p[i as int].0.base is X));
                }
                return Err(AlgebraError::TooComplex);
            },
        }
        let pw = e.entries[i].0.power;
        let one = S::from_int(1);
        if integral {
            let q = S::op2(Op2::Add, pw, one);
            let c = S::op2(Op2::Div, e.entries[i].1, q);
            let t = Term { base: Base::X, power: q };
            proof {
                assert(crate::expr::term_view(t) == TermModel { base: BaseModel::<S>::X, power: q });
            }
            out.insert_entry(t, c, true);
        } else {
            let c = S::op2(Op2::Mul, e.entries[i].1, pw);
            if !S::probe(Probe::IsZero, c) {
                let q = S::op2(Op2::Sub, pw, one);
                let t = Term { base: Base::X, power: q };
                proof {
                    assert(crate::expr::term_view(t) == TermModel { base: BaseModel::<S>::X, power: q });
                }
                out.insert_entry(t, c, true);
            }
        }
        i = i + 1;
    }
    if !integral && out.entries.len() == 0 {
        proof {
            lemma_view(out);
        }
        let z = S::from_int(0);
        out = Expr::constant(z);
    }
    proof {
        lemma_view(out);
        assert(all_on_x(p));
    }
    let span = prog.spans.len() - 1;
    Ok(expr_to_node(&out, data.any_complex, span))
}

/// The derivative of what the nodes compute, as code.
pub fn derivative<S: Scalar>(nodes: &[Node<S>], prog: &Assembly<S>) -> (r: Result<Node<S>, AlgebraError>)
    requires
        prog.spans.len() > 0,
    ensures
        calculus_ok(r, *prog, nodes@, false),
{
    calculus(nodes, prog, false)
}

/// The integral of what the nodes compute, as code, without a constant.
pub fn integral<S: Scalar>(nodes: &[Node<S>], prog: &Assembly<S>) -> (r: Result<Node<S>, AlgebraError>)
    requires
        prog.spans.len() > 0,
    ensures
        calculus_ok(r, *prog, nodes@, true),
{
    calculus(nodes, prog, true)
}

/// The variable to the power `n`.
pub open spec fn x_term<S: Scalar>(n: i64) -> TermModel<S> {
    TermModel { base: BaseModel::X, power: S::of_int(n) }
}

/// The code that computes `x` from `y = a x^2 + b x + c` on the stack, `a`
/// being absent where it is zero: for a quadratic with `b` zero,
/// `sqrt((y - c) / a)`; for a full quadratic, the larger of the two roots'
/// numerators `root - b` and `-root - b` over `2a`; where `a` and `b` are
/// zero, the constant `c`; through the origin, `y` itself when `b` is one,
/// `y / b` when `|b| > 1`, else `y * (1 / b)`; otherwise `(y - c) / b`.
pub open spec fn inverse_code<S: Scalar>(a: Option<S>, b: S, c: S, cx: bool, span: usize) -> Seq<Instr<S>> {
    match a {
        Some(a) => if S::holds(Probe::IsZero, b) {
            seq![push_coef(c, cx), Instr::Op(Primitive::Sub, span), push_coef(a, cx), Instr::Op(Primitive::Div, span), Instr::Op(Primitive::Sqrt, span)]
        } else {
            seq![push_coef(c, cx), Instr::Op(Primitive::Flip, span), Instr::Op(Primitive::Sub, span), push_coef(S::apply2(Op2::Mul, S::of_int(-4i64), a), cx), Instr::Op(Primitive::Mul, span), push_coef(S::apply2(Op2::Mul, b, b), cx), Instr::Op(Primitive::Add, span), Instr::Op(Primitive::Sqrt, span), Instr::Op(Primitive::Dup, span), push_coef(b, cx), Instr::Op(Primitive::Sub, span), Instr::Op(Primitive::Flip, span), Instr::Op(Primitive::Neg, span), push_coef(b, cx), Instr::Op(Primitive::Sub, span), Instr::Op(Primitive::Max, span), push_coef(S::apply2(Op2::Mul, S::of_int(2), a), cx), Instr::Op(Primitive::Div, span)]
        },
        None => if S::holds(Probe::IsZero, b) {
            seq![Instr::Op(Primitive::Pop, span), push_coef(c, cx)]
        } else if S::holds(Probe::IsZero, c) {
            if S::holds(Probe::IsOne, b) {
                seq![Instr::Op(Primitive::Identity, span)]
            } else if S::holds(Probe::AbsAboveOne, b) {
                seq![push_coef(b, cx), Instr::Op(Primitive::Div, span)]
            } else {
                seq![push_coef(S::apply2(Op2::Div, S::of_int(1), b), cx), Instr::Op(Primitive::Mul, span)]
            }
        } else {
            seq![push_coef(c, cx), Instr::Op(Primitive::Sub, span), push_coef(b, cx), Instr::Op(Primitive::Div, span)]
        },
    }
}

/// A coefficient, zero where absent.
pub open spec fn or_zero<S: Scalar>(c: Option<S>) -> S {
    match c {
        Some(v) => v,
        None => S::of_int(0),
    }
}

/// What the inverse returns for the analysis of `nodes`: `Err(None)` where
/// the analysis did not engage; the analysis error; `TooComplex` where a
/// term other than `x^0`, `x^1`, `x^2` is left; else the code of
/// [`inverse_code`].
pub open spec fn inverse_ok<S: Scalar>(
    r: Result<Node<S>, Option<AlgebraError>>,
    prog: Assembly<S>,
    nodes: Seq<Node<S>>,
) -> bool {
    let o = analysis_of(prog, nodes);
    if !handled_of(o.env) {
        r == Err::<Node<S>, Option<AlgebraError>>(None)
    } else {
        match result_of(o) {
            Err(f) => r is Err && r->Err_0 is Some && error_is(r->Err_0->0, f),
            Ok(p) => {
                let (c, p1) = take_key(p, x_term::<S>(0));
                let (b, p2) = take_key(p1, x_term::<S>(1));
                let (a, p3) = take_key(p2, x_term::<S>(2));
                let a = match a {
                    Some(v) => if S::holds(Probe::IsZero, v) {
                        None
                    } else {
                        Some(v)
                    },
                    None => None,
                };
                if p3.len() > 0 {
                    r == Err::<Node<S>, Option<AlgebraError>>(Some(AlgebraError::TooComplex))
                } else {
                    r is Ok && flat(r->Ok_0) == inverse_code(a, or_zero(b), or_zero(c), o.env.any_complex, last_span(prog))
                }
            },
        }
    }
}

fn take_coef<S: Scalar>(e: &mut Expr<S>, n: i64) -> (r: Option<S>)
    ensures
        r == take_key(old(e)@, x_term::<S>(n)).0,
        final(e)@ == take_key(old(e)@, x_term::<S>(n)).1,
{
    let t = Term { base: Base::X, power: S::from_int(n) };
    proof {
        assert(crate::expr::term_view(t) == x_term::<S>(n));
    }
    e.remove_key(&t)
}

fn coef_or_zero<S: Scalar>(c: Option<S>) -> (r: S)
    ensures
        r == or_zero(c),
{
    match c {
        Some(v) => v,
        None => S::from_int(0),
    }
}

/// Code that computes the input back from the output of the nodes, where
/// they compute a polynomial of degree at most two. `Err(None)` says that
/// the nodes are not algebra this inverter engages with.
pub fn algebraic_inverse<S: Scalar>(nodes: &[Node<S>], prog: &Assembly<S>) -> (r: Result<Node<S>, Option<AlgebraError>>)
    requires
        prog.spans.len() > 0,
    ensures
        inverse_ok(r, *prog, nodes@),
{
    let data = analyze(nodes, prog);
    if !data.handled {
        return Err(None);
    }
    let mut e = match data.expr {
        Ok(e) => e,
        Err(err) => return Err(Some(err)),
    };
    let c = take_coef(&mut e, 0);
    let b = take_coef(&mut e, 1);
    let a = take_coef(&mut e, 2);
    let a = match a {
        Some(v) => if S::probe(Probe::IsZero, v) {
            None
        } else {
            Some(v)
        },
        None => None,
    };
    proof {
        lemma_view(e);
    }
    if e.entries.len() > 0 {
        return Err(Some(AlgebraError::TooComplex));
    }
    let c = coef_or_zero(c);
    let b = coef_or_zero(b);
    let cx = data.any_complex;
    let span = prog.spans.len() - 1;
    Ok(inverse_node(a, b, c, cx, span))
}


fn emit_full_quadratic<S: Scalar>(code: &mut Vec<Node<S>>, a: S, b: S, c: S, cx: bool, span: usize)
    ensures
        flat_list(final(code)@) == flat_list(old(code)@) + seq![push_coef(c, cx), Instr::Op(Primitive::Flip, span), Instr::Op(Primitive::Sub, span), push_coef(S::apply2(Op2::Mul, S::of_int(-4i64), a), cx), Instr::Op(Primitive::Mul, span), push_coef(S::apply2(Op2::Mul, b, b), cx), Instr::Op(Primitive::Add, span), Instr::Op(Primitive::Sqrt, span), Instr::Op(Primitive::Dup, span), push_coef(b, cx), Instr::Op(Primitive::Sub, span), Instr::Op(Primitive::Flip, span), Instr::Op(Primitive::Neg, span), push_coef(b, cx), Instr::Op(Primitive::Sub, span), Instr::Op(Primitive::Max, span), push_coef(S::apply2(Op2::Mul, S::of_int(2), a), cx), Instr::Op(Primitive::Div, span)],
{
    let m4 = S::from_int(-4);
    let two = S::from_int(2);
    emit(code, push_coef_node(c, cx));
    emit_prim(code, Primitive::Flip, span);
    emit_prim(code, Primitive::Sub, span);
    emit(code, push_coef_node(S::op2(Op2::Mul, m4, a), cx));
    emit_prim(code, Primitive::Mul, span);
    emit(code, push_coef_node(S::op2(Op2::Mul, b, b), cx));
    emit_prim(code, Primitive::Add, span);
    emit_prim(code, Primitive::Sqrt, span);
    emit_prim(code, Primitive::Dup, span);
    emit(code, push_coef_node(b, cx));
    emit_prim(code, Primitive::Sub, span);
    emit_prim(code, Primitive::Flip, span);
    emit_prim(code, Primitive::Neg, span);
    emit(code, push_coef_node(b, cx));
    emit_prim(code, Primitive::Sub, span);
    emit_prim(code, Primitive::Max, span);
    emit(code, push_coef_node(S::op2(Op2::Mul, two, a), cx));
    emit_prim(code, Primitive::Div, span);
    proof {
        assert(flat_list(code@) =~= flat_list(old(code)@) + seq![push_coef(c, cx), Instr::Op(Primitive::Flip, span), Instr::Op(Primitive::Sub, span), push_coef(S::apply2(Op2::Mul, S::of_int(-4i64), a), cx), Instr::Op(Primitive::Mul, span), push_coef(S::apply2(Op2::Mul, b, b), cx), Instr::Op(Primitive::Add, span), Instr::Op(Primitive::Sqrt, span), Instr::Op(Primitive::Dup, span), push_coef(b, cx), Instr::Op(Primitive::Sub, span), Instr::Op(Primitive::Flip, span), Instr::Op(Primitive::Neg, span), push_coef(b, cx), Instr::Op(Primitive::Sub, span), Instr::Op(Primitive::Max, span), push_coef(S::apply2(Op2::Mul, S::of_int(2), a), cx), Instr::Op(Primitive::Div, span)]);
    }
}

/// The code of [`inverse_code`].
fn inverse_node<S: Scalar>(a: Option<S>, b: S, c: S, cx: bool, span: usize) -> (r: Node<S>)
    ensures
        flat(r) == inverse_code(a, b, c, cx, span),
{
    let mut code: Vec<Node<S>> = Vec::new();
    proof {
        assert(flat_list(code@) =~= Seq::<Instr<S>>::empty());
    }
    match a {
        Some(a) => {
            if S::probe(Probe::IsZero, b) {
                emit(&mut code, push_coef_node(c, cx));
                emit_prim(&mut code, Primitive::Sub, span);
                emit(&mut code, push_coef_node(a, cx));
                emit_prim(&mut code, Primitive::Div, span);
                emit_prim(&mut code, Primitive::Sqrt, span);
            } else {
                emit_full_quadratic(&mut code, a, b, c, cx, span);
            }
        },
        None => {
            if S::probe(Probe::IsZero, b) {
                emit_prim(&mut code, Primitive::Pop, span);
                emit(&mut code, push_coef_node(c, cx));
            } else if S::probe(Probe::IsZero, c) {
                if S::probe(Probe::IsOne, b) {
                    let r = Node::Prim(Primitive::Identity, span);
                    proof {
                        assert(flat(r) =~= inverse_code(a, b, c, cx, span));
                    }
                    return r;
                } else if S::probe(Probe::AbsAboveOne, b) {
                    emit(&mut code, push_coef_node(b, cx));
                    emit_prim(&mut code, Primitive::Div, span);
                } else {
                    let one = S::from_int(1);
                    emit(&mut code, push_coef_node(S::op2(Op2::Div, one, b), cx));
                    emit_prim(&mut code, Primitive::Mul, span);
                }
            } else {
                emit(&mut code, push_coef_node(c, cx));
                emit_prim(&mut code, Primitive::Sub, span);
                emit(&mut code, push_coef_node(b, cx));
                emit_prim(&mut code, Primitive::Div, span);
            }
        },
    }
    proof {
        assert(flat_list(code@) =~= inverse_code(a, b, c, cx, span));
    }
    Node::Run(code)
}

} // verus!

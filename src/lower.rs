//! Turning expressions back into stack code.
use vstd::prelude::*;
use crate::scalar::{Scalar, Probe};
use crate::expr::{Expr, Base, BaseModel, lemma_view};
use crate::ir::{Primitive, Modifier, Datum, Value, SigNode, Node};
use crate::interp::Poly;

verus! {

/// One instruction of flattened stack code: a pushed real or complex
/// number, a primitive, an `On` around a body, or anything else.
pub enum Instr<S> {
    Num(S),
    Cplx(S),
    Op(Primitive, usize),
    On(Seq<Instr<S>>, usize),
    Opaque,
}

/// A node as the instructions it runs, nested sequences flattened.
pub open spec fn flat<S>(n: Node<S>) -> Seq<Instr<S>>
    decreases n, 1int,
{
    match n {
        Node::Run(v) => flat_list(v@),
        Node::Push(v) => if v.rank == 0 && v.first is Num {
            seq![Instr::Num(v.first->Num_0)]
        } else if v.rank == 0 && v.first is Complex {
            seq![Instr::Cplx(v.first->Complex_0)]
        } else {
            seq![Instr::Opaque]
        },
        Node::Prim(p, s) => seq![Instr::Op(p, s)],
        Node::Mod(m, ops, s) => if m is On && ops.len() == 1 {
            seq![Instr::On(flat(ops@[0].node), s)]
        } else {
            seq![Instr::Opaque]
        },
        _ => seq![Instr::Opaque],
    }
}

pub open spec fn flat_list<S>(ns: Seq<Node<S>>) -> Seq<Instr<S>>
    decreases ns, 0int,
{
    if ns.len() == 0 {
        Seq::empty()
    } else {
        flat(ns[0]) + flat_list(ns.drop_first())
    }
}

proof fn lemma_flat_list_push<S>(ns: Seq<Node<S>>, n: Node<S>)
    ensures
        flat_list(ns.push(n)) == flat_list(ns) + flat(n),
    decreases ns.len(),
{
    if ns.len() == 0 {
        assert(ns.push(n).drop_first() =~= Seq::<Node<S>>::empty());
        assert(ns.push(n)[0] == n);
        assert(flat_list(Seq::<Node<S>>::empty()) == Seq::<Instr<S>>::empty());
        assert(flat_list(ns.push(n)) =~= flat(n));
    } else {
        assert(ns.push(n).drop_first() =~= ns.drop_first().push(n));
        lemma_flat_list_push(ns.drop_first(), n);
        assert(flat_list(ns.push(n)) =~= flat_list(ns) + flat(n));
    }
}

/// A pushed coefficient: complex where the analysis was complex, else its
/// real part, or NaN where it has an imaginary part.
pub open spec fn push_coef<S: Scalar>(c: S, any_complex: bool) -> Instr<S> {
    if any_complex {
        Instr::Cplx(c)
    } else {
        match S::real_of(c) {
            Some(x) => Instr::Num(x),
            None => Instr::Num(S::nan_value()),
        }
    }
}

/// The code for the entries of `s` from `i` on, appended to `acc`.
pub open spec fn lower_from<S: Scalar>(acc: Seq<Instr<S>>, s: Poly<S>, i: nat, cx: bool, span: usize) -> Seq<Instr<S>>
    decreases s, 1int, s.len() - i,
{
    if i >= s.len() {
        acc
    } else {
        lower_from(lower_entry(acc, s, i, cx, span), s, i + 1, cx, span)
    }
}

/// The code for entry `i` of `s`, appended to `acc`. A zero coefficient
/// multiplies by zero; a zero power replaces the input by one; otherwise the
/// base is computed (for the variable after the first entry, the code so far
/// is wrapped in `On` to keep the input), raised to the power unless it is
/// one, and scaled by the coefficient unless that is one. Every entry after
/// the first is added to what came before.
pub open spec fn lower_entry<S: Scalar>(acc: Seq<Instr<S>>, s: Poly<S>, i: nat, cx: bool, span: usize) -> Seq<Instr<S>>
    decreases s, 0int, 0int,
{
    if i >= s.len() {
        acc
    } else {
        let t = s[i as int].0;
        let c = s[i as int].1;
        let a1 = if S::holds(Probe::IsZero, c) {
            acc + seq![Instr::Num(S::of_int(0)), Instr::Op(Primitive::Mul, span)]
        } else if S::holds(Probe::IsZero, t.power) {
            acc + seq![Instr::Op(Primitive::Pop, span), Instr::Num(S::of_int(1))]
        } else {
            let a2 = match t.base {
                BaseModel::X => if i > 0 {
                    seq![Instr::On(acc, span)]
                } else {
                    acc
                },
                BaseModel::Nested(e) => lower_from(acc, e, 0, cx, span),
            };
            if !S::holds(Probe::IsOne, t.power) {
                a2 + seq![Instr::Num(t.power), Instr::Op(Primitive::Pow, span)]
            } else {
                a2
            }
        };
        let a3 = if !S::holds(Probe::IsZero, c) && !S::holds(Probe::IsOne, c) {
            a1 + seq![push_coef(c, cx), Instr::Op(Primitive::Mul, span)]
        } else {
            a1
        };
        if i > 0 {
            a3 + seq![Instr::Op(Primitive::Add, span)]
        } else {
            a3
        }
    }
}

/// The code that computes an expression from the input.
pub open spec fn lower<S: Scalar>(s: Poly<S>, cx: bool, span: usize) -> Seq<Instr<S>> {
    lower_from(Seq::empty(), s, 0, cx, span)
}

/// A node that pushes a real number.
pub fn push_num<S: Scalar>(x: S) -> (r: Node<S>)
    ensures
        flat(r) == seq![Instr::Num(x)],
{
    Node::Push(Value { rank: 0, first: Datum::Num(x) })
}

/// A node that pushes a complex number.
pub fn push_complex<S: Scalar>(x: S) -> (r: Node<S>)
    ensures
        flat(r) == seq![Instr::Cplx(x)],
{
    Node::Push(Value { rank: 0, first: Datum::Complex(x) })
}

/// A node that pushes a coefficient, as [`push_coef`] says.
pub fn push_coef_node<S: Scalar>(c: S, any_complex: bool) -> (r: Node<S>)
    ensures
        flat(r) == seq![push_coef(c, any_complex)],
{
    if any_complex {
        push_complex(c)
    } else {
        match S::into_real(c) {
            Some(x) => push_num(x),
            None => push_num(S::not_a_number()),
        }
    }
}

/// Appends a node to code.
pub fn emit<S: Scalar>(code: &mut Vec<Node<S>>, n: Node<S>)
    ensures
        flat_list(final(code)@) == flat_list(old(code)@) + flat(n),
{
    proof {
        lemma_flat_list_push(code@, n);
    }
    code.push(n);
}

pub(crate) fn emit_prim<S: Scalar>(code: &mut Vec<Node<S>>, p: Primitive, span: usize)
    ensures
        flat_list(final(code)@) == flat_list(old(code)@) + seq![Instr::Op(p, span)],
{
    emit(code, Node::Prim(p, span));
}

fn lower_entries<S: Scalar>(code: &mut Vec<Node<S>>, e: &Expr<S>, cx: bool, span: usize)
    ensures
        flat_list(final(code)@) == lower_from(flat_list(old(code)@), e@, 0, cx, span),
    decreases *e, 1int,
{
    proof {
        lemma_view(*e);
    }
    let mut i: usize = 0;
    let ghost a0 = flat_list(code@);
    while i < e.entries.len()
        invariant
            i <= e.entries.len(),
            e@.len() == e.entries.len(),
            lower_from(a0, e@, 0, cx, span) == lower_from(flat_list(code@), e@, i as nat, cx, span),
        decreases e.entries.len() - i,
    {
        lower_entry_into(code, e, i, cx, span);
        i = i + 1;
    }
}

fn lower_entry_into<S: Scalar>(code: &mut Vec<Node<S>>, e: &Expr<S>, i: usize, cx: bool, span: usize)
    requires
        i < e.entries.len(),
    ensures
        flat_list(final(code)@) == lower_entry(flat_list(old(code)@), e@, i as nat, cx, span),
    decreases *e, 0int,
{
    proof {
        lemma_view(*e);
    }
    let t = &e.entries[i].0;
    let c = e.entries[i].1;
    let ghost a0 = flat_list(code@);
    let ghost tm = e@[i as int].0;
    if S::probe(Probe::IsZero, c) {
        emit(code, push_num(S::from_int(0)));
        emit_prim(code, Primitive::Mul, span);
    } else if S::probe(Probe::IsZero, t.power) {
        emit_prim(code, Primitive::Pop, span);
        emit(code, push_num(S::from_int(1)));
    } else {
        match &t.base {
            Base::X => {
                if i > 0 {
                    let body = code.split_off(0);
                    let ghost b = body@;
                    let sig = SigNode { node: Node::Run(body), args: 1, outputs: 1 };
                    let mut ops: Vec<SigNode<S>> = Vec::new();
                    ops.push(sig);
                    let wrapped = Node::Mod(Modifier::On, ops, span);
                    proof {
                        assert(code@ =~= Seq::<Node<S>>::empty());
                        assert(flat_list(code@) == Seq::<Instr<S>>::empty());
                        assert(b == old(code)@);
                        assert(ops@[0].node == Node::Run(body));
                        assert(flat(ops@[0].node) == flat_list(b));
                        assert(ops.len() == 1);
                        assert(flat(wrapped) =~= seq![Instr::On(a0, span)]);
                    }
                    emit(code, wrapped);
                    proof {
                        assert(flat_list(code@) =~= seq![Instr::On(a0, span)]);
                    }
                }
            },
            Base::Nested(n) => {
                proof {
                    assert(tm.base == BaseModel::Nested(n@));
                }
                lower_entries(code, n, cx, span);
            },
        }
        if !S::probe(Probe::IsOne, t.power) {
            emit(code, push_num(t.power));
            emit_prim(code, Primitive::Pow, span);
        }
    }
    proof {
        let a1 = if S::holds(Probe::IsZero, c) {
            a0 + seq![Instr::Num(S::of_int(0)), Instr::Op(Primitive::Mul, span)]
        } else if S::holds(Probe::IsZero, tm.power) {
            a0 + seq![Instr::Op(Primitive::Pop, span), Instr::Num(S::of_int(1))]
        } else {
            let a2 = match tm.base {
                BaseModel::X => if i > 0 {
                    seq![Instr::On(a0, span)]
                } else {
                    a0
                },
                BaseModel::Nested(en) => lower_from(a0, en, 0, cx, span),
            };
            if !S::holds(Probe::IsOne, tm.power) {
                a2 + seq![Instr::Num(tm.power), Instr::Op(Primitive::Pow, span)]
            } else {
                a2
            }
        };
        assert(flat_list(code@) =~= a1);
    }
    if !S::probe(Probe::IsZero, c) && !S::probe(Probe::IsOne, c) {
        emit(code, push_coef_node(c, cx));
        emit_prim(code, Primitive::Mul, span);
    }
    if i > 0 {
        emit_prim(code, Primitive::Add, span);
    }
}

/// The code that computes `e` from the input on the stack.
pub fn expr_to_node<S: Scalar>(e: &Expr<S>, any_complex: bool, span: usize) -> (r: Node<S>)
    ensures
        flat(r) == lower(e@, any_complex, span),
{
    let mut code: Vec<Node<S>> = Vec::new();
    proof {
        assert(flat_list(code@) =~= Seq::<Instr<S>>::empty());
    }
    lower_entries(&mut code, e, any_complex, span);
    Node::Run(code)
}

} // verus!

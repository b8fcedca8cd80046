//! Sums of powered terms over scalar coefficients, with their arithmetic.
//!
//! An [`Expr`] is modelled by a sequence of entries `(term, coefficient)`,
//! where a term is a base (the variable, or a nested expression) raised to a
//! power. A new entry is placed where [`term_cmp`] puts it, and adding an
//! entry whose term orders equal to an existing one adds into its
//! coefficient.
use vstd::prelude::*;
use crate::scalar::{Scalar, Order, Op1, Op2, Probe};

verus! {

/// What a term raises to its power: the variable, or a nested expression.
pub enum Base<S> {
    X,
    Nested(Box<Expr<S>>),
}

/// `base ^ power`.
pub struct Term<S> {
    pub base: Base<S>,
    pub power: S,
}

/// An entry of an expression: a term and its coefficient.
pub type Entry<S> = (Term<S>, S);

/// A sum of `coefficient * term`.
pub struct Expr<S> {
    pub entries: Vec<Entry<S>>,
}

/// The model of a base.
pub enum BaseModel<S> {
    X,
    Nested(Seq<EntryModel<S>>),
}

/// The model of a term.
pub struct TermModel<S> {
    pub base: BaseModel<S>,
    pub power: S,
}

/// The model of an entry; a sequence of these models an expression.
pub type EntryModel<S> = (TermModel<S>, S);

pub open spec fn base_view<S>(b: Base<S>) -> BaseModel<S>
    decreases b, 0int, 0int,
{
    match b {
        Base::X => BaseModel::X,
        Base::Nested(e) => BaseModel::Nested(expr_view(*e)),
    }
}

pub open spec fn term_view<S>(t: Term<S>) -> TermModel<S>
    decreases t, 1int, 0int,
{
    TermModel { base: base_view(t.base), power: t.power }
}

pub open spec fn expr_view<S>(e: Expr<S>) -> Seq<EntryModel<S>>
    decreases e, e.entries.len() + 1, 0int,
{
    view_from(e, 0)
}

pub open spec fn view_from<S>(e: Expr<S>, i: nat) -> Seq<EntryModel<S>>
    decreases e, e.entries.len() - i, 0int,
{
    if i >= e.entries.len() {
        Seq::empty()
    } else {
        seq![(term_view(e.entries@[i as int].0), e.entries@[i as int].1)] + view_from(e, i + 1)
    }
}

impl<S> View for Expr<S> {
    type V = Seq<EntryModel<S>>;

    open spec fn view(&self) -> Seq<EntryModel<S>> {
        expr_view(*self)
    }
}

proof fn lemma_view_from<S>(e: Expr<S>, i: nat)
    requires
        i <= e.entries.len(),
    ensures
        view_from(e, i).len() == e.entries.len() - i,
        forall|k: int|
            0 <= k < e.entries.len() - i ==> #[trigger] view_from(e, i)[k] == (
                term_view(e.entries@[i + k].0),
                e.entries@[i + k].1,
            ),
    decreases e.entries.len() - i,
{
    if i < e.entries.len() {
        lemma_view_from(e, i + 1);
        assert forall|k: int| 0 <= k < e.entries.len() - i implies #[trigger] view_from(e, i)[k] == (
            term_view(e.entries@[i + k].0),
            e.entries@[i + k].1,
        ) by {
            if k > 0 {
                assert(view_from(e, i)[k] == view_from(e, i + 1)[k - 1]);
            }
        }
    }
}

/// The model of an expression lists its entries one for one.
pub proof fn lemma_view<S>(e: Expr<S>)
    ensures
        e@.len() == e.entries.len(),
        forall|k: int|
            0 <= k < e.entries.len() ==> #[trigger] e@[k] == (
                term_view(e.entries@[k].0),
                e.entries@[k].1,
            ),
{
    lemma_view_from(e, 0);
}

/// Compares two integers.
pub open spec fn order_of(a: int, b: int) -> Order {
    if a < b {
        Order::Less
    } else if a == b {
        Order::Equal
    } else {
        Order::Greater
    }
}

/// The order on terms: by base first, with the variable before any nested
/// expression, then by power.
pub open spec fn term_cmp<S: Scalar>(a: TermModel<S>, b: TermModel<S>) -> Order
    decreases a, 0int,
{
    match (a.base, b.base) {
        (BaseModel::X, BaseModel::X) => S::compare(a.power, b.power),
        (BaseModel::X, BaseModel::Nested(_)) => Order::Less,
        (BaseModel::Nested(_), BaseModel::X) => Order::Greater,
        (BaseModel::Nested(x), BaseModel::Nested(y)) => {
            let o = poly_cmp(x, y);
            if o == Order::Equal {
                S::compare(a.power, b.power)
            } else {
                o
            }
        },
    }
}

/// The order on expressions: by number of entries first, then entry by
/// entry, each by term and then by coefficient.
pub open spec fn poly_cmp<S: Scalar>(a: Seq<EntryModel<S>>, b: Seq<EntryModel<S>>) -> Order
    decreases a, a.len() + 1,
{
    let o = order_of(a.len() as int, b.len() as int);
    if o == Order::Equal {
        poly_cmp_from(a, b, 0)
    } else {
        o
    }
}

/// The first difference between the entries of `a` and `b` from index `i` on.
pub open spec fn poly_cmp_from<S: Scalar>(a: Seq<EntryModel<S>>, b: Seq<EntryModel<S>>, i: nat) -> Order
    decreases a, a.len() - i,
{
    if i >= a.len() || i >= b.len() {
        Order::Equal
    } else {
        let t = term_cmp(a[i as int].0, b[i as int].0);
        let o = if t == Order::Equal {
            S::compare(a[i as int].1, b[i as int].1)
        } else {
            t
        };
        if o == Order::Equal {
            poly_cmp_from(a, b, i + 1)
        } else {
            o
        }
    }
}

/// Compares two terms.
pub fn cmp_terms<S: Scalar>(a: &Term<S>, b: &Term<S>) -> (r: Order)
    ensures
        r == term_cmp(term_view(*a), term_view(*b)),
    decreases *a, 0int,
{
    match (&a.base, &b.base) {
        (Base::X, Base::X) => S::cmp_total(a.power, b.power),
        (Base::X, Base::Nested(_)) => Order::Less,
        (Base::Nested(_), Base::X) => Order::Greater,
        (Base::Nested(x), Base::Nested(y)) => {
            let o = cmp_exprs(x, y);
            if o == Order::Equal {
                S::cmp_total(a.power, b.power)
            } else {
                o
            }
        },
    }
}

/// Compares two expressions.
pub fn cmp_exprs<S: Scalar>(a: &Expr<S>, b: &Expr<S>) -> (r: Order)
    ensures
        r == poly_cmp(a@, b@),
    decreases *a, a.entries.len() + 1,
{
    proof {
        lemma_view(*a);
        lemma_view(*b);
    }
    if a.entries.len() < b.entries.len() {
        return Order::Less;
    } else if a.entries.len() > b.entries.len() {
        return Order::Greater;
    }
    cmp_entries_from(a, b, 0)
}

fn cmp_entries_from<S: Scalar>(a: &Expr<S>, b: &Expr<S>, i: usize) -> (r: Order)
    requires
        i <= a.entries.len(),
    ensures
        r == poly_cmp_from(a@, b@, i as nat),
    decreases *a, a.entries.len() - i,
{
    proof {
        lemma_view(*a);
        lemma_view(*b);
    }
    if i >= a.entries.len() || i >= b.entries.len() {
        return Order::Equal;
    }
    let t = cmp_terms(&a.entries[i].0, &b.entries[i].0);
    let o = if t == Order::Equal {
        S::cmp_total(a.entries[i].1, b.entries[i].1)
    } else {
        t
    };
    if o == Order::Equal {
        cmp_entries_from(a, b, i + 1)
    } else {
        o
    }
}

/// A copy of a base.
pub fn copy_base<S: Scalar>(b: &Base<S>) -> (r: Base<S>)
    ensures
        base_view(r) == base_view(*b),
    decreases *b,
{
    match b {
        Base::X => Base::X,
        Base::Nested(e) => Base::Nested(Box::new(copy_expr(e))),
    }
}

/// A copy of a term.
pub fn copy_term<S: Scalar>(t: &Term<S>) -> (r: Term<S>)
    ensures
        term_view(r) == term_view(*t),
{
    let base = copy_base(&t.base);
    Term { base, power: t.power }
}

/// A copy of an expression.
pub fn copy_expr<S: Scalar>(e: &Expr<S>) -> (r: Expr<S>)
    ensures
        r@ == e@,
    decreases *e,
{
    let mut entries: Vec<Entry<S>> = Vec::new();
    let mut i: usize = 0;
    while i < e.entries.len()
        invariant
            i <= e.entries.len(),
            entries.len() == i,
            forall|j: int|
                0 <= j < i ==> term_view(#[trigger] entries@[j].0) == term_view(e.entries@[j].0)
                    && entries@[j].1 == e.entries@[j].1,
        decreases e.entries.len() - i,
    {
        let base = match &e.entries[i].0.base {
            Base::X => Base::X,
            Base::Nested(n) => Base::Nested(Box::new(copy_expr(n))),
        };
        entries.push((Term { base, power: e.entries[i].0.power }, e.entries[i].1));
        i = i + 1;
    }
    let r = Expr { entries };
    proof {
        lemma_view(r);
        lemma_view(*e);
        assert(r@ =~= e@);
    }
    r
}

/// `s` with `c * t` added: where an entry's term orders equal to `t`, `c`
/// is added to its coefficient; otherwise a new entry with coefficient
/// `0 + c` is placed where the term order puts it.
pub open spec fn insert_add<S: Scalar>(s: Seq<EntryModel<S>>, t: TermModel<S>, c: S) -> Seq<EntryModel<S>>
    decreases s.len(),
{
    if s.len() == 0 {
        seq![(t, S::apply2(Op2::Add, S::of_int(0), c))]
    } else {
        let o = term_cmp(t, s[0].0);
        if o == Order::Less {
            seq![(t, S::apply2(Op2::Add, S::of_int(0), c))] + s
        } else if o == Order::Equal {
            seq![(s[0].0, S::apply2(Op2::Add, s[0].1, c))] + s.drop_first()
        } else {
            seq![s[0]] + insert_add(s.drop_first(), t, c)
        }
    }
}

/// The entries of `r` added one after another into `s`.
pub open spec fn add_all<S: Scalar>(s: Seq<EntryModel<S>>, r: Seq<EntryModel<S>>) -> Seq<EntryModel<S>>
    decreases r.len(),
{
    if r.len() == 0 {
        s
    } else {
        add_all(insert_add(s, r[0].0, r[0].1), r.drop_first())
    }
}

/// `s` with the entry `(t, c)` put in: where an entry's term orders equal to
/// `t` it is replaced, otherwise the entry is placed where the term order
/// puts it.
pub open spec fn insert_put<S: Scalar>(s: Seq<EntryModel<S>>, t: TermModel<S>, c: S) -> Seq<EntryModel<S>>
    decreases s.len(),
{
    if s.len() == 0 {
        seq![(t, c)]
    } else {
        let o = term_cmp(t, s[0].0);
        if o == Order::Less {
            seq![(t, c)] + s
        } else if o == Order::Equal {
            seq![(t, c)] + s.drop_first()
        } else {
            seq![s[0]] + insert_put(s.drop_first(), t, c)
        }
    }
}

/// The entries of `r` put one after another into `s`, a later one
/// replacing an earlier one with an equal term.
pub open spec fn put_all<S: Scalar>(s: Seq<EntryModel<S>>, r: Seq<EntryModel<S>>) -> Seq<EntryModel<S>>
    decreases r.len(),
{
    if r.len() == 0 {
        s
    } else {
        put_all(insert_put(s, r[0].0, r[0].1), r.drop_first())
    }
}

/// The entries with every coefficient negated.
pub open spec fn negated<S: Scalar>(s: Seq<EntryModel<S>>) -> Seq<EntryModel<S>> {
    s.map_values(|e: EntryModel<S>| (e.0, S::apply1(Op1::Neg, e.1)))
}

proof fn lemma_insert_skip<S: Scalar>(s: Seq<EntryModel<S>>, t: TermModel<S>, c: S, i: int)
    requires
        0 <= i <= s.len(),
        forall|j: int| 0 <= j < i ==> term_cmp(t, #[trigger] s[j].0) == Order::Greater,
    ensures
        insert_add(s, t, c) == s.take(i) + insert_add(s.skip(i), t, c),
        insert_put(s, t, c) == s.take(i) + insert_put(s.skip(i), t, c),
    decreases i,
{
    if i > 0 {
        assert(term_cmp(t, s[0].0) == Order::Greater);
        let d = s.drop_first();
        assert forall|j: int| 0 <= j < i - 1 implies term_cmp(t, #[trigger] d[j].0) == Order::Greater by {
            assert(d[j] == s[j + 1]);
        }
        lemma_insert_skip(d, t, c, i - 1);
        assert(d.skip(i - 1) =~= s.skip(i));
        assert(s.take(i) =~= seq![s[0]] + d.take(i - 1));
    } else {
        assert(s.skip(0) =~= s);
        assert(s.take(0) =~= Seq::<EntryModel<S>>::empty());
    }
}

impl<S: Scalar> Expr<S> {
    /// Adds `c * t` into the expression, or puts `(t, c)` in where `put`
    /// is set.
    pub(crate) fn insert_entry(&mut self, t: Term<S>, c: S, put: bool)
        ensures
            put ==> final(self)@ == insert_put(old(self)@, term_view(t), c),
            !put ==> final(self)@ == insert_add(old(self)@, term_view(t), c),
    {
        let ghost s0 = self@;
        let ghost tv = term_view(t);
        proof {
            lemma_view(*self);
        }
        let mut i: usize = 0;
        while i < self.entries.len()
            invariant
                i <= self.entries.len(),
                self@ == s0,
                old(self)@ == s0,
                tv == term_view(t),
                self.entries.len() == s0.len(),
                forall|k: int| 0 <= k < self.entries.len() ==> #[trigger] s0[k] == (
                    term_view(self.entries@[k].0),
                    self.entries@[k].1,
                ),
                forall|j: int| 0 <= j < i ==> term_cmp(tv, #[trigger] s0[j].0) == Order::Greater,
            decreases self.entries.len() - i,
        {
            let o = cmp_terms(&t, &self.entries[i].0);
            proof {
                let sk = s0.skip(i as int);
                assert(sk[0] == s0[i as int]);
                assert(s0[i as int].0 == term_view(self.entries@[i as int].0));
                assert(term_cmp(tv, sk[0].0) == o);
                assert(sk.drop_first() =~= s0.skip(i + 1));
                lemma_insert_skip(s0, tv, c, i as int);
            }
            let ghost e0 = self.entries@;
            if o == Order::Less {
                let nc = if put {
                    c
                } else {
                    let z = S::from_int(0);
                    S::op2(Op2::Add, z, c)
                };
                self.entries.insert(i, (t, nc));
                proof {
                    lemma_view(*self);
                    assert(self.entries@ =~= e0.take(i as int) + seq![(t, nc)] + e0.skip(i as int));
                    let sk = s0.skip(i as int);
                    assert(term_cmp(tv, sk[0].0) == Order::Less);
                    assert(insert_put(sk, tv, c) == seq![(tv, c)] + sk);
                    assert(insert_add(sk, tv, c) == seq![(tv, S::apply2(Op2::Add, S::of_int(0), c))] + sk);
                    assert forall|k: int| 0 <= k < self.entries.len() implies #[trigger] self@[k] == (s0.take(i as int) + seq![(tv, nc)] + sk)[k] by {
                        if k > i {
                            assert(self.entries@[k] == e0[k - 1]);
                        }
                    }
                    if put {
                        assert(self@ =~= s0.take(i as int) + insert_put(s0.skip(i as int), tv, c));
                    } else {
                        assert(self@ =~= s0.take(i as int) + insert_add(s0.skip(i as int), tv, c));
                    }
                }
                return;
            } else if o == Order::Equal {
                let (old_t, old_c) = self.entries.remove(i);
                if put {
                    self.entries.insert(i, (t, c));
                    proof {
                        lemma_view(*self);
                        assert(self.entries@ =~= e0.take(i as int) + seq![(t, c)] + e0.skip(i + 1));
                        assert(self@ =~= s0.take(i as int) + insert_put(s0.skip(i as int), tv, c));
                    }
                } else {
                    let nc = S::op2(Op2::Add, old_c, c);
                    self.entries.insert(i, (old_t, nc));
                    proof {
                        lemma_view(*self);
                        assert(self.entries@ =~= e0.take(i as int) + seq![(old_t, nc)] + e0.skip(i + 1));
                        assert(self@ =~= s0.take(i as int) + insert_add(s0.skip(i as int), tv, c));
                    }
                }
                return;
            }
            i = i + 1;
        }
        proof {
            lemma_insert_skip(s0, tv, c, i as int);
            assert(s0.skip(i as int) =~= Seq::<EntryModel<S>>::empty());
        }
        let nc = if put {
            c
        } else {
            let z = S::from_int(0);
            S::op2(Op2::Add, z, c)
        };
        self.entries.push((t, nc));
        proof {
            lemma_view(*self);
            if put {
                assert(self@ =~= s0.take(i as int) + insert_put(s0.skip(i as int), tv, c));
            } else {
                assert(self@ =~= s0.take(i as int) + insert_add(s0.skip(i as int), tv, c));
            }
        }
    }
}

/// The power one half.
pub open spec fn half<S: Scalar>() -> S {
    S::apply1(Op1::Recip, S::of_int(2))
}

/// The coefficient of a constant expression: one entry, on the variable, to
/// a power that is zero.
pub open spec fn constant_of<S: Scalar>(s: Seq<EntryModel<S>>) -> Option<S> {
    if s.len() == 1 && s[0].0.base is X && S::holds(Probe::IsZero, s[0].0.power) {
        Some(s[0].1)
    } else {
        None
    }
}

/// The real number that a constant expression holds.
pub open spec fn real_constant_of<S: Scalar>(s: Seq<EntryModel<S>>) -> Option<S> {
    match constant_of(s) {
        Some(c) => S::real_of(c),
        None => None,
    }
}

/// Every power multiplied by `p`, every coefficient raised to `p`.
pub open spec fn powered<S: Scalar>(s: Seq<EntryModel<S>>, p: S) -> Seq<EntryModel<S>> {
    put_all(
        Seq::empty(),
        s.map_values(
            |e: EntryModel<S>|
                (
                    TermModel { base: e.0.base, power: S::apply2(Op2::Mul, e.0.power, p) },
                    S::apply2(Op2::Powf, e.1, p),
                ),
        ),
    )
}

/// Every power divided by `b`, the logarithm in base `b` of every
/// coefficient.
pub open spec fn logged<S: Scalar>(s: Seq<EntryModel<S>>, b: S) -> Seq<EntryModel<S>> {
    put_all(
        Seq::empty(),
        s.map_values(
            |e: EntryModel<S>|
                (
                    TermModel { base: e.0.base, power: S::apply2(Op2::Div, e.0.power, b) },
                    S::apply2(Op2::Log, e.1, b),
                ),
        ),
    )
}

/// The square root: with at most one entry, its power halved and the square
/// root of its coefficient; otherwise the whole expression nested, to the
/// power one half.
pub open spec fn rooted<S: Scalar>(s: Seq<EntryModel<S>>) -> Seq<EntryModel<S>> {
    if s.len() <= 1 {
        s.map_values(
            |e: EntryModel<S>|
                (
                    TermModel { base: e.0.base, power: S::apply2(Op2::Mul, e.0.power, half::<S>()) },
                    S::apply1(Op1::Sqrt, e.1),
                ),
        )
    } else {
        seq![(TermModel { base: BaseModel::Nested(s), power: half::<S>() }, S::of_int(1))]
    }
}

/// The entries of a nested expression with `dp` added to each power and
/// each coefficient `c` replaced by `last(first(ca, c), cb)`.
pub open spec fn shift_scale<S: Scalar>(s: Seq<EntryModel<S>>, dp: S, ca: S, cb: S, first: Op2, last: Op2) -> Seq<EntryModel<S>> {
    s.map_values(
        |e: EntryModel<S>|
            (
                TermModel { base: e.0.base, power: S::apply2(Op2::Add, e.0.power, dp) },
                S::apply2(last, S::apply2(first, ca, e.1), cb),
            ),
    )
}

/// Every coefficient `c` replaced by `op(c * ca, cb)`.
pub open spec fn rescale<S: Scalar>(s: Seq<EntryModel<S>>, ca: S, cb: S, op: Op2) -> Seq<EntryModel<S>> {
    s.map_values(|e: EntryModel<S>| (e.0, S::apply2(op, S::apply2(Op2::Mul, e.1, ca), cb)))
}

/// Product (or, where `div` is set, quotient) of `a` and `b`: the
/// contributions of every pair of entries, row by row, added together.
pub open spec fn product<S: Scalar>(a: Seq<EntryModel<S>>, b: Seq<EntryModel<S>>, div: bool) -> Seq<EntryModel<S>>
    decreases a, 3int, 0int,
{
    product_rows(a, b, div, 0, Seq::empty())
}

pub open spec fn product_rows<S: Scalar>(
    a: Seq<EntryModel<S>>,
    b: Seq<EntryModel<S>>,
    div: bool,
    i: nat,
    acc: Seq<EntryModel<S>>,
) -> Seq<EntryModel<S>>
    decreases a, 2int, a.len() - i,
{
    if i >= a.len() {
        acc
    } else {
        product_rows(a, b, div, i + 1, product_row(a, b, div, i, 0, acc))
    }
}

pub open spec fn product_row<S: Scalar>(
    a: Seq<EntryModel<S>>,
    b: Seq<EntryModel<S>>,
    div: bool,
    i: nat,
    j: nat,
    acc: Seq<EntryModel<S>>,
) -> Seq<EntryModel<S>>
    decreases a, 1int, b.len() - j,
{
    if i >= a.len() || j >= b.len() {
        acc
    } else {
        product_row(a, b, div, i, j + 1, pair_product(a, i, b[j as int], div, acc))
    }
}

/// The contribution of entry `i` of `a` times (or over) the entry `eb`,
/// added into `acc`. A nested base is opened: its entries take the other
/// side's power added to theirs, and the coefficients of the left side
/// multiply while those of the right side multiply (or, for a quotient,
/// divide). Only where both bases are the variable are powers subtracted for
/// a quotient.
pub open spec fn pair_product<S: Scalar>(
    a: Seq<EntryModel<S>>,
    i: nat,
    eb: EntryModel<S>,
    div: bool,
    acc: Seq<EntryModel<S>>,
) -> Seq<EntryModel<S>>
    decreases a, 0int, 0int,
{
    if i >= a.len() {
        acc
    } else {
        let ta = a[i as int].0;
        let ca = a[i as int].1;
        let tb = eb.0;
        let cb = eb.1;
        let op = if div {
            Op2::Div
        } else {
            Op2::Mul
        };
        match (ta.base, tb.base) {
            (BaseModel::X, BaseModel::X) => insert_add(
                acc,
                TermModel {
                    base: BaseModel::X,
                    power: S::apply2(
                        if div {
                            Op2::Sub
                        } else {
                            Op2::Add
                        },
                        ta.power,
                        tb.power,
                    ),
                },
                S::apply2(op, ca, cb),
            ),
            (BaseModel::X, BaseModel::Nested(e)) => add_all(acc, shift_scale(e, ta.power, ca, cb, op, op)),
            (BaseModel::Nested(e), BaseModel::X) => add_all(acc, shift_scale(e, tb.power, ca, cb, Op2::Mul, op)),
            (BaseModel::Nested(x), BaseModel::Nested(y)) => add_all(acc, rescale(product(x, y, div), ca, cb, op)),
        }
    }
}

impl<S: Scalar> Expr<S> {
    /// Adds (or puts) every entry of `r`, in order, into the expression.
    fn absorb(&mut self, r: Expr<S>, put: bool)
        ensures
            put ==> final(self)@ == put_all(old(self)@, r@),
            !put ==> final(self)@ == add_all(old(self)@, r@),
    {
        let ghost s0 = self@;
        let ghost r0 = r@;
        let mut rest = r;
        while rest.entries.len() > 0
            invariant
                put ==> put_all(s0, r0) == put_all(self@, rest@),
                !put ==> add_all(s0, r0) == add_all(self@, rest@),
            decreases rest.entries.len(),
        {
            let ghost before = rest;
            proof {
                lemma_view(before);
            }
            let (t, c) = rest.entries.remove(0);
            proof {
                lemma_view(rest);
                assert(rest@ =~= before@.drop_first());
            }
            self.insert_entry(t, c, put);
        }
        proof {
            lemma_view(rest);
        }
    }

    /// The constant `c`: a single entry on the variable to the power zero.
    pub fn constant(c: S) -> (r: Expr<S>)
        ensures
            r@ == seq![(TermModel { base: BaseModel::X, power: S::of_int(0) }, c)],
    {
        let p = S::from_int(0);
        let mut entries: Vec<Entry<S>> = Vec::new();
        entries.push((Term { base: Base::X, power: p }, c));
        let r = Expr { entries };
        proof {
            lemma_view(r);
            assert(r@ =~= seq![(TermModel { base: BaseModel::X, power: S::of_int(0) }, c)]);
        }
        r
    }

    /// The variable itself: `1 * x^1`.
    pub fn variable() -> (r: Expr<S>)
        ensures
            r@ == seq![(TermModel { base: BaseModel::X, power: S::of_int(1) }, S::of_int(1))],
    {
        let p = S::from_int(1);
        let mut entries: Vec<Entry<S>> = Vec::new();
        entries.push((Term { base: Base::X, power: p }, p));
        let r = Expr { entries };
        proof {
            lemma_view(r);
            assert(r@ =~= seq![(TermModel { base: BaseModel::X, power: S::of_int(1) }, S::of_int(1))]);
        }
        r
    }

    /// Whether the expression has any term at all.
    pub fn is_complex(&self) -> (r: bool)
        ensures
            r == (self@.len() > 0),
    {
        proof {
            lemma_view(*self);
        }
        self.entries.len() > 0
    }

    /// The coefficient, where the expression is a constant.
    pub fn as_constant(&self) -> (r: Option<S>)
        ensures
            r == constant_of(self@),
    {
        proof {
            lemma_view(*self);
        }
        if self.entries.len() != 1 {
            return None;
        }
        match &self.entries[0].0.base {
            Base::X => {
                if S::probe(Probe::IsZero, self.entries[0].0.power) {
                    Some(self.entries[0].1)
                } else {
                    None
                }
            },
            Base::Nested(_) => None,
        }
    }

    /// The expression with every coefficient negated.
    pub fn neg(self) -> (r: Expr<S>)
        ensures
            r@ == negated(self@),
    {
        let ghost s0 = self@;
        proof {
            lemma_view(self);
        }
        let mut entries = self.entries;
        let mut i: usize = 0;
        while i < entries.len()
            invariant
                i <= entries.len(),
                entries.len() == s0.len(),
                forall|k: int|
                    0 <= k < entries.len() ==> term_view(#[trigger] entries@[k].0) == s0[k].0
                        && entries@[k].1 == if k < i {
                        S::apply1(Op1::Neg, s0[k].1)
                    } else {
                        s0[k].1
                    },
            decreases entries.len() - i,
        {
            let (t, c) = entries.remove(i);
            let nc = S::op1(Op1::Neg, c);
            entries.insert(i, (t, nc));
            i = i + 1;
        }
        let r = Expr { entries };
        proof {
            lemma_view(r);
            assert(r@ =~= negated(s0));
        }
        r
    }

    /// The sum: the entries of `rhs` added into those of `self`.
    pub fn add(self, rhs: Expr<S>) -> (r: Expr<S>)
        ensures
            r@ == add_all(self@, rhs@),
    {
        let mut r = self;
        r.absorb(rhs, false);
        r
    }

    /// The difference: the negated entries of `rhs` added into those of
    /// `self`.
    pub fn sub(self, rhs: Expr<S>) -> (r: Expr<S>)
        ensures
            r@ == add_all(self@, negated(rhs@)),
    {
        let n = rhs.neg();
        let mut r = self;
        r.absorb(n, false);
        r
    }

    /// Each entry's power combined with `p` by `pop`, and its coefficient
    /// with `p` by `cop`.
    fn map_with(self, p: S, pop: Op2, cop: Op2) -> (r: Expr<S>)
        ensures
            r@ == self@.map_values(
                |e: EntryModel<S>|
                    (
                        TermModel { base: e.0.base, power: S::apply2(pop, e.0.power, p) },
                        S::apply2(cop, e.1, p),
                    ),
            ),
    {
        let ghost s0 = self@;
        proof {
            lemma_view(self);
        }
        let mut entries = self.entries;
        let mut i: usize = 0;
        while i < entries.len()
            invariant
                i <= entries.len(),
                entries.len() == s0.len(),
                forall|k: int|
                    0 <= k < entries.len() ==> base_view(#[trigger] entries@[k].0.base) == s0[k].0.base
                        && entries@[k].0.power == (if k < i {
                        S::apply2(pop, s0[k].0.power, p)
                    } else {
                        s0[k].0.power
                    }) && entries@[k].1 == (if k < i {
                        S::apply2(cop, s0[k].1, p)
                    } else {
                        s0[k].1
                    }),
            decreases entries.len() - i,
        {
            let (t, c) = entries.remove(i);
            let np = S::op2(pop, t.power, p);
            let nc = S::op2(cop, c, p);
            entries.insert(i, (Term { base: t.base, power: np }, nc));
            i = i + 1;
        }
        let r = Expr { entries };
        proof {
            lemma_view(r);
            assert(r@ =~= s0.map_values(
                |e: EntryModel<S>|
                    (
                        TermModel { base: e.0.base, power: S::apply2(pop, e.0.power, p) },
                        S::apply2(cop, e.1, p),
                    ),
            ));
        }
        r
    }

    /// Raises the expression to `power`, where that is a real constant.
    pub fn pow(self, power: &Expr<S>) -> (r: Option<Expr<S>>)
        ensures
            match real_constant_of(power@) {
                Some(p) => r is Some && r->0@ == powered(self@, p),
                None => r is None,
            },
    {
        let p = match power.as_constant() {
            Some(c) => match S::into_real(c) {
                Some(p) => p,
                None => return None,
            },
            None => return None,
        };
        let m = self.map_with(p, Op2::Mul, Op2::Powf);
        let mut r = Expr { entries: Vec::new() };
        proof {
            lemma_view(r);
            assert(r@ =~= Seq::<EntryModel<S>>::empty());
        }
        r.absorb(m, true);
        Some(r)
    }

    /// The logarithm of the expression in `base`, where that is a real
    /// constant.
    pub fn log(self, base: &Expr<S>) -> (r: Option<Expr<S>>)
        ensures
            match real_constant_of(base@) {
                Some(b) => r is Some && r->0@ == logged(self@, b),
                None => r is None,
            },
    {
        let b = match base.as_constant() {
            Some(c) => match S::into_real(c) {
                Some(b) => b,
                None => return None,
            },
            None => return None,
        };
        let m = self.map_with(b, Op2::Div, Op2::Log);
        let mut r = Expr { entries: Vec::new() };
        proof {
            lemma_view(r);
            assert(r@ =~= Seq::<EntryModel<S>>::empty());
        }
        r.absorb(m, true);
        Some(r)
    }

    /// The square root.
    pub fn sqrt(self) -> (r: Expr<S>)
        ensures
            r@ == rooted(self@),
    {
        proof {
            lemma_view(self);
        }
        if self.entries.len() <= 1 {
            let ghost s0 = self@;
            let mut entries = self.entries;
            if entries.len() == 1 {
                let (t, c) = entries.remove(0);
                let two = S::from_int(2);
                let h = S::op1(Op1::Recip, two);
                let np = S::op2(Op2::Mul, t.power, h);
                let nc = S::op1(Op1::Sqrt, c);
                entries.push((Term { base: t.base, power: np }, nc));
            }
            let r = Expr { entries };
            proof {
                lemma_view(r);
                assert(r@ =~= rooted(s0));
            }
            r
        } else {
            let two = S::from_int(2);
            let h = S::op1(Op1::Recip, two);
            let one = S::from_int(1);
            let mut entries: Vec<Entry<S>> = Vec::new();
            let ghost s0 = self@;
            entries.push((Term { base: Base::Nested(Box::new(self)), power: h }, one));
            let r = Expr { entries };
            proof {
                lemma_view(r);
                assert(r@ =~= rooted(s0));
            }
            r
        }
    }

    /// A copy of the nested entries `e` with `dp` added to each power and
    /// each coefficient `c` replaced by `last(first(ca, c), cb)`.
    fn shifted(e: &Expr<S>, dp: S, ca: S, cb: S, first: Op2, last: Op2) -> (r: Expr<S>)
        ensures
            r@ == shift_scale(e@, dp, ca, cb, first, last),
    {
        proof {
            lemma_view(*e);
        }
        let mut entries: Vec<Entry<S>> = Vec::new();
        let mut i: usize = 0;
        while i < e.entries.len()
            invariant
                i <= e.entries.len(),
                entries.len() == i,
                e@.len() == e.entries.len(),
                forall|k2: int|
                    0 <= k2 < e.entries.len() ==> #[trigger] e@[k2] == (
                        term_view(e.entries@[k2].0),
                        e.entries@[k2].1,
                    ),
                forall|j: int|
                    0 <= j < i ==> #[trigger] term_view(entries@[j].0) == shift_scale(e@, dp, ca, cb, first, last)[j].0
                        && entries@[j].1 == shift_scale(e@, dp, ca, cb, first, last)[j].1,
            decreases e.entries.len() - i,
        {
            let base = copy_base(&e.entries[i].0.base);
            let np = S::op2(Op2::Add, e.entries[i].0.power, dp);
            let m = S::op2(first, ca, e.entries[i].1);
            let nc = S::op2(last, m, cb);
            entries.push((Term { base, power: np }, nc));
            i = i + 1;
        }
        let r = Expr { entries };
        proof {
            lemma_view(r);
            assert(r@ =~= shift_scale(e@, dp, ca, cb, first, last));
        }
        r
    }

    /// Every coefficient `c` replaced by `op(c * ca, cb)`.
    fn rescaled(self, ca: S, cb: S, op: Op2) -> (r: Expr<S>)
        ensures
            r@ == rescale(self@, ca, cb, op),
    {
        let ghost s0 = self@;
        proof {
            lemma_view(self);
        }
        let mut entries = self.entries;
        let mut i: usize = 0;
        while i < entries.len()
            invariant
                i <= entries.len(),
                entries.len() == s0.len(),
                forall|k: int|
                    0 <= k < entries.len() ==> term_view(#[trigger] entries@[k].0) == s0[k].0
                        && entries@[k].1 == (if k < i {
                        S::apply2(op, S::apply2(Op2::Mul, s0[k].1, ca), cb)
                    } else {
                        s0[k].1
                    }),
            decreases entries.len() - i,
        {
            let (t, c) = entries.remove(i);
            let m = S::op2(Op2::Mul, c, ca);
            let nc = S::op2(op, m, cb);
            entries.insert(i, (t, nc));
            i = i + 1;
        }
        let r = Expr { entries };
        proof {
            lemma_view(r);
            assert(r@ =~= rescale(s0, ca, cb, op));
        }
        r
    }

    /// Adds into `acc` the contribution of entry `i` of `a` times (or, where
    /// `div` is set, over) entry `j` of `b`.
    fn pair_into(a: &Expr<S>, i: usize, b: &Expr<S>, j: usize, div: bool, acc: &mut Expr<S>)
        requires
            i < a.entries.len(),
            j < b.entries.len(),
        ensures
            final(acc)@ == pair_product(a@, i as nat, b@[j as int], div, old(acc)@),
        decreases *a, 0int, 0int,
    {
        proof {
            lemma_view(*a);
            lemma_view(*b);
        }
        let op = if div {
            Op2::Div
        } else {
            Op2::Mul
        };
        let ta = &a.entries[i].0;
        let ca = a.entries[i].1;
        let tb = &b.entries[j].0;
        let cb = b.entries[j].1;
        match (&ta.base, &tb.base) {
            (Base::X, Base::X) => {
                let pop = if div {
                    Op2::Sub
                } else {
                    Op2::Add
                };
                let np = S::op2(pop, ta.power, tb.power);
                let nc = S::op2(op, ca, cb);
                let t = Term { base: Base::X, power: np };
                proof {
                    assert(term_view(t) == TermModel { base: BaseModel::<S>::X, power: np });
                }
                acc.insert_entry(t, nc, false);
            },
            (Base::X, Base::Nested(e)) => {
                let m = Self::shifted(e, ta.power, ca, cb, op, op);
                acc.absorb(m, false);
            },
            (Base::Nested(e), Base::X) => {
                let m = Self::shifted(e, tb.power, ca, cb, Op2::Mul, op);
                acc.absorb(m, false);
            },
            (Base::Nested(x), Base::Nested(y)) => {
                let p = Self::product_of(x, y, div);
                let m = p.rescaled(ca, cb, op);
                acc.absorb(m, false);
            },
        }
    }

    /// The product of `a` and `b`, or, where `div` is set, their quotient.
    fn product_of(a: &Expr<S>, b: &Expr<S>, div: bool) -> (r: Expr<S>)
        ensures
            r@ == product(a@, b@, div),
        decreases *a, 3int, 0int,
    {
        proof {
            lemma_view(*a);
            lemma_view(*b);
        }
        let mut acc = Expr { entries: Vec::new() };
        proof {
            lemma_view(acc);
            assert(acc@ =~= Seq::<EntryModel<S>>::empty());
        }
        let mut i: usize = 0;
        while i < a.entries.len()
            invariant
                i <= a.entries.len(),
                a@.len() == a.entries.len(),
                b@.len() == b.entries.len(),
                product(a@, b@, div) == product_rows(a@, b@, div, i as nat, acc@),
            decreases a.entries.len() - i,
        {
            let ghost acc_i = acc@;
            let mut j: usize = 0;
            while j < b.entries.len()
                invariant
                    i < a.entries.len(),
                    j <= b.entries.len(),
                    a@.len() == a.entries.len(),
                    b@.len() == b.entries.len(),
                    product_row(a@, b@, div, i as nat, 0, acc_i) == product_row(
                        a@,
                        b@,
                        div,
                        i as nat,
                        j as nat,
                        acc@,
                    ),
                decreases b.entries.len() - j,
            {
                Self::pair_into(a, i, b, j, div, &mut acc);
                j = j + 1;
            }
            i = i + 1;
        }
        acc
    }

    /// The product.
    pub fn mul(&self, rhs: &Expr<S>) -> (r: Expr<S>)
        ensures
            r@ == product(self@, rhs@, false),
    {
        Self::product_of(self, rhs, false)
    }

    /// The quotient, in the shape of the product (see [`pair_product`]).
    pub fn div(&self, rhs: &Expr<S>) -> (r: Expr<S>)
        ensures
            r@ == product(self@, rhs@, true),
    {
        Self::product_of(self, rhs, true)
    }
}

/// The coefficient of the first entry whose term orders equal to `t`, and
/// the entries without it.
pub open spec fn take_key<S: Scalar>(s: Seq<EntryModel<S>>, t: TermModel<S>) -> (Option<S>, Seq<EntryModel<S>>)
    decreases s.len(),
{
    if s.len() == 0 {
        (None, s)
    } else if term_cmp(t, s[0].0) == Order::Equal {
        (Some(s[0].1), s.drop_first())
    } else {
        let r = take_key(s.drop_first(), t);
        (r.0, seq![s[0]] + r.1)
    }
}

impl<S: Scalar> Expr<S> {
    /// Removes the entry whose term orders equal to `t`, giving its
    /// coefficient.
    pub fn remove_key(&mut self, t: &Term<S>) -> (r: Option<S>)
        ensures
            r == take_key(old(self)@, term_view(*t)).0,
            final(self)@ == take_key(old(self)@, term_view(*t)).1,
    {
        let ghost s0 = self@;
        let ghost tv = term_view(*t);
        proof {
            lemma_view(*self);
            assert(s0.skip(0) =~= s0);
            assert(s0.take(0) + take_key(s0, tv).1 =~= take_key(s0, tv).1);
        }
        let mut i: usize = 0;
        while i < self.entries.len()
            invariant
                i <= self.entries.len(),
                self@ == s0,
                old(self)@ == s0,
                self.entries.len() == s0.len(),
                tv == term_view(*t),
                forall|k: int| 0 <= k < self.entries.len() ==> #[trigger] s0[k] == (
                    term_view(self.entries@[k].0),
                    self.entries@[k].1,
                ),
                forall|j: int| 0 <= j < i ==> term_cmp(tv, #[trigger] s0[j].0) != Order::Equal,
                take_key(s0, tv).0 == take_key(s0.skip(i as int), tv).0,
                take_key(s0, tv).1 == s0.take(i as int) + take_key(s0.skip(i as int), tv).1,
            decreases self.entries.len() - i,
        {
            let o = cmp_terms(t, &self.entries[i].0);
            proof {
                let sk = s0.skip(i as int);
                assert(sk[0] == s0[i as int]);
                assert(sk.drop_first() =~= s0.skip(i + 1));
            }
            if o == Order::Equal {
                let ghost e0 = self.entries@;
                let (_, c) = self.entries.remove(i);
                proof {
                    lemma_view(*self);
                    assert(self.entries@ =~= e0.take(i as int) + e0.skip(i + 1));
                    assert(self@ =~= s0.take(i as int) + s0.skip(i + 1));
                }
                return Some(c);
            }
            proof {
                assert(s0.take(i + 1) =~= s0.take(i as int).push(s0[i as int]));
                assert(s0.take(i as int) + (seq![s0[i as int]] + take_key(s0.skip(i + 1), tv).1) =~= s0.take(i + 1) + take_key(s0.skip(i + 1), tv).1);
            }
            i = i + 1;
        }
        proof {
            assert(s0.skip(i as int) =~= Seq::<EntryModel<S>>::empty());
            assert(s0.take(i as int) =~= s0);
        }
        None
    }
}

} // verus!

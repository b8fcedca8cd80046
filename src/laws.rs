//! Laws of the analysis.
use vstd::prelude::*;
use crate::scalar::Scalar;
use crate::ir::{Node, Assembly, Modifier};
use crate::interp::{EnvModel, run_spec, run_list, is_algebra, with_stack, analysis_of, handled_of, initial_env};

verus! {

/// Whether no primitive that the node can run, through calls and
/// combinators, is algebra.
pub open spec fn no_algebra<S>(prog: Assembly<S>, n: Node<S>, budget: nat) -> bool
    decreases budget, n, 1int,
{
    match n {
        Node::Run(v) => no_algebra_list(prog, v@, budget),
        Node::Call(f, _) => f < prog.functions.len() && budget > 0 ==> no_algebra(
            prog,
            prog.functions@[f as int],
            (budget - 1) as nat,
        ),
        Node::Prim(p, _) => !is_algebra(p),
        Node::Mod(_, ops, _) => forall|j: int|
            0 <= j < ops.len() ==> no_algebra(prog, (#[trigger] ops@[j]).node, budget),
        Node::CustomInverse(c, _) => match c.normal {
            Some(sn) => no_algebra(prog, sn.node, budget),
            None => true,
        },
        _ => true,
    }
}

pub open spec fn no_algebra_list<S>(prog: Assembly<S>, ns: Seq<Node<S>>, budget: nat) -> bool
    decreases budget, ns, 0int,
{
    forall|j: int| 0 <= j < ns.len() ==> no_algebra(prog, #[trigger] ns[j], budget)
}

/// Code that only rearranges the stack leaves the count of algebra
/// primitives where it was, whether it succeeds or not: whether such an
/// analysis counts as handled is decided by the values it leaves alone.
pub proof fn lemma_shuffles_count_nothing<S: Scalar>(
    prog: Assembly<S>,
    n: Node<S>,
    env: EnvModel<S>,
    budget: nat,
)
    requires
        no_algebra(prog, n, budget),
    ensures
        run_spec(prog, n, env, budget).env.handled == env.handled,
    decreases budget, n, 1int,
{
    match n {
        Node::Run(v) => {
            assert(no_algebra_list(prog, v@, budget));
            lemma_list_counts_nothing(prog, v@, env, budget);
            assert(run_spec(prog, n, env, budget) == run_list(prog, v@, env, budget));
        },
        Node::Call(f, _) => {
            if f < prog.functions.len() && budget > 0 {
                lemma_shuffles_count_nothing(prog, prog.functions@[f as int], env, (budget - 1) as nat);
            }
        },
        Node::Mod(m, ops, _) => {
            if ops.len() >= 1 {
                let f = ops@[0];
                let g = ops@[ops.len() - 1];
                assert(no_algebra(prog, f.node, budget));
                assert(no_algebra(prog, g.node, budget));
                let st = env.stack;
                let len = st.len();
                let k = f.args as int;
                let rest = st.take(len - k);
                let saved = st.skip(len - k);
                match m {
                    Modifier::Dip | Modifier::Gap => {
                        lemma_shuffles_count_nothing(prog, f.node, with_stack(env, st.drop_last()), budget);
                    },
                    Modifier::On => {
                        lemma_shuffles_count_nothing(prog, f.node, with_stack(env, st), budget);
                    },
                    Modifier::By => {
                        let dup = if k > 0 {
                            seq![saved[0]]
                        } else {
                            Seq::empty()
                        };
                        lemma_shuffles_count_nothing(prog, f.node, with_stack(env, rest + dup + saved), budget);
                    },
                    Modifier::Both => {
                        let e1 = with_stack(env, rest);
                        lemma_shuffles_count_nothing(prog, f.node, e1, budget);
                        let o = run_spec(prog, f.node, e1, budget);
                        lemma_shuffles_count_nothing(prog, f.node, with_stack(o.env, o.env.stack + saved), budget);
                    },
                    Modifier::Bracket => {
                        let e1 = with_stack(env, rest);
                        lemma_shuffles_count_nothing(prog, g.node, e1, budget);
                        let o = run_spec(prog, g.node, e1, budget);
                        lemma_shuffles_count_nothing(prog, f.node, with_stack(o.env, o.env.stack + saved), budget);
                    },
                    Modifier::Fork => {
                        let fed = if f.args > g.args {
                            saved.skip(f.args - g.args)
                        } else {
                            saved
                        };
                        let e1 = with_stack(env, rest + fed);
                        lemma_shuffles_count_nothing(prog, g.node, e1, budget);
                        let o = run_spec(prog, g.node, e1, budget);
                        lemma_shuffles_count_nothing(
                            prog,
                            f.node,
                            with_stack(o.env, o.env.stack + saved.reverse()),
                            budget,
                        );
                    },
                    _ => {},
                }
            }
        },
        Node::Prim(p, _) => {
            assert(run_spec(prog, n, env, budget).env.handled == env.handled);
        },
        Node::Push(v) => {
            assert(run_spec(prog, n, env, budget).env.handled == env.handled);
        },
        Node::CustomInverse(c, _) => {
            if let Some(sn) = c.normal {
                lemma_shuffles_count_nothing(prog, sn.node, env, budget);
            }
        },
        _ => {},
    }
}

proof fn lemma_list_counts_nothing<S: Scalar>(prog: Assembly<S>, ns: Seq<Node<S>>, env: EnvModel<S>, budget: nat)
    requires
        no_algebra_list(prog, ns, budget),
    ensures
        run_list(prog, ns, env, budget).env.handled == env.handled,
    decreases budget, ns, 0int,
{
    if ns.len() > 0 {
        assert(no_algebra(prog, ns[0], budget));
        lemma_shuffles_count_nothing(prog, ns[0], env, budget);
        let o = run_spec(prog, ns[0], env, budget);
        let rest = ns.drop_first();
        assert forall|j: int| 0 <= j < rest.len() implies no_algebra(prog, #[trigger] rest[j], budget) by {
            assert(rest[j] == ns[j + 1]);
        }
        lemma_list_counts_nothing(prog, rest, o.env, budget);
    }
}

/// An analysis of code that only rearranges the stack counts no algebra;
/// it is handled exactly where a value it leaves has a term.
pub proof fn lemma_shuffle_analysis_handled<S: Scalar>(prog: Assembly<S>, ns: Seq<Node<S>>)
    requires
        no_algebra_list(prog, ns, prog.functions.len() as nat),
    ensures
        analysis_of(prog, ns).env.handled == 0,
        handled_of(analysis_of(prog, ns).env) <==> exists|i: int|
            0 <= i < analysis_of(prog, ns).env.stack.len() && (#[trigger] analysis_of(prog, ns).env.stack[i]).len() > 0,
{
    lemma_list_counts_nothing(prog, ns, initial_env::<S>(), prog.functions.len() as nat);
}

/// Running code never lowers the count of algebra primitives.
pub proof fn lemma_count_grows<S: Scalar>(prog: Assembly<S>, n: Node<S>, env: EnvModel<S>, budget: nat)
    ensures
        run_spec(prog, n, env, budget).env.handled >= env.handled,
    decreases budget, n, 1int,
{
    match n {
        Node::Run(v) => {
            lemma_list_count_grows(prog, v@, env, budget);
        },
        Node::Call(f, _) => {
            if f < prog.functions.len() && budget > 0 {
                lemma_count_grows(prog, prog.functions@[f as int], env, (budget - 1) as nat);
            }
        },
        Node::Mod(m, ops, _) => {
            if ops.len() >= 1 {
                let f = ops@[0];
                let g = ops@[ops.len() - 1];
                let st = env.stack;
                let len = st.len();
                let k = f.args as int;
                let rest = st.take(len - k);
                let saved = st.skip(len - k);
                match m {
                    Modifier::Dip | Modifier::Gap => {
                        lemma_count_grows(prog, f.node, with_stack(env, st.drop_last()), budget);
                    },
                    Modifier::On => {
                        lemma_count_grows(prog, f.node, with_stack(env, st), budget);
                    },
                    Modifier::By => {
                        let dup = if k > 0 {
                            seq![saved[0]]
                        } else {
                            Seq::empty()
                        };
                        lemma_count_grows(prog, f.node, with_stack(env, rest + dup + saved), budget);
                    },
                    Modifier::Both => {
                        let e1 = with_stack(env, rest);
                        lemma_count_grows(prog, f.node, e1, budget);
                        let o = run_spec(prog, f.node, e1, budget);
                        lemma_count_grows(prog, f.node, with_stack(o.env, o.env.stack + saved), budget);
                    },
                    Modifier::Bracket => {
                        let e1 = with_stack(env, rest);
                        lemma_count_grows(prog, g.node, e1, budget);
                        let o = run_spec(prog, g.node, e1, budget);
                        lemma_count_grows(prog, f.node, with_stack(o.env, o.env.stack + saved), budget);
                    },
                    Modifier::Fork => {
                        let fed = if f.args > g.args {
                            saved.skip(f.args - g.args)
                        } else {
                            saved
                        };
                        let e1 = with_stack(env, rest + fed);
                        lemma_count_grows(prog, g.node, e1, budget);
                        let o = run_spec(prog, g.node, e1, budget);
                        lemma_count_grows(prog, f.node, with_stack(o.env, o.env.stack + saved.reverse()), budget);
                    },
                    _ => {},
                }
            }
        },
        Node::CustomInverse(c, _) => {
            if let Some(sn) = c.normal {
                lemma_count_grows(prog, sn.node, env, budget);
            }
        },
        _ => {},
    }
}

proof fn lemma_list_count_grows<S: Scalar>(prog: Assembly<S>, ns: Seq<Node<S>>, env: EnvModel<S>, budget: nat)
    ensures
        run_list(prog, ns, env, budget).env.handled >= env.handled,
    decreases budget, ns, 0int,
{
    if ns.len() > 0 {
        lemma_count_grows(prog, ns[0], env, budget);
        let o = run_spec(prog, ns[0], env, budget);
        lemma_list_count_grows(prog, ns.drop_first(), o.env, budget);
    }
}

/// Whether the node holds an algebra primitive that a successful run
/// reaches, through calls and combinators.
pub open spec fn has_algebra<S>(prog: Assembly<S>, n: Node<S>, budget: nat) -> bool
    decreases budget, n, 1int,
{
    match n {
        Node::Run(v) => has_algebra_list(prog, v@, budget),
        Node::Call(f, _) => f < prog.functions.len() && budget > 0 && has_algebra(
            prog,
            prog.functions@[f as int],
            (budget - 1) as nat,
        ),
        Node::Prim(p, _) => is_algebra(p),
        Node::Mod(_, ops, _) => exists|j: int|
            0 <= j < ops.len() && has_algebra(prog, (#[trigger] ops@[j]).node, budget),
        Node::CustomInverse(c, _) => !c.is_obverse && match c.normal {
            Some(sn) => has_algebra(prog, sn.node, budget),
            None => false,
        },
        _ => false,
    }
}

pub open spec fn has_algebra_list<S>(prog: Assembly<S>, ns: Seq<Node<S>>, budget: nat) -> bool
    decreases budget, ns, 0int,
{
    exists|j: int| 0 <= j < ns.len() && has_algebra(prog, #[trigger] ns[j], budget)
}

/// The count went up from `a` to `b`, or had reached its bound.
pub open spec fn counted<S>(a: EnvModel<S>, b: EnvModel<S>) -> bool {
    b.handled > a.handled || b.handled == usize::MAX
}

/// A run that succeeds through an algebra primitive counts it: the count
/// rises (unless it is at its bound).
pub proof fn lemma_algebra_is_counted<S: Scalar>(prog: Assembly<S>, n: Node<S>, env: EnvModel<S>, budget: nat)
    requires
        has_algebra(prog, n, budget),
        run_spec(prog, n, env, budget).err is None,
    ensures
        counted(env, run_spec(prog, n, env, budget).env),
    decreases budget, n, 1int,
{
    match n {
        Node::Run(v) => {
            lemma_list_algebra_is_counted(prog, v@, env, budget);
        },
        Node::Call(f, _) => {
            lemma_algebra_is_counted(prog, prog.functions@[f as int], env, (budget - 1) as nat);
        },
        Node::Mod(m, ops, _) => {
            let j = choose|j: int| 0 <= j < ops.len() && has_algebra(prog, (#[trigger] ops@[j]).node, budget);
            let f = ops@[0];
            let g = ops@[ops.len() - 1];
            assert(has_algebra(prog, f.node, budget) || has_algebra(prog, g.node, budget)) by {
                if !(m is Other) && ops.len() == crate::interp::mod_arity(m) {
                    assert(j == 0 || j == ops.len() - 1);
                }
            }
            let st = env.stack;
            let len = st.len();
            let k = f.args as int;
            let rest = st.take(len - k);
            let saved = st.skip(len - k);
            match m {
                Modifier::Dip | Modifier::Gap => {
                    lemma_algebra_is_counted(prog, f.node, with_stack(env, st.drop_last()), budget);
                },
                Modifier::On => {
                    lemma_algebra_is_counted(prog, f.node, with_stack(env, st), budget);
                },
                Modifier::By => {
                    let dup = if k > 0 {
                        seq![saved[0]]
                    } else {
                        Seq::empty()
                    };
                    lemma_algebra_is_counted(prog, f.node, with_stack(env, rest + dup + saved), budget);
                },
                Modifier::Both => {
                    let e1 = with_stack(env, rest);
                    let o = run_spec(prog, f.node, e1, budget);
                    let e2 = with_stack(o.env, o.env.stack + saved);
                    lemma_algebra_is_counted(prog, f.node, e1, budget);
                    lemma_count_grows(prog, f.node, e2, budget);
                },
                Modifier::Bracket => {
                    let e1 = with_stack(env, rest);
                    let o = run_spec(prog, g.node, e1, budget);
                    let e2 = with_stack(o.env, o.env.stack + saved);
                    lemma_count_grows(prog, g.node, e1, budget);
                    lemma_count_grows(prog, f.node, e2, budget);
                    if has_algebra(prog, g.node, budget) {
                        lemma_algebra_is_counted(prog, g.node, e1, budget);
                    } else {
                        lemma_algebra_is_counted(prog, f.node, e2, budget);
                    }
                },
                Modifier::Fork => {
                    let fed = if f.args > g.args {
                        saved.skip(f.args - g.args)
                    } else {
                        saved
                    };
                    let e1 = with_stack(env, rest + fed);
                    let o = run_spec(prog, g.node, e1, budget);
                    let e2 = with_stack(o.env, o.env.stack + saved.reverse());
                    lemma_count_grows(prog, g.node, e1, budget);
                    lemma_count_grows(prog, f.node, e2, budget);
                    if has_algebra(prog, g.node, budget) {
                        lemma_algebra_is_counted(prog, g.node, e1, budget);
                    } else {
                        lemma_algebra_is_counted(prog, f.node, e2, budget);
                    }
                },
                _ => {},
            }
        },
        Node::CustomInverse(c, _) => {
            if let Some(sn) = c.normal {
                lemma_algebra_is_counted(prog, sn.node, env, budget);
            }
        },
        _ => {},
    }
}

proof fn lemma_list_algebra_is_counted<S: Scalar>(prog: Assembly<S>, ns: Seq<Node<S>>, env: EnvModel<S>, budget: nat)
    requires
        has_algebra_list(prog, ns, budget),
        run_list(prog, ns, env, budget).err is None,
    ensures
        counted(env, run_list(prog, ns, env, budget).env),
    decreases budget, ns, 0int,
{
    let j = choose|j: int| 0 <= j < ns.len() && has_algebra(prog, #[trigger] ns[j], budget);
    let o = run_spec(prog, ns[0], env, budget);
    let rest = ns.drop_first();
    lemma_list_count_grows(prog, rest, o.env, budget);
    if j == 0 {
        lemma_algebra_is_counted(prog, ns[0], env, budget);
    } else {
        lemma_count_grows(prog, ns[0], env, budget);
        assert(rest[j - 1] == ns[j]);
        lemma_list_algebra_is_counted(prog, rest, o.env, budget);
    }
}

/// An analysis that succeeds through an algebra primitive has counted at
/// least one.
pub proof fn lemma_algebra_analysis_counted<S: Scalar>(prog: Assembly<S>, ns: Seq<Node<S>>)
    requires
        has_algebra_list(prog, ns, prog.functions.len() as nat),
        analysis_of(prog, ns).err is None,
    ensures
        analysis_of(prog, ns).env.handled >= 1,
{
    lemma_list_algebra_is_counted(prog, ns, initial_env::<S>(), prog.functions.len() as nat);
}

} // verus!

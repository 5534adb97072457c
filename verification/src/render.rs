//! The renderer: walks an emit plan depth-first, left to right, against an
//! environment of host-supplied values, escaping each interpolated value
//! under the context its node carries, and writes a single output string.

use vstd::prelude::*;
use vstd::string::StringExecFns;
use crate::escape::EscapeCtx;
use crate::escape::escape_ctx;
use crate::escape::escape_push;
use crate::plan::EmitNode;
use crate::plan::Branch;
use crate::plan::NodeV;
use crate::plan::BranchV;
use crate::plan::Plan;
use crate::plan::PlanV;
use crate::plan::nodes_view;
use crate::plan::branches_view;
use crate::plan::lemma_nodes_view_index;
use crate::plan::lemma_branches_view_index;

verus! {

/// The values the host binds for one render call. Each vector is indexed
/// by the slot numbers the parser assigned; every entry is the host's
/// answer for that slot: the formatted text of a value (the plan's format
/// specifier already applied), the truth of a guard, the chosen arm of a
/// match, the iterations of a loop, or the raw output of an escape hatch.
///
/// The environment is meant to answer every slot of the plan's tables. A
/// slot the environment leaves unbound — a vector shorter than its table —
/// writes nothing, by the explicit empty-on-missing rule of the rendering
/// definition; no reference from the plan itself can dangle (see the
/// parser's no-dangling theorem), so a short environment is the only way
/// an unbound slot can arise.
pub struct Env {
    pub values: Vec<String>,
    pub guards: Vec<bool>,
    pub arms: Vec<usize>,
    pub loops: Vec<LoopEnv>,
    pub raws: Vec<String>,
}

/// The iterations the host supplies for one loop slot: the loop body is
/// rendered once per entry, in order, against that entry's environment.
pub struct LoopEnv {
    pub iterations: Vec<Env>,
}

/// The mathematical value of an environment.
pub struct EnvV {
    pub values: Seq<Seq<char>>,
    pub guards: Seq<bool>,
    pub arms: Seq<usize>,
    pub loops: Seq<Seq<EnvV>>,
    pub raws: Seq<Seq<char>>,
}

/// The value of an environment, loop iterations included.
pub open spec fn env_view(e: Env) -> EnvV
    decreases e, 2int,
{
    EnvV {
        values: e.values.deep_view(),
        guards: e.guards@,
        arms: e.arms@,
        loops: loops_view(e.loops@),
        raws: e.raws.deep_view(),
    }
}

/// The values of a loop-environment sequence.
pub open spec fn loops_view(ls: Seq<LoopEnv>) -> Seq<Seq<EnvV>>
    decreases ls, 1int,
{
    if ls.len() == 0 {
        Seq::empty()
    } else {
        seq![envs_view(ls[0].iterations@)] + loops_view(ls.drop_first())
    }
}

/// The values of an environment sequence.
pub open spec fn envs_view(es: Seq<Env>) -> Seq<EnvV>
    decreases es, 0int,
{
    if es.len() == 0 {
        Seq::empty()
    } else {
        seq![env_view(es[0])] + envs_view(es.drop_first())
    }
}

impl View for Env {
    type V = EnvV;

    open spec fn view(&self) -> EnvV {
        env_view(*self)
    }
}

/// Length and element values of a loop-environment sequence's view.
pub proof fn lemma_loops_view_index(ls: Seq<LoopEnv>)
    ensures
        loops_view(ls).len() == ls.len(),
        forall|i: int|
            0 <= i < ls.len() ==> loops_view(ls)[i] == envs_view(ls[i].iterations@),
    decreases ls,
{
    if ls.len() > 0 {
        lemma_loops_view_index(ls.drop_first());
        assert forall|i: int|
            0 <= i < ls.len() implies loops_view(ls)[i] == envs_view(ls[i].iterations@) by {
            if i > 0 {
                assert(loops_view(ls)[i] == loops_view(ls.drop_first())[i - 1]);
                assert(ls.drop_first()[i - 1] == ls[i]);
            }
        }
    }
}

/// Length and element values of an environment sequence's view.
pub proof fn lemma_envs_view_index(es: Seq<Env>)
    ensures
        envs_view(es).len() == es.len(),
        forall|i: int| 0 <= i < es.len() ==> envs_view(es)[i] == env_view(es[i]),
    decreases es,
{
    if es.len() > 0 {
        lemma_envs_view_index(es.drop_first());
        assert forall|i: int| 0 <= i < es.len() implies envs_view(es)[i] == env_view(es[i]) by {
            if i > 0 {
                assert(envs_view(es)[i] == envs_view(es.drop_first())[i - 1]);
                assert(es.drop_first()[i - 1] == es[i]);
            }
        }
    }
}

/// True when guard slot `g` is bound and holds.
pub open spec fn guard_true(env: EnvV, g: usize) -> bool {
    (g as int) < env.guards.len() && env.guards[g as int]
}

/// The index of the first branch at or after `i` whose guard holds, or the
/// branch count when none does.
pub open spec fn first_true(branches: Seq<BranchV>, i: int, env: EnvV) -> int
    decreases branches.len() - i,
{
    if i < 0 || i >= branches.len() {
        branches.len() as int
    } else if guard_true(env, branches[i].guard) {
        i
    } else {
        first_true(branches, i + 1, env)
    }
}

/// What one node writes: literals as they stand; interpolations escaped
/// under their context; a conditional writes the body of its first true
/// branch, else its otherwise body; a match writes the arm the host chose;
/// a loop writes its body once per iteration, in iteration order; a gated
/// text writes itself and one space when its guard holds; a raw node
/// writes the host's text unescaped; a scope writes its body, the binding
/// itself writing nothing. A slot the environment does not bind writes
/// nothing.
pub open spec fn render_node(n: NodeV, env: EnvV) -> Seq<char>
    decreases n, 0int, 0int,
{
    match n {
        NodeV::Literal(t) => t,
        NodeV::Interp { slot, ctx } => {
            if (slot as int) < env.values.len() {
                escape_ctx(ctx, env.values[slot as int])
            } else {
                Seq::empty()
            }
        },
        NodeV::Group(ns) => render_nodes(ns, env),
        NodeV::Cond { branches, otherwise } => {
            let k = first_true(branches, 0, env);
            if 0 <= k < branches.len() {
                render_nodes(branches[k].body, env)
            } else {
                render_nodes(otherwise, env)
            }
        },
        NodeV::Match { sel, arms } => {
            if (sel as int) < env.arms.len() && (env.arms[sel as int] as int) < arms.len() {
                render_node(arms[env.arms[sel as int] as int], env)
            } else {
                Seq::empty()
            }
        },
        NodeV::Loop { slot, body } => {
            if (slot as int) < env.loops.len() {
                render_iters(body, env.loops[slot as int])
            } else {
                Seq::empty()
            }
        },
        NodeV::Gated { guard, text } => {
            if guard_true(env, guard) {
                text + " "@
            } else {
                Seq::empty()
            }
        },
        NodeV::Raw { slot } => {
            if (slot as int) < env.raws.len() {
                env.raws[slot as int]
            } else {
                Seq::empty()
            }
        },
        NodeV::Scope { slot, body } => render_nodes(body, env),
    }
}

/// What a node sequence writes: each node in order.
pub open spec fn render_nodes(ns: Seq<NodeV>, env: EnvV) -> Seq<char>
    decreases ns, 0int, 0int,
{
    if ns.len() == 0 {
        Seq::empty()
    } else {
        render_node(ns[0], env) + render_nodes(ns.drop_first(), env)
    }
}

/// What a loop writes: the body once per iteration, in iteration order.
pub open spec fn render_iters(body: Seq<NodeV>, iters: Seq<EnvV>) -> Seq<char>
    decreases body, iters.len(), 1int,
{
    if iters.len() == 0 {
        Seq::empty()
    } else {
        render_nodes(body, iters[0]) + render_iters(body, iters.drop_first())
    }
}

/// What a whole plan writes against an environment.
pub open spec fn render_plan(p: PlanV, env: EnvV) -> Seq<char> {
    render_nodes(p.root, env)
}

/// The index of the first branch at or after `i` whose guard holds.
fn find_first_true(branches: &Vec<Branch>, i: usize, env: &Env) -> (r: usize)
    requires
        i <= branches@.len(),
    ensures
        r as int == first_true(branches_view(branches@), i as int, env@),
        r <= branches@.len(),
    decreases branches@.len() - i,
{
    proof {
        lemma_branches_view_index(branches@);
    }
    if i >= branches.len() {
        branches.len()
    } else {
        let g = branches[i].guard;
        if g < env.guards.len() && env.guards[g] {
            i
        } else {
            find_first_true(branches, i + 1, env)
        }
    }
}

/// Appends what one node writes.
fn render_node_push(node: &EmitNode, env: &Env, out: &mut String)
    ensures
        final(out)@ == old(out)@ + render_node(node@, env@),
    decreases node, 0int,
{
    match node {
        EmitNode::Literal(s) => {
            out.append(s.as_str());
        },
        EmitNode::Interp { slot, ctx } => {
            if *slot < env.values.len() {
                proof {
                    assert(env@.values[*slot as int] == env.values@[*slot as int]@);
                }
                escape_push(*ctx, env.values[*slot].as_str(), out);
            } else {
                proof {
                    assert(env@.values.len() == env.values@.len());
                    assert(out@ + Seq::<char>::empty() =~= out@);
                }
            }
        },
        EmitNode::Group(ns) => {
            render_nodes_push(ns, env, out);
        },
        EmitNode::Cond { branches, otherwise } => {
            proof {
                lemma_branches_view_index(branches@);
            }
            let k = find_first_true(branches, 0, env);
            if k < branches.len() {
                render_nodes_push(&branches[k].body, env, out);
            } else {
                render_nodes_push(otherwise, env, out);
            }
        },
        EmitNode::Match { sel, arms } => {
            proof {
                lemma_nodes_view_index(arms@);
            }
            if *sel < env.arms.len() {
                let a = env.arms[*sel];
                if a < arms.len() {
                    render_node_push(&arms[a], env, out);
                } else {
                    proof {
                        assert(out@ + Seq::<char>::empty() =~= out@);
                    }
                }
            } else {
                proof {
                    assert(out@ + Seq::<char>::empty() =~= out@);
                }
            }
        },
        EmitNode::Loop { slot, body } => {
            if *slot < env.loops.len() {
                proof {
                    lemma_loops_view_index(env.loops@);
                }
                let iters = &env.loops[*slot].iterations;
                let ghost bodyv = nodes_view(body@);
                let ghost itersv = envs_view(iters@);
                proof {
                    lemma_envs_view_index(iters@);
                    assert(env@.loops[*slot as int] == itersv);
                    assert(itersv.skip(0) =~= itersv);
                }
                let ghost base = out@;
                let n = iters.len();
                let mut j: usize = 0;
                while j < n
                    invariant
                        *node == (EmitNode::Loop { slot: *slot, body: *body }),
                        n == iters@.len(),
                        j <= n,
                        itersv == envs_view(iters@),
                        bodyv == nodes_view(body@),
                        itersv.len() == n,
                        forall|m: int| 0 <= m < n ==> itersv[m] == env_view(iters@[m]),
                        base + render_iters(bodyv, itersv) == out@ + render_iters(
                            bodyv,
                            itersv.skip(j as int),
                        ),
                    decreases n - j,
                {
                    proof {
                        assert(itersv.skip(j as int)[0] == itersv[j as int]);
                        assert(itersv.skip(j as int).drop_first() =~= itersv.skip(j + 1 as int));
                        assert(node->Loop_body == *body);
                        assert(decreases_to!(*node => node->Loop_body));
                        assert(decreases_to!(*node => *body));
                    }
                    render_nodes_push(body, &iters[j], out);
                    j = j + 1;
                }
                proof {
                    assert(itersv.skip(n as int) =~= Seq::<EnvV>::empty());
                }
            } else {
                proof {
                    lemma_loops_view_index(env.loops@);
                    assert(out@ + Seq::<char>::empty() =~= out@);
                }
            }
        },
        EmitNode::Gated { guard, text } => {
            if *guard < env.guards.len() && env.guards[*guard] {
                let ghost base = out@;
                out.append(text.as_str());
                out.append(" ");
                proof {
                    assert(out@ =~= base + (text@ + " "@));
                }
            } else {
                proof {
                    assert(out@ + Seq::<char>::empty() =~= out@);
                }
            }
        },
        EmitNode::Raw { slot } => {
            if *slot < env.raws.len() {
                proof {
                    assert(env@.raws[*slot as int] == env.raws@[*slot as int]@);
                }
                out.append(env.raws[*slot].as_str());
            } else {
                proof {
                    assert(env@.raws.len() == env.raws@.len());
                    assert(out@ + Seq::<char>::empty() =~= out@);
                }
            }
        },
        EmitNode::Scope { slot, body } => {
            render_nodes_push(body, env, out);
        },
    }
}

/// Appends what a node sequence writes, each node in order.
fn render_nodes_push(nodes: &Vec<EmitNode>, env: &Env, out: &mut String)
    ensures
        final(out)@ == old(out)@ + render_nodes(nodes_view(nodes@), env@),
    decreases nodes, 1int,
{
    let ghost nsv = nodes_view(nodes@);
    proof {
        lemma_nodes_view_index(nodes@);
        assert(nsv.skip(0) =~= nsv);
    }
    let ghost base = out@;
    let n = nodes.len();
    let mut i: usize = 0;
    while i < n
        invariant
            n == nodes@.len(),
            i <= n,
            nsv == nodes_view(nodes@),
            nsv.len() == n,
            forall|m: int| 0 <= m < n ==> nsv[m] == crate::plan::node_view(nodes@[m]),
            base + render_nodes(nsv, env@) == out@ + render_nodes(nsv.skip(i as int), env@),
        decreases n - i,
    {
        proof {
            assert(nsv.skip(i as int)[0] == nsv[i as int]);
            assert(nsv.skip(i as int).drop_first() =~= nsv.skip(i + 1 as int));
        }
        render_node_push(&nodes[i], env, out);
        i = i + 1;
    }
    proof {
        assert(nsv.skip(n as int) =~= Seq::<NodeV>::empty());
    }
}

/// Renders a compiled plan against an environment: walks the plan
/// depth-first, left to right, and returns exactly the text the plan and
/// the environment determine. The plan is not changed; rendering the same
/// plan and environment again gives the same string.
///
/// Every slot reference in the plan resolves within the plan's own tables;
/// an environment is expected to answer each of them. Should the host hand
/// in vectors shorter than the tables, the unanswered slots write nothing
/// — the explicit empty-on-missing rule stated by `render_node` — rather
/// than fail at render time.
pub fn render(plan: &Plan, env: &Env) -> (out: String)
    ensures
        out@ == render_plan(plan@, env@),
{
    let mut out = String::new();
    render_nodes_push(&plan.root, env, &mut out);
    proof {
        assert(Seq::<char>::empty() + render_nodes(nodes_view(plan.root@), env@) =~= render_nodes(
            nodes_view(plan.root@),
            env@,
        ));
    }
    out
}

proof fn lemma_first_true_at(branches: Seq<BranchV>, i: int, env: EnvV, k: int)
    requires
        0 <= i <= k < branches.len(),
        guard_true(env, branches[k].guard),
        forall|m: int| i <= m < k ==> !guard_true(env, branches[m].guard),
    ensures
        first_true(branches, i, env) == k,
    decreases k - i,
{
    if i < k {
        lemma_first_true_at(branches, i + 1, env, k);
    }
}

/// A conditional selects exactly one branch: where branch `k` is the first
/// whose guard holds, the chain writes exactly what `k`'s body alone
/// writes.
pub proof fn lemma_cond_selects_branch(
    branches: Seq<BranchV>,
    otherwise: Seq<NodeV>,
    env: EnvV,
    k: int,
)
    requires
        0 <= k < branches.len(),
        guard_true(env, branches[k].guard),
        forall|m: int| 0 <= m < k ==> !guard_true(env, branches[m].guard),
    ensures
        render_node(NodeV::Cond { branches, otherwise }, env) == render_nodes(
            branches[k].body,
            env,
        ),
{
    lemma_first_true_at(branches, 0, env, k);
}

proof fn lemma_first_true_none(branches: Seq<BranchV>, i: int, env: EnvV)
    requires
        0 <= i <= branches.len(),
        forall|m: int| i <= m < branches.len() ==> !guard_true(env, branches[m].guard),
    ensures
        first_true(branches, i, env) == branches.len(),
    decreases branches.len() - i,
{
    if i < branches.len() {
        lemma_first_true_none(branches, i + 1, env);
    }
}

/// With no true guard, a conditional writes exactly what its otherwise
/// body alone writes: nothing, when there is no `else`.
pub proof fn lemma_cond_selects_otherwise(branches: Seq<BranchV>, otherwise: Seq<NodeV>, env: EnvV)
    requires
        forall|m: int| 0 <= m < branches.len() ==> !guard_true(env, branches[m].guard),
    ensures
        render_node(NodeV::Cond { branches, otherwise }, env) == render_nodes(otherwise, env),
{
    lemma_first_true_none(branches, 0, env);
}

/// A loop writes its iterations in order, each exactly once: over the
/// concatenation of two iteration sequences it writes the concatenation of
/// what it writes over each.
pub proof fn lemma_render_iters_concat(body: Seq<NodeV>, a: Seq<EnvV>, b: Seq<EnvV>)
    ensures
        render_iters(body, a + b) == render_iters(body, a) + render_iters(body, b),
    decreases a.len(),
{
    if a.len() == 0 {
        assert(a + b =~= b);
        assert(render_iters(body, a) + render_iters(body, b) =~= render_iters(body, b));
    } else {
        assert((a + b).drop_first() =~= a.drop_first() + b);
        assert((a + b)[0] == a[0]);
        lemma_render_iters_concat(body, a.drop_first(), b);
        assert(render_nodes(body, a[0]) + (render_iters(body, a.drop_first()) + render_iters(
            body,
            b,
        )) =~= (render_nodes(body, a[0]) + render_iters(body, a.drop_first())) + render_iters(
            body,
            b,
        ));
    }
}

/// One iteration writes exactly one pass of the body.
pub proof fn lemma_render_iters_single(body: Seq<NodeV>, e: EnvV)
    ensures
        render_iters(body, seq![e]) == render_nodes(body, e),
{
    let s = seq![e];
    assert(s.len() == 1);
    assert(s[0] == e);
    assert(s.drop_first() =~= Seq::<EnvV>::empty());
    assert(render_iters(body, s) == render_nodes(body, s[0]) + render_iters(body, s.drop_first()));
    assert(render_iters(body, s.drop_first()) == Seq::<char>::empty());
    assert(render_nodes(body, e) + Seq::<char>::empty() =~= render_nodes(body, e));
}

} // verus!

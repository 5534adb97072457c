//! The emit plan: the immutable tree of emit nodes the parser compiles a
//! token stream into, together with the slot tables that tell the host
//! which expressions it must evaluate at render time.

use vstd::prelude::*;
use crate::escape::EscapeCtx;

verus! {

/// One node of the emit plan.
pub enum EmitNode {
    /// Fixed text written as it stands, never escaped: text between tags
    /// and the structural punctuation the parser itself emits.
    Literal(String),
    /// A host-supplied value: the text bound to `slot` is escaped under
    /// `ctx` and written.
    Interp { slot: usize, ctx: EscapeCtx },
    /// A sequence of nodes written in order.
    Group(Vec<EmitNode>),
    /// An if / else-if / else chain: the body of the first branch whose
    /// guard holds is written; with none, the else body.
    Cond { branches: Vec<Branch>, otherwise: Vec<EmitNode> },
    /// A match: the host binds the chosen arm to `sel`.
    Match { sel: usize, arms: Vec<EmitNode> },
    /// A loop: the body is written once per iteration bound to `slot`.
    Loop { slot: usize, body: Vec<EmitNode> },
    /// One element of a bracket-list attribute value: the text and one
    /// trailing space, written when the guard holds.
    Gated { guard: usize, text: String },
    /// An escape hatch: the host-produced text bound to `slot` is written
    /// with no escaping at all.
    Raw { slot: usize },
    /// A `let` binding scoping over the rest of its sequence: the binding
    /// itself writes nothing; `slot` names it in the lets table, and the
    /// body holds the remaining siblings it is visible to.
    Scope { slot: usize, body: Vec<EmitNode> },
}

/// One branch of a conditional: its guard slot and its body.
pub struct Branch {
    pub guard: usize,
    pub body: Vec<EmitNode>,
}

/// The mathematical value of an emit node.
pub enum NodeV {
    Literal(Seq<char>),
    Interp { slot: usize, ctx: EscapeCtx },
    Group(Seq<NodeV>),
    Cond { branches: Seq<BranchV>, otherwise: Seq<NodeV> },
    Match { sel: usize, arms: Seq<NodeV> },
    Loop { slot: usize, body: Seq<NodeV> },
    Gated { guard: usize, text: Seq<char> },
    Raw { slot: usize },
    Scope { slot: usize, body: Seq<NodeV> },
}

/// The mathematical value of a branch.
pub struct BranchV {
    pub guard: usize,
    pub body: Seq<NodeV>,
}

/// The value of an emit node, children included.
pub open spec fn node_view(n: EmitNode) -> NodeV
    decreases n, 2int,
{
    match n {
        EmitNode::Literal(s) => NodeV::Literal(s@),
        EmitNode::Interp { slot, ctx } => NodeV::Interp { slot, ctx },
        EmitNode::Group(ns) => NodeV::Group(nodes_view(ns@)),
        EmitNode::Cond { branches, otherwise } => NodeV::Cond {
            branches: branches_view(branches@),
            otherwise: nodes_view(otherwise@),
        },
        EmitNode::Match { sel, arms } => NodeV::Match { sel, arms: nodes_view(arms@) },
        EmitNode::Loop { slot, body } => NodeV::Loop { slot, body: nodes_view(body@) },
        EmitNode::Gated { guard, text } => NodeV::Gated { guard, text: text@ },
        EmitNode::Raw { slot } => NodeV::Raw { slot },
        EmitNode::Scope { slot, body } => NodeV::Scope { slot, body: nodes_view(body@) },
    }
}

/// The values of a node sequence.
pub open spec fn nodes_view(ns: Seq<EmitNode>) -> Seq<NodeV>
    decreases ns, 0int,
{
    if ns.len() == 0 {
        Seq::empty()
    } else {
        seq![node_view(ns[0])] + nodes_view(ns.drop_first())
    }
}

/// The values of a branch sequence.
pub open spec fn branches_view(bs: Seq<Branch>) -> Seq<BranchV>
    decreases bs, 1int,
{
    if bs.len() == 0 {
        Seq::empty()
    } else {
        seq![BranchV { guard: bs[0].guard, body: nodes_view(bs[0].body@) }] + branches_view(
            bs.drop_first(),
        )
    }
}

impl View for EmitNode {
    type V = NodeV;

    open spec fn view(&self) -> NodeV {
        node_view(*self)
    }
}

/// Length and element values of a node sequence's view.
pub proof fn lemma_nodes_view_index(ns: Seq<EmitNode>)
    ensures
        nodes_view(ns).len() == ns.len(),
        forall|i: int| 0 <= i < ns.len() ==> nodes_view(ns)[i] == node_view(ns[i]),
    decreases ns,
{
    if ns.len() > 0 {
        lemma_nodes_view_index(ns.drop_first());
        assert forall|i: int| 0 <= i < ns.len() implies nodes_view(ns)[i] == node_view(ns[i]) by {
            if i > 0 {
                assert(nodes_view(ns)[i] == nodes_view(ns.drop_first())[i - 1]);
                assert(ns.drop_first()[i - 1] == ns[i]);
            }
        }
    }
}

/// Length and element values of a branch sequence's view.
pub proof fn lemma_branches_view_index(bs: Seq<Branch>)
    ensures
        branches_view(bs).len() == bs.len(),
        forall|i: int|
            0 <= i < bs.len() ==> branches_view(bs)[i] == (BranchV {
                guard: bs[i].guard,
                body: nodes_view(bs[i].body@),
            }),
    decreases bs,
{
    if bs.len() > 0 {
        lemma_branches_view_index(bs.drop_first());
        assert forall|i: int|
            0 <= i < bs.len() implies branches_view(bs)[i] == (BranchV {
            guard: bs[i].guard,
            body: nodes_view(bs[i].body@),
        }) by {
            if i > 0 {
                assert(branches_view(bs)[i] == branches_view(bs.drop_first())[i - 1]);
                assert(bs.drop_first()[i - 1] == bs[i]);
            }
        }
    }
}

/// Pushing a node commutes with taking views.
pub proof fn lemma_nodes_view_push(ns: Seq<EmitNode>, n: EmitNode)
    ensures
        nodes_view(ns.push(n)) == nodes_view(ns).push(node_view(n)),
{
    lemma_nodes_view_index(ns);
    lemma_nodes_view_index(ns.push(n));
    assert(nodes_view(ns.push(n)) =~= nodes_view(ns).push(node_view(n)));
}

/// Pushing a branch commutes with taking views.
pub proof fn lemma_branches_view_push(bs: Seq<Branch>, b: Branch)
    ensures
        branches_view(bs.push(b)) == branches_view(bs).push(
            BranchV { guard: b.guard, body: nodes_view(b.body@) },
        ),
{
    lemma_branches_view_index(bs);
    lemma_branches_view_index(bs.push(b));
    assert(branches_view(bs.push(b)) =~= branches_view(bs).push(
        BranchV { guard: b.guard, body: nodes_view(b.body@) },
    ));
}

/// True when every slot reference in the node lies inside the tables.
pub open spec fn node_wf(n: NodeV, st: SlotsV) -> bool
    decreases n, 2int,
{
    match n {
        NodeV::Literal(_) => true,
        NodeV::Interp { slot, ctx } => (slot as int) < st.values.len(),
        NodeV::Group(ns) => nodes_wf(ns, st),
        NodeV::Cond { branches, otherwise } => branches_wf(branches, st) && nodes_wf(
            otherwise,
            st,
        ),
        NodeV::Match { sel, arms } => (sel as int) < st.matches.len() && nodes_wf(arms, st),
        NodeV::Loop { slot, body } => (slot as int) < st.loops.len() && nodes_wf(body, st),
        NodeV::Gated { guard, text } => (guard as int) < st.guards.len(),
        NodeV::Raw { slot } => (slot as int) < st.raws.len(),
        NodeV::Scope { slot, body } => (slot as int) < st.lets.len() && nodes_wf(body, st),
    }
}

/// True when every slot reference in the nodes lies inside the tables.
pub open spec fn nodes_wf(ns: Seq<NodeV>, st: SlotsV) -> bool
    decreases ns, 0int,
{
    if ns.len() == 0 {
        true
    } else {
        node_wf(ns[0], st) && nodes_wf(ns.drop_first(), st)
    }
}

/// True when every guard and slot reference in the branches lies inside
/// the tables.
pub open spec fn branches_wf(bs: Seq<BranchV>, st: SlotsV) -> bool
    decreases bs, 1int,
{
    if bs.len() == 0 {
        true
    } else {
        (bs[0].guard as int) < st.guards.len() && nodes_wf(bs[0].body, st) && branches_wf(
            bs.drop_first(),
            st,
        )
    }
}

/// True when every slot reference in the plan lies inside its own tables.
pub open spec fn plan_wf(p: PlanV) -> bool {
    nodes_wf(p.root, p.slots)
}

/// True when `b`'s tables are at least as long as `a`'s: parsing only ever
/// appends to the tables.
pub open spec fn slots_extend(a: SlotsV, b: SlotsV) -> bool {
    &&& a.values.len() <= b.values.len()
    &&& a.guards.len() <= b.guards.len()
    &&& a.matches.len() <= b.matches.len()
    &&& a.loops.len() <= b.loops.len()
    &&& a.raws.len() <= b.raws.len()
    &&& a.lets.len() <= b.lets.len()
}

/// Well-formedness is kept when the tables grow.
pub proof fn lemma_node_wf_mono(n: NodeV, a: SlotsV, b: SlotsV)
    requires
        node_wf(n, a),
        slots_extend(a, b),
    ensures
        node_wf(n, b),
    decreases n, 2int,
{
    match n {
        NodeV::Group(ns) => lemma_nodes_wf_mono(ns, a, b),
        NodeV::Cond { branches, otherwise } => {
            lemma_branches_wf_mono(branches, a, b);
            lemma_nodes_wf_mono(otherwise, a, b);
        },
        NodeV::Match { sel, arms } => lemma_nodes_wf_mono(arms, a, b),
        NodeV::Loop { slot, body } => lemma_nodes_wf_mono(body, a, b),
        NodeV::Scope { slot, body } => lemma_nodes_wf_mono(body, a, b),
        _ => {},
    }
}

/// Well-formedness of a node sequence is kept when the tables grow.
pub proof fn lemma_nodes_wf_mono(ns: Seq<NodeV>, a: SlotsV, b: SlotsV)
    requires
        nodes_wf(ns, a),
        slots_extend(a, b),
    ensures
        nodes_wf(ns, b),
    decreases ns, 0int,
{
    if ns.len() > 0 {
        lemma_node_wf_mono(ns[0], a, b);
        lemma_nodes_wf_mono(ns.drop_first(), a, b);
    }
}

/// Well-formedness of branches is kept when the tables grow.
pub proof fn lemma_branches_wf_mono(bs: Seq<BranchV>, a: SlotsV, b: SlotsV)
    requires
        branches_wf(bs, a),
        slots_extend(a, b),
    ensures
        branches_wf(bs, b),
    decreases bs, 1int,
{
    if bs.len() > 0 {
        lemma_nodes_wf_mono(bs[0].body, a, b);
        lemma_branches_wf_mono(bs.drop_first(), a, b);
    }
}

/// Well-formedness distributes over concatenation.
pub proof fn lemma_nodes_wf_concat(x: Seq<NodeV>, y: Seq<NodeV>, st: SlotsV)
    requires
        nodes_wf(x, st),
        nodes_wf(y, st),
    ensures
        nodes_wf(x + y, st),
    decreases x.len(),
{
    if x.len() == 0 {
        assert(x + y =~= y);
    } else {
        assert((x + y)[0] == x[0]);
        assert((x + y).drop_first() =~= x.drop_first() + y);
        lemma_nodes_wf_concat(x.drop_first(), y, st);
    }
}

/// What the host must know about one interpolation slot: the expression
/// text to evaluate, and the format specifier to apply to its value,
/// forwarded opaquely.
pub struct InterpInfo {
    pub expr: String,
    pub format_spec: Option<String>,
}

/// The mathematical value of an interpolation slot.
pub struct InterpInfoV {
    pub expr: Seq<char>,
    pub format_spec: Option<Seq<char>>,
}

impl View for InterpInfo {
    type V = InterpInfoV;

    open spec fn view(&self) -> InterpInfoV {
        InterpInfoV {
            expr: self.expr@,
            format_spec: match self.format_spec {
                Some(s) => Some(s@),
                None => None,
            },
        }
    }
}

/// What the host must know about one match slot: the scrutinee expression
/// and the arm patterns, in order.
pub struct MatchInfo {
    pub scrutinee: String,
    pub patterns: Vec<String>,
}

/// The mathematical value of a match slot.
pub struct MatchInfoV {
    pub scrutinee: Seq<char>,
    pub patterns: Seq<Seq<char>>,
}

impl View for MatchInfo {
    type V = MatchInfoV;

    open spec fn view(&self) -> MatchInfoV {
        MatchInfoV { scrutinee: self.scrutinee@, patterns: self.patterns.deep_view() }
    }
}

/// What the host must know about one loop slot: the binder pattern and the
/// iterable expression.
pub struct LoopInfo {
    pub pattern: String,
    pub iterable: String,
}

/// The mathematical value of a loop slot.
pub struct LoopInfoV {
    pub pattern: Seq<char>,
    pub iterable: Seq<char>,
}

impl View for LoopInfo {
    type V = LoopInfoV;

    open spec fn view(&self) -> LoopInfoV {
        LoopInfoV { pattern: self.pattern@, iterable: self.iterable@ }
    }
}

/// What the host must know about one `let` binding: the binder pattern and
/// the bound expression.
pub struct LetInfo {
    pub pattern: String,
    pub expr: String,
}

/// The mathematical value of a `let` binding.
pub struct LetInfoV {
    pub pattern: Seq<char>,
    pub expr: Seq<char>,
}

impl View for LetInfo {
    type V = LetInfoV;

    open spec fn view(&self) -> LetInfoV {
        LetInfoV { pattern: self.pattern@, expr: self.expr@ }
    }
}

/// The slot tables of a plan. Slots are assigned densely at parse time; a
/// reference from a node into these tables can never dangle.
pub struct Slots {
    /// Interpolation slots.
    pub values: Vec<InterpInfo>,
    /// Guard slots: the guard expression text of conditionals and
    /// bracket-list elements.
    pub guards: Vec<String>,
    /// Match slots.
    pub matches: Vec<MatchInfo>,
    /// Loop slots.
    pub loops: Vec<LoopInfo>,
    /// Escape-hatch slots: the host code text.
    pub raws: Vec<String>,
    /// Let slots: the bindings scope nodes refer to.
    pub lets: Vec<LetInfo>,
}

/// The mathematical value of the slot tables.
pub struct SlotsV {
    pub values: Seq<InterpInfoV>,
    pub guards: Seq<Seq<char>>,
    pub matches: Seq<MatchInfoV>,
    pub loops: Seq<LoopInfoV>,
    pub raws: Seq<Seq<char>>,
    pub lets: Seq<LetInfoV>,
}

impl View for Slots {
    type V = SlotsV;

    open spec fn view(&self) -> SlotsV {
        SlotsV {
            values: Seq::new(self.values@.len(), |i: int| self.values@[i]@),
            guards: self.guards.deep_view(),
            matches: Seq::new(self.matches@.len(), |i: int| self.matches@[i]@),
            loops: Seq::new(self.loops@.len(), |i: int| self.loops@[i]@),
            raws: self.raws.deep_view(),
            lets: Seq::new(self.lets@.len(), |i: int| self.lets@[i]@),
        }
    }
}

impl Slots {
    /// Empty tables.
    pub fn new() -> (r: Slots)
        ensures
            r@ == (SlotsV {
                values: Seq::<InterpInfoV>::empty(),
                guards: Seq::<Seq<char>>::empty(),
                matches: Seq::<MatchInfoV>::empty(),
                loops: Seq::<LoopInfoV>::empty(),
                raws: Seq::<Seq<char>>::empty(),
                lets: Seq::<LetInfoV>::empty(),
            }),
    {
        let r = Slots {
            values: Vec::new(),
            guards: Vec::new(),
            matches: Vec::new(),
            loops: Vec::new(),
            raws: Vec::new(),
            lets: Vec::new(),
        };
        proof {
            assert(r@.values =~= Seq::<InterpInfoV>::empty());
            assert(r@.guards =~= Seq::<Seq<char>>::empty());
            assert(r@.matches =~= Seq::<MatchInfoV>::empty());
            assert(r@.loops =~= Seq::<LoopInfoV>::empty());
            assert(r@.raws =~= Seq::<Seq<char>>::empty());
            assert(r@.lets =~= Seq::<LetInfoV>::empty());
        }
        r
    }
}

/// A compiled template: the root node sequence and the slot tables. Built
/// once at parse time, immutable afterward, rendered any number of times.
pub struct Plan {
    pub root: Vec<EmitNode>,
    pub slots: Slots,
}

/// The mathematical value of a plan.
pub struct PlanV {
    pub root: Seq<NodeV>,
    pub slots: SlotsV,
}

impl View for Plan {
    type V = PlanV;

    open spec fn view(&self) -> PlanV {
        PlanV { root: nodes_view(self.root@), slots: self.slots@ }
    }
}

} // verus!

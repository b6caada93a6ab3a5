use vstd::prelude::*;
use crate::binding::{
    check_required, declare_exposure, exposure_decision, parents_name, parents_var, requirement_outcome,
    copy_table, root_name, root_var, table_after_exposure, table_view, ExposedInfo,
};
use crate::graph::{
    lemma_frame_own_state, lemma_frame_record, lemma_frame_refl, lemma_frame_run, record_run, unchanged_but_runs,
    new_runs, wire_ran, wire_failed, wire_touched, slots_ran, lemma_wire_ran_lift, lemma_runs_step, lemma_runs_seen, lemma_runs_lift, lemma_slot_ran, lemma_slots_all_ran, lemma_slot_touched, slots_touched, NodeRun,
    is_leaf, lemma_frame_trans, lemma_record_after, lemma_regions_done, lemma_regions_start, lemma_regions_step,
    lifecycle_frame, node_wf, outcomes_of, param_value, passes_through, record, regions_run, var_lookup, visits_of,
    Call, Graph, NodeState,
    Phase, Runtime, SlotVisit, Strategy,
};
use crate::nodes::{slot_order, slot_wire, ImageButton, Indent, NodeKind, Panels, Slot};
use crate::binding::ExposedModel;
use crate::types::{type_of_model, GuiError, Param, ParamModel, Value, ValueModel, VarType};

verus! {

/// What a drawing leaf bound to parameter `var` of type `ty` yields at
/// compose time in a scope with table `t`: it requires an enclosing surface,
/// then reconciles its variable, if it is bound to one.
pub open spec fn binding_outcome(t: Seq<crate::binding::ExposedModel>, var: ParamModel, ty: VarType) -> Result<
    (),
    GuiError,
> {
    match requirement_outcome(t, parents_var(), VarType::UiParents) {
        Err(e) => Err(e),
        Ok(_) => match var {
            ParamModel::Variable(n) => match exposure_decision(t, n, ty) {
                Err(e) => Err(e),
                Ok(_) => Ok(()),
            },
            ParamModel::Literal(_) => Ok(()),
        },
    }
}

/// What a drawing leaf that wants input type `want` yields at compose time
/// for input type `input` in a scope with table `t`.
pub open spec fn typed_leaf_outcome(t: Seq<crate::binding::ExposedModel>, input: VarType, want: VarType) -> Result<
    VarType,
    GuiError,
> {
    match requirement_outcome(t, parents_var(), VarType::UiParents) {
        Err(e) => Err(e),
        Ok(_) => if input == want {
            Ok(want)
        } else {
            Err(GuiError::TypeMismatch)
        },
    }
}

/// The scope table after such a leaf composed.
pub open spec fn binding_table(t: Seq<crate::binding::ExposedModel>, var: ParamModel, ty: VarType) -> Seq<
    crate::binding::ExposedModel,
> {
    match var {
        ParamModel::Variable(n) => if binding_outcome(t, var, ty) is Ok {
            table_after_exposure(t, n, ty)
        } else {
            t
        },
        ParamModel::Literal(_) => t,
    }
}

/// What a panel container's context parameter yields at compose time: a
/// variable must be visible with the context type, a literal must be a
/// context.
pub open spec fn panels_context_outcome(t: Seq<ExposedModel>, p: Panels) -> Result<(), GuiError> {
    match p.context@ {
        ParamModel::Variable(n) => requirement_outcome(t, n, VarType::Context),
        ParamModel::Literal(v) => if type_of_model(v) == VarType::Context {
            Ok(())
        } else {
            Err(GuiError::TypeMismatch)
        },
    }
}

/// What composing panel container `p` at index `i` does in a scope with table
/// `t`: after its context checks out, it composes the configured slots in
/// order, each in its own sub-scope, until one fails; it succeeds when none
/// does, with its input type as output.
pub open spec fn panels_composition(p: Panels, i: usize, r0: Runtime, r1: Runtime, t: Seq<ExposedModel>, input: VarType, r: Result<VarType, GuiError>) -> bool {
    &&& r is Ok ==> r == Ok::<VarType, GuiError>(input)
    &&& panels_context_outcome(t, p) matches Err(e) ==> r == Err::<VarType, GuiError>(e) && r1.journal@ == r0.journal@
    &&& panels_context_outcome(t, p) is Ok ==> regions_run(r0.journal@, r1.journal@, i, Call::Compose, slot_order(p), r is Ok)
    &&& r is Ok ==> slots_ran(new_runs(r0, r1), p, Call::Compose)
}

/// What composing indentation block `x` at index `i` does: it requires an
/// enclosing surface, then composes its contents in the same scope and
/// succeeds exactly when they do.
pub open spec fn indent_composition(x: Indent, i: usize, r0: Runtime, r1: Runtime, t: Seq<ExposedModel>, input: VarType, r: Result<VarType, GuiError>) -> bool {
    &&& r is Ok ==> r == Ok::<VarType, GuiError>(input)
    &&& requirement_outcome(t, parents_var(), VarType::UiParents) matches Err(e) ==> r == Err::<VarType, GuiError>(e)
    &&& requirement_outcome(t, parents_var(), VarType::UiParents) is Ok && x.contents@.len() == 0 ==> r is Ok
    &&& requirement_outcome(t, parents_var(), VarType::UiParents) is Ok && x.contents@.len() > 0 ==> regions_run(
        r0.journal@,
        r1.journal@,
        i,
        Call::Compose,
        seq![Slot::Center],
        r is Ok,
    )
    &&& r is Ok && x.contents@.len() > 0 ==> wire_ran(new_runs(r0, r1), x.contents@, Call::Compose)
}

/// What composing image button `b` at index `i` does: after its binding (see
/// [`binding_outcome`]) it composes its action and outputs a boolean. It
/// chooses its activation strategy from the input type; an input that is
/// neither an image nor a texture leaves it unsupported, to fail at
/// activation. A failed binding changes nothing of the node.
pub open spec fn image_button_composition(b: ImageButton, i: usize, r0: Runtime, r1: Runtime, t: Seq<ExposedModel>, input: VarType, r: Result<VarType, GuiError>) -> bool {
    let bo = binding_outcome(t, b.selected@, VarType::Bool);
    &&& bo matches Err(e) ==> r == Err::<VarType, GuiError>(e) && r1.journal@ == r0.journal@
        && r1.states@[i as int] == r0.states@[i as int]
    &&& bo is Ok && b.action@.len() == 0 ==> r is Ok
    &&& bo is Ok && b.action@.len() > 0 ==> regions_run(r0.journal@, r1.journal@, i, Call::Compose, seq![Slot::Center], r is Ok)
    &&& r is Ok && b.action@.len() > 0 ==> wire_ran(new_runs(r0, r1), b.action@, Call::Compose)
    &&& r is Ok ==> r == Ok::<VarType, GuiError>(VarType::Bool) && r1.states@[i as int].strategy == (if input == VarType::Image {
        Strategy::Image
    } else if input == VarType::Texture {
        Strategy::Texture
    } else {
        Strategy::Unsupported
    })
    &&& bo is Ok ==> (b.selected@ matches ParamModel::Variable(n) ==> r1.states@[i as int].should_expose
        == (exposure_decision(t, n, VarType::Bool) == Ok::<bool, GuiError>(true)))
}

/// What warming panel container `p` at index `i` does: it acquires the
/// context its parameter names, then warms the configured slots in order
/// until one fails. On failure the slots it had warmed are cleaned up, in
/// order, and the node keeps its previous state; on success it is warm and
/// holds the context.
pub open spec fn panels_warming(p: Panels, i: usize, r0: Runtime, r1: Runtime, r: Result<(), GuiError>) -> bool {
    &&& !(param_value(r0.vars@, p.context@) is Context) ==> r == Err::<(), GuiError>(GuiError::SetupFailure)
        && r1.journal@ == r0.journal@ && r1.states@[i as int] == r0.states@[i as int]
    &&& param_value(r0.vars@, p.context@) matches ValueModel::Context(h) ==> ({
        let wv = visits_of(r1.journal@.skip(r0.journal@.len() as int), i, Call::Warmup);
        &&& regions_run(r0.journal@, r1.journal@, i, Call::Warmup, slot_order(p), r is Ok)
        &&& r is Ok ==> r1.states@[i as int].phase == Phase::Warm && r1.states@[i as int].context == Some(h)
            && slots_ran(new_runs(r0, r1), p, Call::Warmup)
        &&& r is Err ==> r1.states@[i as int] == r0.states@[i as int]
            && visits_of(r1.journal@.skip(r0.journal@.len() as int), i, Call::Cleanup) == wv.drop_last()
    })
}

/// What warming indentation block `x` at index `i` does: it warms its
/// contents and succeeds exactly when they do.
pub open spec fn indent_warming(x: Indent, i: usize, r0: Runtime, r1: Runtime, r: Result<(), GuiError>) -> bool {
    &&& x.contents@.len() == 0 ==> r is Ok
    &&& x.contents@.len() > 0 ==> regions_run(r0.journal@, r1.journal@, i, Call::Warmup, seq![Slot::Center], r is Ok)
    &&& x.contents@.len() > 0 && r is Ok ==> wire_ran(new_runs(r0, r1), x.contents@, Call::Warmup)
}

/// Whether composing node `i` surely succeeds in a scope with table `t` for
/// input type `input`, without changing the scope: a console needs an
/// enclosing surface and a string input; an indentation block needs an
/// enclosing surface and its contents to compose; a panel container needs its
/// context and every slot's nodes to compose in the slot's sub-scope. All of
/// these hand their input type through.
pub open spec fn composes(g: Graph, i: int, t: Seq<ExposedModel>, input: VarType) -> bool
    decreases g.nodes@.len() - i,
{
    if 0 <= i < g.nodes@.len() {
        match g.nodes@[i] {
            NodeKind::Console(_) => requirement_outcome(t, parents_var(), VarType::UiParents) is Ok && input
                == VarType::String,
            NodeKind::Indent(x) => requirement_outcome(t, parents_var(), VarType::UiParents) is Ok && forall|k: int|
                0 <= k < x.contents@.len() ==> i < #[trigger] x.contents@[k] < g.nodes@.len() && composes(
                    g,
                    x.contents@[k] as int,
                    t,
                    input,
                ),
            NodeKind::Panels(p) => panels_context_outcome(t, p) is Ok && exposure_decision(t, parents_var(), VarType::UiParents)
                is Ok && forall|s: Slot, k: int|
                0 <= k < crate::nodes::slot_wire(p, s).len() ==> i < #[trigger] crate::nodes::slot_wire(p, s)[k]
                    < g.nodes@.len() && composes(
                    g,
                    crate::nodes::slot_wire(p, s)[k] as int,
                    table_after_exposure(t, parents_var(), VarType::UiParents),
                    input,
                ),
            _ => false,
        }
    } else {
        false
    }
}

/// Whether warming node `i` surely succeeds with variables `vars`, without
/// changing them: a console always does; an indentation block when its
/// contents do; a panel container when its context parameter holds a context
/// and every slot's nodes warm.
pub open spec fn warms(g: Graph, i: int, vars: Seq<crate::graph::Variable>) -> bool
    decreases g.nodes@.len() - i,
{
    if 0 <= i < g.nodes@.len() {
        match g.nodes@[i] {
            NodeKind::Console(_) => true,
            NodeKind::Indent(x) => forall|k: int|
                0 <= k < x.contents@.len() ==> i < #[trigger] x.contents@[k] < g.nodes@.len() && warms(
                    g,
                    x.contents@[k] as int,
                    vars,
                ),
            NodeKind::Panels(p) => param_value(vars, p.context@) is Context && forall|s: Slot, k: int|
                0 <= k < crate::nodes::slot_wire(p, s).len() ==> i < #[trigger] crate::nodes::slot_wire(p, s)[k]
                    < g.nodes@.len() && warms(g, crate::nodes::slot_wire(p, s)[k] as int, vars),
            _ => false,
        }
    } else {
        false
    }
}

fn set_phase(rt: &mut Runtime, i: usize, phase: Phase)
    requires
        i < old(rt).states@.len(),
    ensures
        forall|r0: Runtime| lifecycle_frame(r0, *old(rt), i as int) ==> #[trigger] lifecycle_frame(r0, *final(rt), i as int),
        final(rt).states@ == old(rt).states@.update(i as int, NodeState { phase, ..old(rt).states@[i as int] }),
        final(rt).ops == old(rt).ops,
        final(rt).vars == old(rt).vars,
        final(rt).stack == old(rt).stack,
        final(rt).journal == old(rt).journal,
        final(rt).cache == old(rt).cache,
        final(rt).runs == old(rt).runs,
{
    let st = rt.states[i];
    set_state(rt, i, NodeState { phase, ..st });
    proof {
        assert forall|r0: Runtime| lifecycle_frame(r0, *old(rt), i as int) implies #[trigger] lifecycle_frame(r0, *rt, i as int) by {
            lemma_frame_own_state(r0, *old(rt), *rt, i as int);
        }
    }
}

fn set_state(rt: &mut Runtime, i: usize, st: NodeState)
    requires
        i < old(rt).states@.len(),
    ensures
        final(rt).states@ == old(rt).states@.update(i as int, st),
        final(rt).ops == old(rt).ops,
        final(rt).vars == old(rt).vars,
        final(rt).stack == old(rt).stack,
        final(rt).journal == old(rt).journal,
        final(rt).cache == old(rt).cache,
        forall|r0: Runtime| lifecycle_frame(r0, *old(rt), i as int) ==> #[trigger] lifecycle_frame(r0, *final(rt), i as int),
        final(rt).runs == old(rt).runs,
{
    rt.states.set(i, st);
    proof {
        assert(rt.runs == old(rt).runs);
        assert forall|r0: Runtime| lifecycle_frame(r0, *old(rt), i as int) implies #[trigger] lifecycle_frame(r0, *rt, i as int) by {
            lemma_frame_own_state(r0, *old(rt), *rt, i as int);
        }
    }
}

impl Graph {
    /// Composes node `i` in a scope whose visible variables are `scope`, for
    /// input type `input`: checks what the node requires, reconciles what it
    /// exposes (adding to `scope` what it newly exposes), composes nested
    /// wires, and returns the node's output type.
    pub fn compose_node(&self, i: usize, rt: &mut Runtime, scope: &mut Vec<ExposedInfo>, input: VarType) -> (r:
        Result<VarType, GuiError>)
        requires
            self.wf(),
            i < self.nodes@.len(),
            old(rt).wf(self),
        ensures
            lifecycle_frame(*old(rt), *final(rt), i as int),
            final(rt).stack@ == old(rt).stack@,
            final(rt).vars == old(rt).vars,
            passes_through(self.nodes@[i as int]) && r is Ok ==> r == Ok::<VarType, GuiError>(input),
            is_leaf(self.nodes@[i as int]) ==> (requirement_outcome(
                table_view(old(scope)@),
                parents_var(),
                VarType::UiParents,
            ) matches Err(e) ==> r == Err::<VarType, GuiError>(e)),
            self.nodes@[i as int] is Console ==> r == typed_leaf_outcome(table_view(old(scope)@), input, VarType::String),
            self.nodes@[i as int] is ProgressBar ==> r == typed_leaf_outcome(table_view(old(scope)@), input, VarType::Float),
            self.nodes@[i as int] matches NodeKind::ColorInput(c) ==> ({
                &&& r is Ok <==> binding_outcome(table_view(old(scope)@), c.variable@, VarType::Color) is Ok
                &&& r is Ok ==> r == Ok::<VarType, GuiError>(VarType::Color)
                &&& binding_outcome(table_view(old(scope)@), c.variable@, VarType::Color) matches Err(e)
                    ==> r == Err::<VarType, GuiError>(e)
                &&& table_view(final(scope)@) == binding_table(table_view(old(scope)@), c.variable@, VarType::Color)
                &&& binding_outcome(table_view(old(scope)@), c.variable@, VarType::Color) is Err ==> final(rt).states@[i as int] == old(rt).states@[i as int]
                &&& binding_outcome(table_view(old(scope)@), c.variable@, VarType::Color) is Ok ==> (c.variable@ matches ParamModel::Variable(n)
                    ==> final(rt).states@[i as int].should_expose == (exposure_decision(table_view(old(scope)@), n, VarType::Color)
                    == Ok::<bool, GuiError>(true)))
            }),
            self.nodes@[i as int] matches NodeKind::Panels(p) ==> panels_composition(p, i, *old(rt), *final(rt), table_view(old(scope)@), input, r),
            composes(*self, i as int, table_view(old(scope)@), input) ==> r == Ok::<VarType, GuiError>(input)
                && table_view(final(scope)@) == table_view(old(scope)@),
            self.nodes@[i as int] matches NodeKind::Indent(x) ==> indent_composition(x, i, *old(rt), *final(rt), table_view(old(scope)@), input, r),
            self.nodes@[i as int] matches NodeKind::ImageButton(b) ==> image_button_composition(b, i, *old(rt), *final(rt), table_view(old(scope)@), input, r),
            final(rt).runs@.len() > old(rt).runs@.len(),
            final(rt).runs@.last() == (NodeRun { node: i, call: Call::Compose, ok: r is Ok }),
        decreases self.nodes@.len() - i, 3int,
    {
        let ghost r0 = *rt;
        let r = self.compose_kind(i, rt, scope, input);
        let ghost r1 = *rt;
        record_run(rt, NodeRun { node: i, call: Call::Compose, ok: r.is_ok() });
        proof {
            lemma_frame_run(r0, r1, *rt, i as int);
            lemma_runs_lift(r0, r1, *rt);
        }
        r
    }

    fn compose_kind(&self, i: usize, rt: &mut Runtime, scope: &mut Vec<ExposedInfo>, input: VarType) -> (r:
        Result<VarType, GuiError>)
        requires
            self.wf(),
            i < self.nodes@.len(),
            old(rt).wf(self),
        ensures
            lifecycle_frame(*old(rt), *final(rt), i as int),
            final(rt).stack@ == old(rt).stack@,
            final(rt).vars == old(rt).vars,
            passes_through(self.nodes@[i as int]) && r is Ok ==> r == Ok::<VarType, GuiError>(input),
            is_leaf(self.nodes@[i as int]) ==> (requirement_outcome(
                table_view(old(scope)@),
                parents_var(),
                VarType::UiParents,
            ) matches Err(e) ==> r == Err::<VarType, GuiError>(e)),
            self.nodes@[i as int] is Console ==> r == typed_leaf_outcome(table_view(old(scope)@), input, VarType::String),
            self.nodes@[i as int] is ProgressBar ==> r == typed_leaf_outcome(table_view(old(scope)@), input, VarType::Float),
            self.nodes@[i as int] matches NodeKind::ColorInput(c) ==> ({
                &&& r is Ok <==> binding_outcome(table_view(old(scope)@), c.variable@, VarType::Color) is Ok
                &&& r is Ok ==> r == Ok::<VarType, GuiError>(VarType::Color)
                &&& binding_outcome(table_view(old(scope)@), c.variable@, VarType::Color) matches Err(e)
                    ==> r == Err::<VarType, GuiError>(e)
                &&& table_view(final(scope)@) == binding_table(table_view(old(scope)@), c.variable@, VarType::Color)
                &&& binding_outcome(table_view(old(scope)@), c.variable@, VarType::Color) is Err ==> final(rt).states@[i as int] == old(rt).states@[i as int]
                &&& binding_outcome(table_view(old(scope)@), c.variable@, VarType::Color) is Ok ==> (c.variable@ matches ParamModel::Variable(n)
                    ==> final(rt).states@[i as int].should_expose == (exposure_decision(table_view(old(scope)@), n, VarType::Color)
                    == Ok::<bool, GuiError>(true)))
            }),
            self.nodes@[i as int] matches NodeKind::Panels(p) ==> panels_composition(p, i, *old(rt), *final(rt), table_view(old(scope)@), input, r),
            composes(*self, i as int, table_view(old(scope)@), input) ==> r == Ok::<VarType, GuiError>(input)
                && table_view(final(scope)@) == table_view(old(scope)@),
            self.nodes@[i as int] matches NodeKind::Indent(x) ==> indent_composition(x, i, *old(rt), *final(rt), table_view(old(scope)@), input, r),
            self.nodes@[i as int] matches NodeKind::ImageButton(b) ==> image_button_composition(b, i, *old(rt), *final(rt), table_view(old(scope)@), input, r),
        decreases self.nodes@.len() - i, 2int,
    {
        proof {
            assert(node_wf(self.nodes@[i as int], i as int, self.nodes@.len() as int));
        }
        proof {
            lemma_frame_refl(*rt);
        }
        match &self.nodes[i] {
            NodeKind::Root => {
                let name = root_name();
                match declare_exposure(scope, name.as_str(), VarType::Context) {
                    Ok(expose) => {
                        let st = rt.states[i];
                        set_state(rt, i, NodeState { phase: Phase::Composed, should_expose: expose, ..st });
                        Ok(VarType::Context)
                    },
                    Err(e) => Err(e),
                }
            },
            NodeKind::Panels(p) => self.compose_panels(i, p, rt, scope, input),
            NodeKind::Indent(x) => self.compose_indent(i, x, rt, scope, input),
            NodeKind::Console(_) => {
                let pn = parents_name();
                match check_required(scope, pn.as_str(), VarType::UiParents) {
                    Err(e) => Err(e),
                    Ok(_) => {
                        if input != VarType::String {
                            return Err(GuiError::TypeMismatch);
                        }
                        set_phase(rt, i, Phase::Composed);
                        Ok(VarType::String)
                    },
                }
            },
            NodeKind::ProgressBar(_) => {
                let pn = parents_name();
                match check_required(scope, pn.as_str(), VarType::UiParents) {
                    Err(e) => Err(e),
                    Ok(_) => {
                        if input != VarType::Float {
                            return Err(GuiError::TypeMismatch);
                        }
                        set_phase(rt, i, Phase::Composed);
                        Ok(VarType::Float)
                    },
                }
            },
            NodeKind::ColorInput(c) => {
                match compose_binding(i, &c.variable, VarType::Color, rt, scope) {
                    Ok(_) => {
                        set_phase(rt, i, Phase::Composed);
                        Ok(VarType::Color)
                    },
                    Err(e) => Err(e),
                }
            },
            NodeKind::ImageButton(b) => self.compose_image_button(i, b, rt, scope, input),
        }
    }

    /// Composes the nodes of wire `w` in order, each for the output type of
    /// the one before, in one shared scope; returns the last output type.
    pub fn compose_wire(
        &self,
        lo: usize,
        w: &Vec<usize>,
        rt: &mut Runtime,
        scope: &mut Vec<ExposedInfo>,
        input: VarType,
    ) -> (r: Result<VarType, GuiError>)
        requires
            self.wf(),
            crate::graph::wire_within(w@, lo as int, self.nodes@.len() as int),
            old(rt).wf(self),
        ensures
            lifecycle_frame(*old(rt), *final(rt), lo as int),
            final(rt).stack@ == old(rt).stack@,
            final(rt).vars == old(rt).vars,
            w@.len() == 0 ==> r == Ok::<VarType, GuiError>(input),
            (forall|k: int| 0 <= k < w@.len() ==> composes(*self, #[trigger] w@[k] as int, table_view(old(scope)@), input))
                ==> r == Ok::<VarType, GuiError>(input) && table_view(final(scope)@) == table_view(old(scope)@),
            r is Ok ==> wire_ran(new_runs(*old(rt), *final(rt)), w@, Call::Compose),
            r is Err ==> wire_failed(new_runs(*old(rt), *final(rt)), w@, Call::Compose),
        decreases self.nodes@.len() - lo + 1, 0int,
    {
        let ghost t0 = table_view(scope@);
        let mut cur = input;
        let mut k: usize = 0;
        proof {
            lemma_frame_refl(*rt);
        }
        while k < w.len()
            invariant
                self.wf(),
                crate::graph::wire_within(w@, lo as int, self.nodes@.len() as int),
                k <= w@.len(),
                rt.wf(self),
                lifecycle_frame(*old(rt), *rt, lo as int),
                rt.stack@ == old(rt).stack@,
                rt.vars == old(rt).vars,
                w@.len() == 0 ==> cur == input,
                t0 == table_view(old(scope)@),
                (forall|m: int| 0 <= m < w@.len() ==> composes(*self, #[trigger] w@[m] as int, t0, input))
                    ==> cur == input && table_view(scope@) == t0,
                wire_ran(new_runs(*old(rt), *rt), w@.take(k as int), Call::Compose),
            decreases w@.len() - k,
        {
            let c = w[k];
            let ghost before = *rt;
            proof {
                if forall|m: int| 0 <= m < w@.len() ==> composes(*self, #[trigger] w@[m] as int, t0, input) {
                    assert(composes(*self, w@[k as int] as int, t0, input));
                }
            }
            let out = self.compose_node(c, rt, scope, cur);
            proof {
                lemma_runs_step(*old(rt), before, *rt, w@, k as int, c, Call::Compose, out is Ok);
                crate::graph::lemma_frame_trans(*old(rt), before, *rt, lo as int, c as int);
            }
            match out {
                Ok(t) => {
                    cur = t;
                },
                Err(e) => {
                    return Err(e);
                },
            }
            k = k + 1;
        }
        assert(w@.take(k as int) =~= w@);
        Ok(cur)
    }

    fn compose_panels(
        &self,
        i: usize,
        p: &Panels,
        rt: &mut Runtime,
        scope: &mut Vec<ExposedInfo>,
        input: VarType,
    ) -> (r: Result<VarType, GuiError>)
        requires
            self.wf(),
            i < self.nodes@.len(),
            self.nodes@[i as int] == NodeKind::Panels(*p),
            old(rt).wf(self),
        ensures
            lifecycle_frame(*old(rt), *final(rt), i as int),
            final(rt).stack@ == old(rt).stack@,
            final(rt).vars == old(rt).vars,
            panels_composition(*p, i, *old(rt), *final(rt), table_view(old(scope)@), input, r),
            table_view(final(scope)@) == table_view(old(scope)@),
            composes(*self, i as int, table_view(old(scope)@), input) ==> r is Ok,
        decreases self.nodes@.len() - i, 1int,
    {
        proof {
            assert(node_wf(self.nodes@[i as int], i as int, self.nodes@.len() as int));
            lemma_regions_start(rt.journal@, i, Call::Compose);
        }
        let ghost j0 = rt.journal@;
        let ghost t0 = table_view(scope@);
        proof {
            lemma_frame_refl(*rt);
        }
        match &p.context {
            Param::Variable(n) => {
                if let Err(e) = check_required(scope, n.as_str(), VarType::Context) {
                    return Err(e);
                }
            },
            Param::Literal(v) => {
                if v.value_type() != VarType::Context {
                    return Err(GuiError::TypeMismatch);
                }
            },
        }
        let slots = p.slots();
        let mut k: usize = 0;
        while k < slots.len()
            invariant
                self.wf(),
                i < self.nodes@.len(),
                self.nodes@[i as int] == NodeKind::Panels(*p),
                node_wf(NodeKind::Panels(*p), i as int, self.nodes@.len() as int),
                slots@ == slot_order(*p),
                k <= slots@.len(),
                rt.wf(self),
                j0 == old(rt).journal@,
                t0 == table_view(old(scope)@),
                table_view(scope@) == t0,
                panels_context_outcome(t0, *p) is Ok,
                lifecycle_frame(*old(rt), *rt, i as int),
                rt.stack@ == old(rt).stack@,
                rt.vars == old(rt).vars,
                visits_of(rt.journal@.skip(j0.len() as int), i, Call::Compose) == slot_order(*p).take(k as int),
                forall|s: Slot| slot_order(*p).take(k as int).contains(s) ==> #[trigger] wire_ran(new_runs(*old(rt), *rt), slot_wire(*p, s), Call::Compose),
                outcomes_of(rt.journal@.skip(j0.len() as int), i, Call::Compose).len() == k,
                forall|m: int| 0 <= m < k ==> #[trigger] outcomes_of(rt.journal@.skip(j0.len() as int), i, Call::Compose)[m],
            decreases slots@.len() - k,
        {
            let slot = slots[k];
            let ghost r1 = *rt;
            // each slot is its own sub-scope: what one slot exposes stays there
            let mut sub = copy_table(scope);
            let pn = parents_name();
            let declared = declare_exposure(&mut sub, pn.as_str(), VarType::UiParents);
            let w = p.wire(slot);
            proof {
                crate::nodes::lemma_slot_order(*p);
                assert(slot_order(*p)[k as int] == slot);
                assert(w@[0] >= i + 1);
            }
            proof {
                if composes(*self, i as int, t0, input) {
                    assert(declared is Ok);
                    assert forall|m: int| 0 <= m < w@.len() implies composes(*self, #[trigger] w@[m] as int, table_view(sub@), input) by {
                        assert(crate::nodes::slot_wire(*p, slot)[m] == w@[m]);
                    }
                }
            }
            let res = match declared {
                Ok(_) => self.compose_wire(i + 1, w, rt, &mut sub, input),
                Err(e) => Err(e),
            };
            proof {
                if declared is Err {
                    lemma_frame_refl(*rt);
                }
            }
            let ghost r2 = *rt;
            let e = SlotVisit { node: i, call: Call::Compose, slot, ok: res.is_ok() };
            record(rt, e);
            proof {
                lemma_frame_trans(*old(rt), r1, r2, i as int, i + 1);
                lemma_frame_record(*old(rt), r2, *rt, i as int, e);
                lemma_record_after(j0, r1.journal@, r2.journal@, i, e, Call::Compose);
                lemma_regions_step(j0, r1.journal@, rt.journal@, i, Call::Compose, slot_order(*p), k as int, e.ok);
                assert(rt.runs@ == r2.runs@);
                assert(rt.runs@.take(r1.runs@.len() as int) =~= r1.runs@) by {
                    assert(r2.runs@.take(r1.runs@.len() as int) == r1.runs@);
                }
                if e.ok {
                    lemma_slot_ran(*p, *old(rt), r1, *rt, r1.runs@.len() as int, k as int, Call::Compose);
                }
            }
            if let Err(e) = res {
                return Err(e);
            }
            k = k + 1;
        }
        proof {
            assert(slot_order(*p).take(k as int) =~= slot_order(*p));
            lemma_regions_done(j0, rt.journal@, i, Call::Compose, slot_order(*p));
            lemma_slots_all_ran(*p, new_runs(*old(rt), *rt), Call::Compose);
        }
        set_phase(rt, i, Phase::Composed);
        Ok(input)
    }

    fn compose_indent(
        &self,
        i: usize,
        x: &Indent,
        rt: &mut Runtime,
        scope: &mut Vec<ExposedInfo>,
        input: VarType,
    ) -> (r: Result<VarType, GuiError>)
        requires
            self.wf(),
            i < self.nodes@.len(),
            self.nodes@[i as int] == NodeKind::Indent(*x),
            old(rt).wf(self),
        ensures
            lifecycle_frame(*old(rt), *final(rt), i as int),
            final(rt).stack@ == old(rt).stack@,
            final(rt).vars == old(rt).vars,
            indent_composition(*x, i, *old(rt), *final(rt), table_view(old(scope)@), input, r),
            composes(*self, i as int, table_view(old(scope)@), input) ==> r is Ok && table_view(final(scope)@)
                == table_view(old(scope)@),
        decreases self.nodes@.len() - i, 1int,
    {
        proof {
            assert(node_wf(self.nodes@[i as int], i as int, self.nodes@.len() as int));
            lemma_regions_start(rt.journal@, i, Call::Compose);
        }
        let ghost j0 = rt.journal@;
        proof {
            lemma_frame_refl(*rt);
        }
        let pn = parents_name();
        if let Err(e) = check_required(scope, pn.as_str(), VarType::UiParents) {
            return Err(e);
        }
        if x.contents.len() > 0 {
            assert(x.contents@[0] >= i + 1);
            let ghost r1 = *rt;
            let res = self.compose_wire(i + 1, &x.contents, rt, scope, input);
            let ghost r2 = *rt;
            let e = SlotVisit { node: i, call: Call::Compose, slot: Slot::Center, ok: res.is_ok() };
            record(rt, e);
            proof {
                lemma_frame_refl(r1);
                lemma_frame_trans(r1, r1, r2, i as int, i + 1);
                lemma_frame_record(*old(rt), r2, *rt, i as int, e);
                lemma_record_after(j0, j0, r2.journal@, i, e, Call::Compose);
                assert(seq![Slot::Center].take(0) =~= Seq::<Slot>::empty());
                lemma_regions_step(j0, j0, rt.journal@, i, Call::Compose, seq![Slot::Center], 0, e.ok);
                if e.ok {
                    assert(seq![Slot::Center].take(1) =~= seq![Slot::Center]);
                    lemma_regions_done(j0, rt.journal@, i, Call::Compose, seq![Slot::Center]);
                }
            }
            if let Err(e) = res {
                return Err(e);
            }
        }
        set_phase(rt, i, Phase::Composed);
        Ok(input)
    }

    fn compose_image_button(
        &self,
        i: usize,
        b: &ImageButton,
        rt: &mut Runtime,
        scope: &mut Vec<ExposedInfo>,
        input: VarType,
    ) -> (r: Result<VarType, GuiError>)
        requires
            self.wf(),
            i < self.nodes@.len(),
            self.nodes@[i as int] == NodeKind::ImageButton(*b),
            old(rt).wf(self),
        ensures
            lifecycle_frame(*old(rt), *final(rt), i as int),
            final(rt).stack@ == old(rt).stack@,
            final(rt).vars == old(rt).vars,
            image_button_composition(*b, i, *old(rt), *final(rt), table_view(old(scope)@), input, r),
        decreases self.nodes@.len() - i, 1int,
    {
        proof {
            assert(node_wf(self.nodes@[i as int], i as int, self.nodes@.len() as int));
            lemma_regions_start(rt.journal@, i, Call::Compose);
        }
        let ghost j0 = rt.journal@;
        let ghost t0 = table_view(scope@);
        proof {
            lemma_frame_refl(*rt);
        }
        if let Err(e) = compose_binding(i, &b.selected, VarType::Bool, rt, scope) {
            return Err(e);
        }
        let strategy = match input {
            VarType::Image => Strategy::Image,
            VarType::Texture => Strategy::Texture,
            _ => Strategy::Unsupported,
        };
        let st = rt.states[i];
        set_state(rt, i, NodeState { phase: Phase::Composed, strategy, ..st });
        let ghost r1 = *rt;
        proof {
            assert(lifecycle_frame(*old(rt), r1, i as int));
        }
        if b.action.len() > 0 {
            assert(b.action@[0] >= i + 1);
            let res = self.compose_wire(i + 1, &b.action, rt, scope, input);
            let ghost r2 = *rt;
            let e = SlotVisit { node: i, call: Call::Compose, slot: Slot::Center, ok: res.is_ok() };
            record(rt, e);
            proof {
                lemma_frame_trans(*old(rt), r1, r2, i as int, i + 1);
                lemma_frame_record(*old(rt), r2, *rt, i as int, e);
                assert(rt.runs@ == r2.runs@);
                assert(rt.runs@.take(r2.runs@.len() as int) =~= r2.runs@);
                if res is Ok {
                    lemma_wire_ran_lift(r2.runs@, rt.runs@, old(rt).runs@.len() as int, r1.runs@.len() as int, b.action@, Call::Compose);
                }
                lemma_record_after(j0, j0, r2.journal@, i, e, Call::Compose);
                assert(seq![Slot::Center].take(0) =~= Seq::<Slot>::empty());
                lemma_regions_step(j0, j0, rt.journal@, i, Call::Compose, seq![Slot::Center], 0, e.ok);
                if e.ok {
                    assert(seq![Slot::Center].take(1) =~= seq![Slot::Center]);
                    lemma_regions_done(j0, rt.journal@, i, Call::Compose, seq![Slot::Center]);
                }
                assert(rt.states@[i as int] == r1.states@[i as int]);
            }
            if let Err(e) = res {
                return Err(e);
            }
        }
        Ok(VarType::Bool)
    }
}

impl Graph {
    /// Releases what node `i` acquired at warmup, nested wires included, and
    /// records the run (successful when the node was warm). A node that is not
    /// warm is otherwise left alone, so cleanup is idempotent and a no-op on a
    /// node whose warmup never completed. Panel slots are cleaned up in the
    /// same order as everywhere else: peripheral, then central.
    pub fn cleanup_node(&self, i: usize, rt: &mut Runtime)
        requires
            self.wf(),
            i < self.nodes@.len(),
            old(rt).wf(self),
        ensures
            lifecycle_frame(*old(rt), *final(rt), i as int),
            final(rt).stack@ == old(rt).stack@,
            old(rt).states@[i as int].phase != Phase::Warm ==> unchanged_but_runs(*old(rt), *final(rt)),
            old(rt).states@[i as int].phase == Phase::Warm ==> final(rt).states@[i as int].phase == Phase::Cool
                && final(rt).states@[i as int].context is None,
            self.nodes@[i as int] matches NodeKind::Panels(p) ==> (old(rt).states@[i as int].phase == Phase::Warm
                ==> visits_of(final(rt).journal@.skip(old(rt).journal@.len() as int), i, Call::Cleanup)
                == slot_order(p)),
            final(rt).runs@.len() > old(rt).runs@.len(),
            final(rt).runs@.last() == (NodeRun { node: i, call: Call::Cleanup, ok: old(rt).states@[i as int].phase == Phase::Warm }),
            self.nodes@[i as int] matches NodeKind::Panels(p) ==> (old(rt).states@[i as int].phase == Phase::Warm
                ==> slots_touched(new_runs(*old(rt), *final(rt)), p, Call::Cleanup)),
            self.nodes@[i as int] matches NodeKind::Indent(x) ==> (old(rt).states@[i as int].phase == Phase::Warm
                ==> wire_touched(new_runs(*old(rt), *final(rt)), x.contents@, Call::Cleanup)),
        decreases self.nodes@.len() - i, 3int,
    {
        let ghost r0 = *rt;
        let warm = rt.states[i].phase == Phase::Warm;
        self.cleanup_kind(i, rt);
        let ghost r1 = *rt;
        record_run(rt, NodeRun { node: i, call: Call::Cleanup, ok: warm });
        proof {
            lemma_frame_run(r0, r1, *rt, i as int);
            lemma_runs_lift(r0, r1, *rt);
        }
    }

    fn cleanup_kind(&self, i: usize, rt: &mut Runtime)
        requires
            self.wf(),
            i < self.nodes@.len(),
            old(rt).wf(self),
        ensures
            lifecycle_frame(*old(rt), *final(rt), i as int),
            final(rt).stack@ == old(rt).stack@,
            old(rt).states@[i as int].phase != Phase::Warm ==> unchanged_but_runs(*old(rt), *final(rt)),
            old(rt).states@[i as int].phase == Phase::Warm ==> final(rt).states@[i as int].phase == Phase::Cool
                && final(rt).states@[i as int].context is None,
            self.nodes@[i as int] matches NodeKind::Panels(p) ==> (old(rt).states@[i as int].phase == Phase::Warm
                ==> visits_of(final(rt).journal@.skip(old(rt).journal@.len() as int), i, Call::Cleanup)
                == slot_order(p)),
            self.nodes@[i as int] matches NodeKind::Panels(p) ==> (old(rt).states@[i as int].phase == Phase::Warm
                ==> slots_touched(new_runs(*old(rt), *final(rt)), p, Call::Cleanup)),
            self.nodes@[i as int] matches NodeKind::Indent(x) ==> (old(rt).states@[i as int].phase == Phase::Warm
                ==> wire_touched(new_runs(*old(rt), *final(rt)), x.contents@, Call::Cleanup)),
        decreases self.nodes@.len() - i, 2int,
    {
        proof {
            assert(node_wf(self.nodes@[i as int], i as int, self.nodes@.len() as int));
        }
        proof {
            lemma_frame_refl(*rt);
        }
        if rt.states[i].phase != Phase::Warm {
            return;
        }
        match &self.nodes[i] {
            NodeKind::Panels(p) => {
                self.cleanup_panels(i, p, rt);
            },
            NodeKind::Indent(x) => {
                if x.contents.len() > 0 {
                    assert(x.contents@[0] >= i + 1);
                    let ghost before = *rt;
                    self.cleanup_wire(i + 1, &x.contents, rt);
                    proof {
                        lemma_frame_refl(before);
                        crate::graph::lemma_frame_trans(before, before, *rt, i as int, i + 1);
                    }
                }
            },
            NodeKind::ImageButton(b) => {
                if b.action.len() > 0 {
                    assert(b.action@[0] >= i + 1);
                    let ghost before = *rt;
                    self.cleanup_wire(i + 1, &b.action, rt);
                    proof {
                        lemma_frame_refl(before);
                        crate::graph::lemma_frame_trans(before, before, *rt, i as int, i + 1);
                    }
                }
            },
            _ => {},
        }
        let st = rt.states[i];
        set_state(rt, i, NodeState { phase: Phase::Cool, context: None, ..st });
    }

    /// Cleans up the nodes of wire `w`, last first.
    pub fn cleanup_wire(&self, lo: usize, w: &Vec<usize>, rt: &mut Runtime)
        requires
            self.wf(),
            crate::graph::wire_within(w@, lo as int, self.nodes@.len() as int),
            old(rt).wf(self),
        ensures
            lifecycle_frame(*old(rt), *final(rt), lo as int),
            final(rt).stack@ == old(rt).stack@,
            wire_touched(new_runs(*old(rt), *final(rt)), w@, Call::Cleanup),
        decreases self.nodes@.len() - lo + 1, 0int,
    {
        let mut k: usize = w.len();
        proof {
            lemma_frame_refl(*rt);
        }
        while k > 0
            invariant
                self.wf(),
                crate::graph::wire_within(w@, lo as int, self.nodes@.len() as int),
                k <= w@.len(),
                rt.wf(self),
                lifecycle_frame(*old(rt), *rt, lo as int),
                rt.stack@ == old(rt).stack@,
                forall|m: int| k <= m < w@.len() ==> new_runs(*old(rt), *rt).contains(NodeRun { node: #[trigger] w@[m], call: Call::Cleanup, ok: true })
                    || new_runs(*old(rt), *rt).contains(NodeRun { node: w@[m], call: Call::Cleanup, ok: false }),
            decreases k,
        {
            k = k - 1;
            let c = w[k];
            let ghost before = *rt;
            self.cleanup_node(c, rt);
            proof {
                lemma_runs_seen(before.runs@, rt.runs@, old(rt).runs@.len() as int, old(rt).runs@.len() as int);
                let seg2 = new_runs(*old(rt), *rt);
                let q = rt.runs@.len() - 1 - old(rt).runs@.len();
                assert(seg2[q] == rt.runs@.last());
                assert(seg2.contains(rt.runs@.last()));
                assert forall|m: int| k <= m < w@.len() implies seg2.contains(NodeRun { node: #[trigger] w@[m], call: Call::Cleanup, ok: true })
                    || seg2.contains(NodeRun { node: w@[m], call: Call::Cleanup, ok: false }) by {
                    if m > k {
                        assert(new_runs(*old(rt), before).contains(NodeRun { node: w@[m], call: Call::Cleanup, ok: true })
                            || new_runs(*old(rt), before).contains(NodeRun { node: w@[m], call: Call::Cleanup, ok: false }));
                    }
                }
                crate::graph::lemma_frame_trans(*old(rt), before, *rt, lo as int, c as int);
            }
        }
    }

    fn cleanup_panels(&self, i: usize, p: &Panels, rt: &mut Runtime)
        requires
            self.wf(),
            i < self.nodes@.len(),
            self.nodes@[i as int] == NodeKind::Panels(*p),
            old(rt).wf(self),
        ensures
            lifecycle_frame(*old(rt), *final(rt), i as int),
            final(rt).stack@ == old(rt).stack@,
            visits_of(final(rt).journal@.skip(old(rt).journal@.len() as int), i, Call::Cleanup) == slot_order(*p),
            slots_touched(new_runs(*old(rt), *final(rt)), *p, Call::Cleanup),
        decreases self.nodes@.len() - i, 1int,
    {
        proof {
            assert(node_wf(self.nodes@[i as int], i as int, self.nodes@.len() as int));
            lemma_regions_start(rt.journal@, i, Call::Cleanup);
        }
        let ghost j0 = rt.journal@;
        proof {
            lemma_frame_refl(*rt);
        }
        let slots = p.slots();
        let mut k: usize = 0;
        while k < slots.len()
            invariant
                self.wf(),
                i < self.nodes@.len(),
                self.nodes@[i as int] == NodeKind::Panels(*p),
                node_wf(NodeKind::Panels(*p), i as int, self.nodes@.len() as int),
                slots@ == slot_order(*p),
                k <= slots@.len(),
                rt.wf(self),
                j0 == old(rt).journal@,
                lifecycle_frame(*old(rt), *rt, i as int),
                rt.stack@ == old(rt).stack@,
                visits_of(rt.journal@.skip(j0.len() as int), i, Call::Cleanup) == slot_order(*p).take(k as int),
                forall|s: Slot| slot_order(*p).take(k as int).contains(s) ==> #[trigger] wire_touched(new_runs(*old(rt), *rt), slot_wire(*p, s), Call::Cleanup),
            decreases slots@.len() - k,
        {
            let slot = slots[k];
            let ghost r1 = *rt;
            let w = p.wire(slot);
            proof {
                crate::nodes::lemma_slot_order(*p);
                assert(slot_order(*p)[k as int] == slot);
                assert(w@[0] >= i + 1);
            }
            self.cleanup_wire(i + 1, w, rt);
            let ghost r2 = *rt;
            let e = SlotVisit { node: i, call: Call::Cleanup, slot, ok: true };
            record(rt, e);
            proof {
                lemma_frame_trans(*old(rt), r1, r2, i as int, i + 1);
                lemma_frame_record(*old(rt), r2, *rt, i as int, e);
                lemma_record_after(j0, r1.journal@, r2.journal@, i, e, Call::Cleanup);
                assert(slot_order(*p).take(k + 1) =~= slot_order(*p).take(k as int).push(slot));
                assert(rt.runs@ == r2.runs@);
                assert(rt.runs@.take(r1.runs@.len() as int) =~= r1.runs@) by {
                    assert(r2.runs@.take(r1.runs@.len() as int) == r1.runs@);
                }
                lemma_slot_touched(*p, *old(rt), r1, *rt, r1.runs@.len() as int, k as int, Call::Cleanup);
            }
            k = k + 1;
        }
        proof {
            crate::nodes::lemma_slot_order(*p);
            assert(slot_order(*p).take(k as int) =~= slot_order(*p));
            assert forall|s: Slot| #[trigger] wire_touched(new_runs(*old(rt), *rt), slot_wire(*p, s), Call::Cleanup) by {
                if !slot_order(*p).contains(s) {
                    assert(slot_wire(*p, s).len() == 0);
                }
            }
        }
    }

    /// Acquires what node `i` needs before its first activation, nested wires
    /// included. On failure, whatever the node had already warmed is cleaned
    /// up before the error is returned.
    pub fn warmup_node(&self, i: usize, rt: &mut Runtime) -> (r: Result<(), GuiError>)
        requires
            self.wf(),
            i < self.nodes@.len(),
            old(rt).wf(self),
        ensures
            lifecycle_frame(*old(rt), *final(rt), i as int),
            final(rt).stack@ == old(rt).stack@,
            r is Ok ==> final(rt).states@[i as int].phase == Phase::Warm,
            self.nodes@[i as int] matches NodeKind::Panels(p) ==> panels_warming(p, i, *old(rt), *final(rt), r),
            warms(*self, i as int, old(rt).vars@) ==> r is Ok && final(rt).vars == old(rt).vars,
            self.nodes@[i as int] matches NodeKind::Indent(x) ==> indent_warming(x, i, *old(rt), *final(rt), r),
            is_leaf(self.nodes@[i as int]) && !(self.nodes@[i as int] is ImageButton) ==> r is Ok,
            self.nodes@[i as int] is Root ==> r is Ok && final(rt).states@[i as int].context is Some && (old(
                rt,
            ).states@[i as int].should_expose ==> var_lookup(final(rt).vars@, root_var()) == Some(
                ValueModel::Context(final(rt).states@[i as int].context->0),
            )),
            self.nodes@[i as int] matches NodeKind::ColorInput(c) ==> (old(rt).states@[i as int].should_expose
                ==> (c.variable@ matches ParamModel::Variable(n) ==> var_lookup(final(rt).vars@, n) matches Some(
                ValueModel::Color(_),
            ))),
            final(rt).runs@.len() > old(rt).runs@.len(),
            final(rt).runs@.last() == (NodeRun { node: i, call: Call::Warmup, ok: r is Ok }),
            self.nodes@[i as int] matches NodeKind::ImageButton(b) ==> ({
                &&& b.action@.len() == 0 ==> r is Ok
                &&& b.action@.len() > 0 && r is Ok ==> wire_ran(new_runs(*old(rt), *final(rt)), b.action@, Call::Warmup)
                &&& r is Ok && old(rt).states@[i as int].should_expose ==> (b.selected@ matches ParamModel::Variable(n)
                    ==> var_lookup(final(rt).vars@, n) matches Some(ValueModel::Bool(_)))
            }),
        decreases self.nodes@.len() - i, 3int,
    {
        let ghost r0 = *rt;
        let r = self.warmup_kind(i, rt);
        let ghost r1 = *rt;
        record_run(rt, NodeRun { node: i, call: Call::Warmup, ok: r.is_ok() });
        proof {
            lemma_frame_run(r0, r1, *rt, i as int);
            lemma_runs_lift(r0, r1, *rt);
        }
        r
    }

    fn warmup_kind(&self, i: usize, rt: &mut Runtime) -> (r: Result<(), GuiError>)
        requires
            self.wf(),
            i < self.nodes@.len(),
            old(rt).wf(self),
        ensures
            lifecycle_frame(*old(rt), *final(rt), i as int),
            final(rt).stack@ == old(rt).stack@,
            r is Ok ==> final(rt).states@[i as int].phase == Phase::Warm,
            self.nodes@[i as int] matches NodeKind::Panels(p) ==> panels_warming(p, i, *old(rt), *final(rt), r),
            warms(*self, i as int, old(rt).vars@) ==> r is Ok && final(rt).vars == old(rt).vars,
            self.nodes@[i as int] matches NodeKind::Indent(x) ==> indent_warming(x, i, *old(rt), *final(rt), r),
            is_leaf(self.nodes@[i as int]) && !(self.nodes@[i as int] is ImageButton) ==> r is Ok,
            self.nodes@[i as int] is Root ==> r is Ok && final(rt).states@[i as int].context is Some && (old(
                rt,
            ).states@[i as int].should_expose ==> var_lookup(final(rt).vars@, root_var()) == Some(
                ValueModel::Context(final(rt).states@[i as int].context->0),
            )),
            self.nodes@[i as int] matches NodeKind::ColorInput(c) ==> (old(rt).states@[i as int].should_expose
                ==> (c.variable@ matches ParamModel::Variable(n) ==> var_lookup(final(rt).vars@, n) matches Some(
                ValueModel::Color(_),
            ))),
            self.nodes@[i as int] matches NodeKind::ImageButton(b) ==> ({
                &&& b.action@.len() == 0 ==> r is Ok
                &&& b.action@.len() > 0 && r is Ok ==> wire_ran(new_runs(*old(rt), *final(rt)), b.action@, Call::Warmup)
                &&& r is Ok && old(rt).states@[i as int].should_expose ==> (b.selected@ matches ParamModel::Variable(n)
                    ==> var_lookup(final(rt).vars@, n) matches Some(ValueModel::Bool(_)))
            }),
        decreases self.nodes@.len() - i, 2int,
    {
        proof {
            assert(node_wf(self.nodes@[i as int], i as int, self.nodes@.len() as int));
        }
        proof {
            lemma_frame_refl(*rt);
        }
        match &self.nodes[i] {
            NodeKind::Root => {
                let h = rt.next_context;
                rt.next_context = rt.next_context.wrapping_add(1);
                if rt.states[i].should_expose {
                    let name = root_name();
                    rt.set_var(name.as_str(), Value::Context(h));
                }
                let st = rt.states[i];
                set_state(rt, i, NodeState { phase: Phase::Warm, context: Some(h), ..st });
                Ok(())
            },
            NodeKind::Panels(p) => self.warmup_panels(i, p, rt),
            NodeKind::Indent(x) => {
                if x.contents.len() > 0 {
                    assert(x.contents@[0] >= i + 1);
                    let ghost j0 = rt.journal@;
                    let ghost r1 = *rt;
                    proof {
                        lemma_regions_start(j0, i, Call::Warmup);
                    }
                    proof {
                        if warms(*self, i as int, old(rt).vars@) {
                            assert forall|m: int| 0 <= m < x.contents@.len() implies warms(*self, #[trigger] x.contents@[m] as int, rt.vars@) by {}
                        }
                    }
                    let res = self.warmup_wire(i + 1, &x.contents, rt);
                    let ghost r2 = *rt;
                    let e = SlotVisit { node: i, call: Call::Warmup, slot: Slot::Center, ok: res.is_ok() };
                    record(rt, e);
                    proof {
                        lemma_frame_refl(r1);
                lemma_frame_trans(r1, r1, r2, i as int, i + 1);
                        lemma_frame_record(*old(rt), r2, *rt, i as int, e);
                        lemma_record_after(j0, j0, r2.journal@, i, e, Call::Warmup);
                        assert(seq![Slot::Center].take(0) =~= Seq::<Slot>::empty());
                        lemma_regions_step(j0, j0, rt.journal@, i, Call::Warmup, seq![Slot::Center], 0, e.ok);
                        if e.ok {
                            assert(seq![Slot::Center].take(1) =~= seq![Slot::Center]);
                            lemma_regions_done(j0, rt.journal@, i, Call::Warmup, seq![Slot::Center]);
                        }
                    }
                    if let Err(e) = res {
                        return Err(e);
                    }
                }
                let ghost r3 = *rt;
                set_phase(rt, i, Phase::Warm);
                assert(rt.journal@ == r3.journal@);
                Ok(())
            },
            NodeKind::ColorInput(c) => {
                if rt.states[i].should_expose {
                    if let Param::Variable(n) = &c.variable {
                        let published = match rt.get_var(n.as_str()) {
                            Some(Value::Color(_)) => true,
                            _ => false,
                        };
                        if !published {
                            rt.set_var(n.as_str(), Value::Color(crate::types::Color { r: 0, g: 0, b: 0, a: 0 }));
                        }
                    }
                }
                set_phase(rt, i, Phase::Warm);
                Ok(())
            },
            NodeKind::ImageButton(b) => {
                if b.action.len() > 0 {
                    assert(b.action@[0] >= i + 1);
                    let ghost before = *rt;
                    let res = self.warmup_wire(i + 1, &b.action, rt);
                    proof {
                        lemma_frame_refl(before);
                        crate::graph::lemma_frame_trans(before, before, *rt, i as int, i + 1);
                    }
                    if let Err(e) = res {
                        return Err(e);
                    }
                }
                if rt.states[i].should_expose {
                    if let Param::Variable(n) = &b.selected {
                        let published = match rt.get_var(n.as_str()) {
                            Some(Value::Bool(_)) => true,
                            _ => false,
                        };
                        if !published {
                            rt.set_var(n.as_str(), Value::Bool(false));
                        }
                    }
                }
                set_phase(rt, i, Phase::Warm);
                Ok(())
            },
            _ => {
                set_phase(rt, i, Phase::Warm);
                Ok(())
            },
        }
    }

    /// Warms the nodes of wire `w` in order; when one fails, the nodes warmed
    /// before it are cleaned up, last first, and its error is returned.
    pub fn warmup_wire(&self, lo: usize, w: &Vec<usize>, rt: &mut Runtime) -> (r: Result<(), GuiError>)
        requires
            self.wf(),
            crate::graph::wire_within(w@, lo as int, self.nodes@.len() as int),
            old(rt).wf(self),
        ensures
            lifecycle_frame(*old(rt), *final(rt), lo as int),
            final(rt).stack@ == old(rt).stack@,
            (forall|k: int| 0 <= k < w@.len() ==> warms(*self, #[trigger] w@[k] as int, old(rt).vars@)) ==> r is Ok
                && final(rt).vars == old(rt).vars,
            r is Ok ==> wire_ran(new_runs(*old(rt), *final(rt)), w@, Call::Warmup),
            r is Err ==> wire_failed(new_runs(*old(rt), *final(rt)), w@, Call::Warmup),
        decreases self.nodes@.len() - lo + 1, 0int,
    {
        let mut k: usize = 0;
        proof {
            lemma_frame_refl(*rt);
        }
        while k < w.len()
            invariant
                self.wf(),
                crate::graph::wire_within(w@, lo as int, self.nodes@.len() as int),
                k <= w@.len(),
                rt.wf(self),
                lifecycle_frame(*old(rt), *rt, lo as int),
                rt.stack@ == old(rt).stack@,
                (forall|m: int| 0 <= m < w@.len() ==> warms(*self, #[trigger] w@[m] as int, old(rt).vars@)) ==> rt.vars
                    == old(rt).vars,
                wire_ran(new_runs(*old(rt), *rt), w@.take(k as int), Call::Warmup),
            decreases w@.len() - k,
        {
            let c = w[k];
            let ghost before = *rt;
            proof {
                if forall|m: int| 0 <= m < w@.len() ==> warms(*self, #[trigger] w@[m] as int, old(rt).vars@) {
                    assert(warms(*self, w@[k as int] as int, old(rt).vars@));
                }
            }
            let res = self.warmup_node(c, rt);
            proof {
                lemma_runs_step(*old(rt), before, *rt, w@, k as int, c, Call::Warmup, res is Ok);
                crate::graph::lemma_frame_trans(*old(rt), before, *rt, lo as int, c as int);
            }
            if let Err(e) = res {
                let mut m: usize = k;
                while m > 0
                    invariant
                        self.wf(),
                        crate::graph::wire_within(w@, lo as int, self.nodes@.len() as int),
                        m <= k < w@.len(),
                        rt.wf(self),
                        lifecycle_frame(*old(rt), *rt, lo as int),
                        rt.stack@ == old(rt).stack@,
                        wire_failed(new_runs(*old(rt), *rt), w@, Call::Warmup),
                    decreases m,
                {
                    m = m - 1;
                    let ghost before2 = *rt;
                    self.cleanup_node(w[m], rt);
                    proof {
                        lemma_runs_seen(before2.runs@, rt.runs@, old(rt).runs@.len() as int, old(rt).runs@.len() as int);
                        crate::graph::lemma_frame_trans(*old(rt), before2, *rt, lo as int, w@[m as int] as int);
                    }
                }
                return Err(e);
            }
            k = k + 1;
        }
        assert(w@.take(k as int) =~= w@);
        Ok(())
    }

    fn warmup_panels(&self, i: usize, p: &Panels, rt: &mut Runtime) -> (r: Result<(), GuiError>)
        requires
            self.wf(),
            i < self.nodes@.len(),
            self.nodes@[i as int] == NodeKind::Panels(*p),
            old(rt).wf(self),
        ensures
            lifecycle_frame(*old(rt), *final(rt), i as int),
            final(rt).stack@ == old(rt).stack@,
            panels_warming(*p, i, *old(rt), *final(rt), r),
            warms(*self, i as int, old(rt).vars@) ==> r is Ok && final(rt).vars == old(rt).vars,
        decreases self.nodes@.len() - i, 1int,
    {
        proof {
            assert(node_wf(self.nodes@[i as int], i as int, self.nodes@.len() as int));
            lemma_regions_start(rt.journal@, i, Call::Warmup);
            lemma_regions_start(rt.journal@, i, Call::Cleanup);
        }
        let ghost j0 = rt.journal@;
        proof {
            lemma_frame_refl(*rt);
        }
        let h = match rt.resolve(&p.context) {
            Value::Context(h) => h,
            _ => {
                return Err(GuiError::SetupFailure);
            },
        };
        let slots = p.slots();
        let mut k: usize = 0;
        while k < slots.len()
            invariant
                self.wf(),
                i < self.nodes@.len(),
                self.nodes@[i as int] == NodeKind::Panels(*p),
                node_wf(NodeKind::Panels(*p), i as int, self.nodes@.len() as int),
                slots@ == slot_order(*p),
                k <= slots@.len(),
                rt.wf(self),
                j0 == old(rt).journal@,
                param_value(old(rt).vars@, p.context@) == ValueModel::Context(h),
                lifecycle_frame(*old(rt), *rt, i as int),
                rt.stack@ == old(rt).stack@,
                rt.states@[i as int] == old(rt).states@[i as int],
                visits_of(rt.journal@.skip(j0.len() as int), i, Call::Warmup) == slot_order(*p).take(k as int),
                forall|s: Slot| slot_order(*p).take(k as int).contains(s) ==> #[trigger] wire_ran(new_runs(*old(rt), *rt), slot_wire(*p, s), Call::Warmup),
                outcomes_of(rt.journal@.skip(j0.len() as int), i, Call::Warmup).len() == k,
                forall|m: int| 0 <= m < k ==> #[trigger] outcomes_of(rt.journal@.skip(j0.len() as int), i, Call::Warmup)[m],
                visits_of(rt.journal@.skip(j0.len() as int), i, Call::Cleanup) == Seq::<Slot>::empty(),
                warms(*self, i as int, old(rt).vars@) ==> rt.vars == old(rt).vars,
            decreases slots@.len() - k,
        {
            proof {
                crate::nodes::lemma_slot_order(*p);
            }
            let slot = slots[k];
            let ghost r1 = *rt;
            let w = p.wire(slot);
            proof {
                assert(slot_order(*p)[k as int] == slot);
                assert(w@[0] >= i + 1);
            }
            proof {
                if warms(*self, i as int, old(rt).vars@) {
                    assert forall|m: int| 0 <= m < w@.len() implies warms(*self, #[trigger] w@[m] as int, rt.vars@) by {
                        assert(crate::nodes::slot_wire(*p, slot)[m] == w@[m]);
                    }
                }
            }
            let res = self.warmup_wire(i + 1, w, rt);
            let ghost r2 = *rt;
            let e = SlotVisit { node: i, call: Call::Warmup, slot, ok: res.is_ok() };
            record(rt, e);
            proof {
                lemma_frame_trans(*old(rt), r1, r2, i as int, i + 1);
                lemma_record_after(j0, r1.journal@, r2.journal@, i, e, Call::Warmup);
                lemma_frame_record(*old(rt), r2, *rt, i as int, e);
                lemma_record_after(j0, r1.journal@, r2.journal@, i, e, Call::Cleanup);
                lemma_regions_step(j0, r1.journal@, rt.journal@, i, Call::Warmup, slot_order(*p), k as int, e.ok);
                assert(rt.runs@ == r2.runs@);
                assert(rt.runs@.take(r1.runs@.len() as int) =~= r1.runs@) by {
                    assert(r2.runs@.take(r1.runs@.len() as int) == r1.runs@);
                }
                if e.ok {
                    lemma_slot_ran(*p, *old(rt), r1, *rt, r1.runs@.len() as int, k as int, Call::Warmup);
                }
            }
            if let Err(err) = res {
                // roll back the slots warmed so far, in processing order
                let ghost jw = rt.journal@;
                let mut m: usize = 0;
                while m < k
                    invariant
                        self.wf(),
                        i < self.nodes@.len(),
                        node_wf(NodeKind::Panels(*p), i as int, self.nodes@.len() as int),
                        slots@ == slot_order(*p),
                        m <= k < slots@.len(),
                        rt.wf(self),
                        j0 == old(rt).journal@,
                        lifecycle_frame(*old(rt), *rt, i as int),
                        rt.stack@ == old(rt).stack@,
                        rt.states@[i as int] == old(rt).states@[i as int],
                        visits_of(rt.journal@.skip(j0.len() as int), i, Call::Warmup) == visits_of(jw.skip(j0.len() as int), i, Call::Warmup),
                        outcomes_of(rt.journal@.skip(j0.len() as int), i, Call::Warmup) == outcomes_of(jw.skip(j0.len() as int), i, Call::Warmup),
                        visits_of(rt.journal@.skip(j0.len() as int), i, Call::Cleanup) == slot_order(*p).take(m as int),
                    decreases k - m,
                {
                    let s2 = slots[m];
                    let ghost r3 = *rt;
                    let w2 = p.wire(s2);
                    proof {
                        crate::nodes::lemma_slot_order(*p);
                        assert(slot_order(*p)[m as int] == s2);
                        assert(w2@[0] >= i + 1);
                    }
                    self.cleanup_wire(i + 1, w2, rt);
                    let ghost r4 = *rt;
                    let e2 = SlotVisit { node: i, call: Call::Cleanup, slot: s2, ok: true };
                    record(rt, e2);
                    proof {
                        lemma_frame_trans(*old(rt), r3, r4, i as int, i + 1);
                        lemma_frame_record(*old(rt), r4, *rt, i as int, e2);
                        lemma_record_after(j0, r3.journal@, r4.journal@, i, e2, Call::Cleanup);
                        lemma_record_after(j0, r3.journal@, r4.journal@, i, e2, Call::Warmup);
                        assert(slot_order(*p).take(m + 1) =~= slot_order(*p).take(m as int).push(s2));
                    }
                    m = m + 1;
                }
                proof {
                    assert(slot_order(*p).take(k + 1).drop_last() =~= slot_order(*p).take(k as int));
                }
                return Err(err);
            }
            k = k + 1;
        }
        proof {
            assert(slot_order(*p).take(k as int) =~= slot_order(*p));
            lemma_regions_done(j0, rt.journal@, i, Call::Warmup, slot_order(*p));
            lemma_slots_all_ran(*p, new_runs(*old(rt), *rt), Call::Warmup);
        }
        let st = rt.states[i];
        set_state(rt, i, NodeState { phase: Phase::Warm, context: Some(h), ..st });
        Ok(())
    }
}

/// The variables that node kind `k` requires from its enclosing scope.
pub open spec fn required_of(k: NodeKind) -> Seq<ExposedModel> {
    match k {
        NodeKind::Root => Seq::empty(),
        NodeKind::Panels(_) => seq![ExposedModel { name: root_var(), exposed_type: VarType::Context }],
        _ => seq![ExposedModel { name: parents_var(), exposed_type: VarType::UiParents }],
    }
}

/// The variable that node kind `k`, in state `st`, publishes itself.
pub open spec fn own_exposure(k: NodeKind, st: NodeState) -> Seq<ExposedModel> {
    match k {
        NodeKind::Root => if st.should_expose {
            seq![ExposedModel { name: root_var(), exposed_type: VarType::Context }]
        } else {
            Seq::empty()
        },
        NodeKind::ColorInput(c) => match c.variable@ {
            ParamModel::Variable(n) => if st.should_expose {
                seq![ExposedModel { name: n, exposed_type: VarType::Color }]
            } else {
                Seq::empty()
            },
            _ => Seq::empty(),
        },
        NodeKind::ImageButton(b) => match b.selected@ {
            ParamModel::Variable(n) => if st.should_expose {
                seq![ExposedModel { name: n, exposed_type: VarType::Bool }]
            } else {
                Seq::empty()
            },
            _ => Seq::empty(),
        },
        _ => Seq::empty(),
    }
}

/// The variables that node `i` exposes to its enclosing scope: its own, and
/// for an indentation block, those of its contents in order.
pub open spec fn exposed_by(g: Graph, states: Seq<NodeState>, i: int) -> Seq<ExposedModel>
    decreases g.nodes@.len() - i, 1int, 0int,
{
    if 0 <= i < g.nodes@.len() && i < states.len() {
        match g.nodes@[i] {
            NodeKind::Indent(x) => exposed_by_wire(g, states, i + 1, x.contents@),
            k => own_exposure(k, states[i]),
        }
    } else {
        Seq::empty()
    }
}

/// The variables that the nodes of wire `w` expose, in order.
pub open spec fn exposed_by_wire(g: Graph, states: Seq<NodeState>, lo: int, w: Seq<usize>) -> Seq<ExposedModel>
    decreases g.nodes@.len() - lo + 1, 0int, w.len(),
{
    if w.len() == 0 {
        Seq::empty()
    } else if lo <= w.last() && w.last() < g.nodes@.len() {
        exposed_by_wire(g, states, lo, w.drop_last()) + exposed_by(g, states, w.last() as int)
    } else {
        exposed_by_wire(g, states, lo, w.drop_last())
    }
}

fn append_table(dst: &mut Vec<ExposedInfo>, src: Vec<ExposedInfo>)
    ensures
        table_view(final(dst)@) == table_view(old(dst)@) + table_view(src@),
{
    let mut s = src;
    let ghost sv = table_view(s@);
    dst.append(&mut s);
    assert(table_view(dst@) =~= table_view(old(dst)@) + sv);
}

impl Graph {
    /// The variables that node `i` requires from its enclosing scope.
    pub fn required_variables(&self, i: usize) -> (r: Vec<ExposedInfo>)
        requires
            i < self.nodes@.len(),
        ensures
            table_view(r@) == required_of(self.nodes@[i as int]),
    {
        let mut r: Vec<ExposedInfo> = Vec::new();
        match &self.nodes[i] {
            NodeKind::Root => {},
            NodeKind::Panels(_) => {
                r.push(ExposedInfo { name: root_name(), exposed_type: VarType::Context });
            },
            _ => {
                r.push(crate::binding::require_parents());
            },
        }
        assert(table_view(r@) =~= required_of(self.nodes@[i as int]));
        r
    }

    /// The variables that node `i` exposes to its enclosing scope: see
    /// [`exposed_by`].
    pub fn exposed_variables(&self, i: usize, rt: &Runtime) -> (r: Vec<ExposedInfo>)
        requires
            self.wf(),
            i < self.nodes@.len(),
            rt.wf(self),
        ensures
            table_view(r@) == exposed_by(*self, rt.states@, i as int),
        decreases self.nodes@.len() - i, 1int, 0int,
    {
        proof {
            assert(node_wf(self.nodes@[i as int], i as int, self.nodes@.len() as int));
        }
        let st = rt.states[i];
        let mut r: Vec<ExposedInfo> = Vec::new();
        match &self.nodes[i] {
            NodeKind::Indent(x) => {
                if x.contents.len() > 0 {
                    assert(x.contents@[0] >= i + 1);
                    r = self.exposed_by_wire(i + 1, &x.contents, x.contents.len(), rt);
                    assert(x.contents@.take(x.contents@.len() as int) =~= x.contents@);
                } else {
                    assert(table_view(r@) =~= exposed_by(*self, rt.states@, i as int));
                }
            },
            NodeKind::Root => {
                if st.should_expose {
                    r.push(ExposedInfo { name: root_name(), exposed_type: VarType::Context });
                }
                assert(table_view(r@) =~= exposed_by(*self, rt.states@, i as int));
            },
            NodeKind::ColorInput(c) => {
                if let Param::Variable(n) = &c.variable {
                    if st.should_expose {
                        r.push(ExposedInfo { name: n.clone(), exposed_type: VarType::Color });
                    }
                }
                assert(table_view(r@) =~= exposed_by(*self, rt.states@, i as int));
            },
            NodeKind::ImageButton(b) => {
                if let Param::Variable(n) = &b.selected {
                    if st.should_expose {
                        r.push(ExposedInfo { name: n.clone(), exposed_type: VarType::Bool });
                    }
                }
                assert(table_view(r@) =~= exposed_by(*self, rt.states@, i as int));
            },
            _ => {
                assert(table_view(r@) =~= exposed_by(*self, rt.states@, i as int));
            },
        }
        r
    }

    fn exposed_by_wire(&self, lo: usize, w: &Vec<usize>, k: usize, rt: &Runtime) -> (r: Vec<ExposedInfo>)
        requires
            self.wf(),
            crate::graph::wire_within(w@, lo as int, self.nodes@.len() as int),
            k <= w@.len(),
            rt.wf(self),
        ensures
            table_view(r@) == exposed_by_wire(*self, rt.states@, lo as int, w@.take(k as int)),
        decreases self.nodes@.len() - lo + 1, 0int, k,
    {
        if k == 0 {
            let r: Vec<ExposedInfo> = Vec::new();
            assert(table_view(r@) =~= exposed_by_wire(*self, rt.states@, lo as int, w@.take(0)));
            return r;
        }
        let mut r = self.exposed_by_wire(lo, w, k - 1, rt);
        let last = self.exposed_variables(w[k - 1], rt);
        assert(w@.take(k as int).drop_last() =~= w@.take(k - 1));
        assert(w@.take(k as int).last() == w@[k - 1]);
        append_table(&mut r, last);
        r
    }
}

/// The compose-time binding of a drawing leaf: requires an enclosing surface,
/// then, when `var` names a variable, decides whether the leaf exposes it
/// (adding it to `scope` if so) and records that decision in the node's state.
fn compose_binding(i: usize, var: &Param, ty: VarType, rt: &mut Runtime, scope: &mut Vec<ExposedInfo>) -> (r:
    Result<(), GuiError>)
    requires
        i < old(rt).states@.len(),
        old(rt).cache.wf(),
    ensures
        r == binding_outcome(table_view(old(scope)@), var@, ty),
        r is Err ==> final(rt).states == old(rt).states,
        table_view(final(scope)@) == binding_table(table_view(old(scope)@), var@, ty),
        final(rt).states@.len() == old(rt).states@.len(),
        forall|r0: Runtime| lifecycle_frame(r0, *old(rt), i as int) ==> #[trigger] lifecycle_frame(r0, *final(rt), i as int),
        final(rt).vars == old(rt).vars,
        final(rt).stack == old(rt).stack,
        final(rt).journal == old(rt).journal,
        final(rt).cache == old(rt).cache,
        var@ matches ParamModel::Variable(n) ==> (r is Ok ==> final(rt).states@[i as int].should_expose
            == (exposure_decision(table_view(old(scope)@), n, ty) == Ok::<bool, GuiError>(true))),
{
    let pn = parents_name();
    if let Err(e) = check_required(scope, pn.as_str(), VarType::UiParents) {
        return Err(e);
    }
    match var {
        Param::Variable(n) => match declare_exposure(scope, n.as_str(), ty) {
            Ok(expose) => {
                let st = rt.states[i];
                set_state(rt, i, NodeState { should_expose: expose, ..st });
                Ok(())
            },
            Err(e) => Err(e),
        },
        Param::Literal(_) => Ok(()),
    }
}

} // verus!

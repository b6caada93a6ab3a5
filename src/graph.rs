use vstd::prelude::*;
use crate::cache::{highlight_log_memo, log_memo_step, FrameCache};
use crate::console::{apply_style, log_sections, style_config_view, styled_theme, LogTheme};
use crate::ids::EguiId;
use crate::layout::LayoutJob;
use crate::nodes::{
    slot_number, slot_order, slot_wire, ColorInput, Console, ImageButton, Indent, NodeKind, Panels,
    ProgressBar, Slot,
};
use crate::parent_stack::ParentStack;
use crate::types::{Color, GuiError, ImageRef, Param, ParamModel, TextureRef, Value, ValueModel};

verus! {

/// The four lifecycle calls.
#[derive(Clone, Copy, Debug, PartialEq, Eq, Structural)]
pub enum Call {
    Compose,
    Warmup,
    Activate,
    Cleanup,
}

/// A journal record, made when container `node` has run the wire of `slot`
/// during `call`: `ok` tells whether that wire succeeded. An indentation
/// block and an image button, whose single nested wire is their central
/// region, record it as `Slot::Center`.
#[derive(Clone, Copy, Debug, PartialEq, Eq, Structural)]
pub struct SlotVisit {
    pub node: usize,
    pub call: Call,
    pub slot: Slot,
    pub ok: bool,
}

/// A run record, made by a node itself when one of its lifecycle calls ends:
/// `ok` tells whether it succeeded.
#[derive(Clone, Copy, Debug, PartialEq, Eq, Structural)]
pub struct NodeRun {
    pub node: usize,
    pub call: Call,
    pub ok: bool,
}

/// Where a node is in its life.
#[derive(Clone, Copy, Debug, PartialEq, Eq, Structural)]
pub enum Phase {
    Declared,
    Composed,
    Warm,
    Cool,
}

/// How an image button reads its input, chosen at compose time from the
/// input type.
#[derive(Clone, Copy, Debug, PartialEq, Eq, Structural)]
pub enum Strategy {
    Unsupported,
    Image,
    Texture,
}

/// The runtime state of one node instance.
#[derive(Clone, Copy, Debug, PartialEq, Eq, Structural)]
pub struct NodeState {
    pub phase: Phase,
    /// Whether the node publishes its bound variable itself.
    pub should_expose: bool,
    pub strategy: Strategy,
    /// The color of a color input that is bound to no variable.
    pub tmp_color: Color,
    /// The rendering context that the node created or acquired.
    pub context: Option<u64>,
    /// The image buffer whose texture an image button last loaded.
    pub prev_image: Option<u64>,
}

impl NodeState {
    pub open spec fn initial() -> NodeState {
        NodeState {
            phase: Phase::Declared,
            should_expose: false,
            strategy: Strategy::Unsupported,
            tmp_color: Color { r: 0, g: 0, b: 0, a: 0 },
            context: None,
            prev_image: None,
        }
    }

    pub fn new() -> (s: NodeState)
        ensures
            s == NodeState::initial(),
    {
        NodeState {
            phase: Phase::Declared,
            should_expose: false,
            strategy: Strategy::Unsupported,
            tmp_color: Color { r: 0, g: 0, b: 0, a: 0 },
            context: None,
            prev_image: None,
        }
    }
}

/// A shared variable and its current value.
pub struct Variable {
    pub name: String,
    pub value: Value,
}

/// What the user did in the previous frame, as reported by the renderer.
pub struct FrameInput {
    pub clicked: Vec<EguiId>,
    pub color_edits: Vec<(EguiId, Color)>,
}

/// What an image button shows.
#[derive(Clone, Copy, Debug, PartialEq, Eq, Structural)]
pub enum ButtonImage {
    Image(ImageRef),
    Texture(TextureRef),
}

/// One drawing instruction of a frame. Surfaces are numbered per frame; an
/// `Open` is always matched by a later `Close` of the same surface, and the
/// pairs nest.
pub enum DrawOp {
    OpenPanel { id: EguiId, slot: Slot, context: u64, surface: u64 },
    OpenIndent { id: EguiId, parent: u64, surface: u64 },
    Close { surface: u64 },
    Console { id: EguiId, surface: u64, text: String, job: LayoutJob },
    ColorEdit { id: EguiId, surface: u64, color: Color },
    ProgressBar { surface: u64, progress: u64, overlay: Option<String>, width: Option<u64> },
    LoadTexture { id: EguiId, image: ImageRef },
    ImageButton {
        id: EguiId,
        surface: u64,
        image: ButtonImage,
        scale: (u64, u64),
        selected: Option<bool>,
    },
}

/// The node instances of one GUI graph, by index. The wires of a node hold
/// indices greater than its own.
pub struct Graph {
    pub nodes: Vec<NodeKind>,
}

/// Every index of `w` lies in `lo..hi`.
pub open spec fn wire_within(w: Seq<usize>, lo: int, hi: int) -> bool {
    forall|j: int| 0 <= j < w.len() ==> lo <= #[trigger] w[j] < hi
}

/// The wires of node `k`, at index `i` of a graph of `n` nodes, point past it.
pub open spec fn node_wf(k: NodeKind, i: int, n: int) -> bool {
    match k {
        NodeKind::Panels(p) => {
            &&& wire_within(p.top@, i + 1, n)
            &&& wire_within(p.left@, i + 1, n)
            &&& wire_within(p.right@, i + 1, n)
            &&& wire_within(p.bottom@, i + 1, n)
            &&& wire_within(p.center@, i + 1, n)
        },
        NodeKind::Indent(x) => wire_within(x.contents@, i + 1, n),
        NodeKind::ImageButton(b) => wire_within(b.action@, i + 1, n),
        _ => true,
    }
}

impl Graph {
    pub open spec fn wf(&self) -> bool {
        forall|i: int| 0 <= i < self.nodes@.len() ==> node_wf(#[trigger] self.nodes@[i], i, self.nodes@.len() as int)
    }
}

/// Whether `k` draws onto the innermost surface without containing others.
pub open spec fn is_leaf(k: NodeKind) -> bool {
    k is Console || k is ColorInput || k is ProgressBar || k is ImageButton
}

/// Whether `k` hands its input through unchanged.
pub open spec fn passes_through(k: NodeKind) -> bool {
    k is Panels || k is Indent || k is Console || k is ProgressBar
}

/// The slots that `node` recorded for `call` in journal `j`, in order.
pub open spec fn visits_of(j: Seq<SlotVisit>, node: usize, call: Call) -> Seq<Slot>
    decreases j.len(),
{
    if j.len() == 0 {
        Seq::empty()
    } else {
        let r = visits_of(j.drop_last(), node, call);
        if j.last().node == node && j.last().call == call {
            r.push(j.last().slot)
        } else {
            r
        }
    }
}

pub proof fn lemma_visits_concat(a: Seq<SlotVisit>, b: Seq<SlotVisit>, node: usize, call: Call)
    ensures
        visits_of(a + b, node, call) == visits_of(a, node, call) + visits_of(b, node, call),
    decreases b.len(),
{
    if b.len() == 0 {
        assert(a + b =~= a);
    } else {
        lemma_visits_concat(a, b.drop_last(), node, call);
        assert((a + b).drop_last() =~= a + b.drop_last());
    }
}

pub proof fn lemma_visits_above(b: Seq<SlotVisit>, node: usize, call: Call)
    requires
        forall|k: int| 0 <= k < b.len() ==> (#[trigger] b[k]).node > node,
    ensures
        visits_of(b, node, call) == Seq::<Slot>::empty(),
    decreases b.len(),
{
    if b.len() > 0 {
        lemma_visits_above(b.drop_last(), node, call);
    }
}

/// Whether each wire that `node` ran for `call` in journal `j` succeeded, in order.
pub open spec fn outcomes_of(j: Seq<SlotVisit>, node: usize, call: Call) -> Seq<bool>
    decreases j.len(),
{
    if j.len() == 0 {
        Seq::empty()
    } else {
        let r = outcomes_of(j.drop_last(), node, call);
        if j.last().node == node && j.last().call == call {
            r.push(j.last().ok)
        } else {
            r
        }
    }
}

pub proof fn lemma_outcomes_concat(a: Seq<SlotVisit>, b: Seq<SlotVisit>, node: usize, call: Call)
    ensures
        outcomes_of(a + b, node, call) == outcomes_of(a, node, call) + outcomes_of(b, node, call),
    decreases b.len(),
{
    if b.len() == 0 {
        assert(a + b =~= a);
    } else {
        lemma_outcomes_concat(a, b.drop_last(), node, call);
        assert((a + b).drop_last() =~= a + b.drop_last());
    }
}

pub proof fn lemma_outcomes_above(b: Seq<SlotVisit>, node: usize, call: Call)
    requires
        forall|k: int| 0 <= k < b.len() ==> (#[trigger] b[k]).node > node,
    ensures
        outcomes_of(b, node, call) == Seq::<bool>::empty(),
    decreases b.len(),
{
    if b.len() > 0 {
        lemma_outcomes_above(b.drop_last(), node, call);
    }
}

/// How container `i` ran its wires for `call`, from journal `j0` to `j1`,
/// against the regions `order` it has to run: in order, each at most once,
/// stopping at the first failure. It succeeds (`ok`) exactly when every
/// region ran and succeeded; when it fails, the last region it ran failed.
pub open spec fn regions_run(j0: Seq<SlotVisit>, j1: Seq<SlotVisit>, i: usize, call: Call, order: Seq<Slot>, ok: bool) -> bool {
    let v = visits_of(j1.skip(j0.len() as int), i, call);
    let o = outcomes_of(j1.skip(j0.len() as int), i, call);
    &&& v.is_prefix_of(order)
    &&& o.len() == v.len()
    &&& forall|k: int| 0 <= k < o.len() - 1 ==> #[trigger] o[k]
    &&& ok ==> v == order && (o.len() > 0 ==> o.last())
    &&& !ok ==> o.len() > 0 && !o.last()
}

/// The first value bound to `name` in a variable table.
pub open spec fn var_lookup(vs: Seq<Variable>, name: Seq<char>) -> Option<ValueModel>
    decreases vs.len(),
{
    if vs.len() == 0 {
        None
    } else {
        match var_lookup(vs.drop_last(), name) {
            Some(v) => Some(v),
            None => if vs.last().name@ == name {
                Some(vs.last().value@)
            } else {
                None
            },
        }
    }
}

/// The value a parameter stands for: its literal, or the variable's current
/// value (nil when the variable is not set).
pub open spec fn param_value(vs: Seq<Variable>, p: ParamModel) -> ValueModel {
    match p {
        ParamModel::Literal(v) => v,
        ParamModel::Variable(n) => match var_lookup(vs, n) {
            Some(v) => v,
            None => ValueModel::Nil,
        },
    }
}

/// The engine state of one GUI graph: per-node state, shared variables, the
/// stack of active surfaces, the drawing instructions of the current frame,
/// the journal of slot visits, the run records of nodes, and the per-frame
/// layout cache.
pub struct Runtime {
    pub states: Vec<NodeState>,
    pub vars: Vec<Variable>,
    pub stack: ParentStack,
    pub ops: Vec<DrawOp>,
    pub journal: Vec<SlotVisit>,
    pub runs: Vec<NodeRun>,
    pub cache: FrameCache,
    pub input: FrameInput,
    pub next_surface: u64,
    pub next_context: u64,
}

/// The color a color input holds before this frame's edit: its variable's
/// color, or its internal color when it is bound to no variable; `None` when
/// the variable does not hold a color.
pub open spec fn color_before(rt: Runtime, c: ColorInput, i: int) -> Option<Color> {
    match c.variable@ {
        ParamModel::Variable(_) => match param_value(rt.vars@, c.variable@) {
            ValueModel::Color(col) => Some(col),
            _ => None,
        },
        ParamModel::Literal(_) => Some(rt.states@[i].tmp_color),
    }
}

/// Whether the user picked a color in widget `id` in the previous frame.
pub open spec fn has_edit(rt: Runtime, id: EguiId) -> bool {
    exists|j: int| 0 <= j < rt.input.color_edits@.len() && (#[trigger] rt.input.color_edits@[j]).0 == id
}

/// What a color input returns on success: the color picked in the previous
/// frame, or else the color it held.
pub open spec fn color_result(r0: Runtime, c: ColorInput, i: int, v: ValueModel) -> bool {
    let id = EguiId { node: i as u64, idx: 0 };
    &&& v matches ValueModel::Color(col) && (if has_edit(r0, id) {
        r0.input.color_edits@.contains((id, col))
    } else {
        color_before(r0, c, i) == Some(col)
    })
}

/// Whether a progress bar's overlay and width parameters hold usable values.
pub open spec fn progress_params_ok(rt: Runtime, b: ProgressBar) -> bool {
    &&& (param_value(rt.vars@, b.overlay@) is Nil || param_value(rt.vars@, b.overlay@) is Str)
    &&& (param_value(rt.vars@, b.desired_width@) is Nil || param_value(rt.vars@, b.desired_width@) is Float)
}

/// What every lifecycle call preserves or only extends, for a subtree whose
/// nodes have indices `lo` and above.
pub open spec fn lifecycle_frame(r0: Runtime, r1: Runtime, lo: int) -> bool {
    &&& r1.states@.len() == r0.states@.len()
    &&& r1.cache.wf()
    &&& r0.journal@.len() <= r1.journal@.len()
    &&& r1.journal@.take(r0.journal@.len() as int) == r0.journal@
    &&& forall|k: int|
        r0.journal@.len() <= k < r1.journal@.len() ==> (#[trigger] r1.journal@[k]).node >= lo
    &&& r0.ops@.len() <= r1.ops@.len()
    &&& r1.ops@.take(r0.ops@.len() as int) == r0.ops@
    &&& forall|j: int| 0 <= j < lo && j < r0.states@.len() ==> #[trigger] r1.states@[j] == r0.states@[j]
    &&& r0.runs@.len() <= r1.runs@.len()
    &&& r1.runs@.take(r0.runs@.len() as int) == r0.runs@
}

/// The run records made from `r0` to `r1`.
pub open spec fn new_runs(r0: Runtime, r1: Runtime) -> Seq<NodeRun> {
    r1.runs@.skip(r0.runs@.len() as int)
}

/// Every node of wire `w` ran `call` successfully, according to `seg`.
pub open spec fn wire_ran(seg: Seq<NodeRun>, w: Seq<usize>, call: Call) -> bool {
    forall|k: int| 0 <= k < w.len() ==> seg.contains(NodeRun { node: #[trigger] w[k], call, ok: true })
}

/// Some node of wire `w` ran `call` and failed, according to `seg`.
pub open spec fn wire_failed(seg: Seq<NodeRun>, w: Seq<usize>, call: Call) -> bool {
    exists|k: int| 0 <= k < w.len() && seg.contains(NodeRun { node: #[trigger] w[k], call, ok: false })
}

/// Every node of wire `w` ran `call`, whatever the outcome, according to `seg`.
pub open spec fn wire_touched(seg: Seq<NodeRun>, w: Seq<usize>, call: Call) -> bool {
    forall|k: int| 0 <= k < w.len() ==> seg.contains(NodeRun { node: #[trigger] w[k], call, ok: true })
        || seg.contains(NodeRun { node: w[k], call, ok: false })
}

/// Every node in every slot of panel container `p` ran `call` successfully.
pub open spec fn slots_ran(seg: Seq<NodeRun>, p: Panels, call: Call) -> bool {
    forall|s: Slot| #[trigger] wire_ran(seg, slot_wire(p, s), call)
}

/// Nothing but the run records differs between `r0` and `r1`.
pub open spec fn unchanged_but_runs(r0: Runtime, r1: Runtime) -> bool {
    &&& r1.states == r0.states
    &&& r1.vars == r0.vars
    &&& r1.stack == r0.stack
    &&& r1.ops == r0.ops
    &&& r1.journal == r0.journal
    &&& r1.cache == r0.cache
    &&& r1.input == r0.input
    &&& r1.next_surface == r0.next_surface
    &&& r1.next_context == r0.next_context
}

/// A record seen in a later part of a growing record list stays seen from an
/// earlier starting point.
pub proof fn lemma_runs_seen(a: Seq<NodeRun>, b: Seq<NodeRun>, base0: int, base1: int)
    requires
        0 <= base0 <= base1 <= a.len() <= b.len(),
        b.take(a.len() as int) == a,
    ensures
        forall|x: NodeRun| a.skip(base1).contains(x) ==> #[trigger] b.skip(base0).contains(x),
{
    assert forall|x: NodeRun| a.skip(base1).contains(x) implies #[trigger] b.skip(base0).contains(x) by {
        let q = choose|q: int| 0 <= q < a.skip(base1).len() && a.skip(base1)[q] == x;
        assert(b[base1 + q] == b.take(a.len() as int)[base1 + q]);
        assert(b.skip(base0)[base1 - base0 + q] == x);
    }
}

/// After node `c`, the `k`-th of wire `w`, ran from `r1` to `r2`, the records
/// since `r0` show the wire's first `k` nodes and then `c`.
pub proof fn lemma_runs_step(r0: Runtime, r1: Runtime, r2: Runtime, w: Seq<usize>, k: int, c: usize, call: Call, ok: bool)
    requires
        0 <= k < w.len(),
        w[k] == c,
        r0.runs@.len() <= r1.runs@.len(),
        r1.runs@.take(r0.runs@.len() as int) == r0.runs@,
        r1.runs@.len() < r2.runs@.len(),
        r2.runs@.take(r1.runs@.len() as int) == r1.runs@,
        r2.runs@.last() == (NodeRun { node: c, call, ok }),
        wire_ran(new_runs(r0, r1), w.take(k), call),
    ensures
        ok ==> wire_ran(new_runs(r0, r2), w.take(k + 1), call),
        !ok ==> wire_failed(new_runs(r0, r2), w, call),
{
    lemma_runs_seen(r1.runs@, r2.runs@, r0.runs@.len() as int, r0.runs@.len() as int);
    let seg = new_runs(r0, r2);
    let q = r2.runs@.len() - 1 - r0.runs@.len();
    assert(seg[q] == NodeRun { node: c, call, ok });
    assert(seg.contains(NodeRun { node: c, call, ok }));
    if ok {
        assert forall|m: int| 0 <= m < w.take(k + 1).len() implies seg.contains(NodeRun { node: #[trigger] w.take(k + 1)[m], call, ok: true }) by {
            if m < k {
                assert(w.take(k + 1)[m] == w.take(k)[m]);
                assert(new_runs(r0, r1).contains(NodeRun { node: w.take(k)[m], call, ok: true }));
            }
        }
    } else {
        assert(w[k] == c);
    }
}

/// A wire seen to run in a later part of a growing record list stays seen
/// from an earlier starting point.
pub proof fn lemma_wire_ran_lift(a: Seq<NodeRun>, b: Seq<NodeRun>, base0: int, base1: int, w: Seq<usize>, call: Call)
    requires
        0 <= base0 <= base1 <= a.len() <= b.len(),
        b.take(a.len() as int) == a,
        wire_ran(a.skip(base1), w, call),
    ensures
        wire_ran(b.skip(base0), w, call),
{
    lemma_runs_seen(a, b, base0, base1);
    assert forall|k: int| 0 <= k < w.len() implies b.skip(base0).contains(NodeRun { node: #[trigger] w[k], call, ok: true }) by {
        assert(a.skip(base1).contains(NodeRun { node: w[k], call, ok: true }));
    }
}

/// What the records since `r0` show of wires, as of `r1`, they still show
/// as of a later `r2`.
pub proof fn lemma_runs_lift(r0: Runtime, r1: Runtime, r2: Runtime)
    requires
        r0.runs@.len() <= r1.runs@.len() <= r2.runs@.len(),
        r1.runs@.take(r0.runs@.len() as int) == r0.runs@,
        r2.runs@.take(r1.runs@.len() as int) == r1.runs@,
    ensures
        forall|w: Seq<usize>, call: Call| wire_ran(new_runs(r0, r1), w, call) ==> #[trigger] wire_ran(new_runs(r0, r2), w, call),
        forall|w: Seq<usize>, call: Call| wire_touched(new_runs(r0, r1), w, call) ==> #[trigger] wire_touched(new_runs(r0, r2), w, call),
        forall|p: Panels, call: Call| slots_ran(new_runs(r0, r1), p, call) ==> #[trigger] slots_ran(new_runs(r0, r2), p, call),
        forall|p: Panels, call: Call| slots_touched(new_runs(r0, r1), p, call) ==> #[trigger] slots_touched(new_runs(r0, r2), p, call),
{
    lemma_runs_seen(r1.runs@, r2.runs@, r0.runs@.len() as int, r0.runs@.len() as int);
    assert forall|w: Seq<usize>, call: Call| wire_ran(new_runs(r0, r1), w, call) implies #[trigger] wire_ran(new_runs(r0, r2), w, call) by {
        assert forall|k: int| 0 <= k < w.len() implies new_runs(r0, r2).contains(NodeRun { node: #[trigger] w[k], call, ok: true }) by {
            assert(new_runs(r0, r1).contains(NodeRun { node: w[k], call, ok: true }));
        }
    }
    assert forall|w: Seq<usize>, call: Call| wire_touched(new_runs(r0, r1), w, call) implies #[trigger] wire_touched(new_runs(r0, r2), w, call) by {
        assert forall|k: int| 0 <= k < w.len() implies new_runs(r0, r2).contains(NodeRun { node: #[trigger] w[k], call, ok: true })
            || new_runs(r0, r2).contains(NodeRun { node: w[k], call, ok: false }) by {
            assert(new_runs(r0, r1).contains(NodeRun { node: w[k], call, ok: true }) || new_runs(r0, r1).contains(NodeRun { node: w[k], call, ok: false }));
        }
    }
    assert forall|p: Panels, call: Call| slots_ran(new_runs(r0, r1), p, call) implies #[trigger] slots_ran(new_runs(r0, r2), p, call) by {
        assert forall|s: Slot| #[trigger] wire_ran(new_runs(r0, r2), slot_wire(p, s), call) by {
            assert(wire_ran(new_runs(r0, r1), slot_wire(p, s), call));
        }
    }
    assert forall|p: Panels, call: Call| slots_touched(new_runs(r0, r1), p, call) implies #[trigger] slots_touched(new_runs(r0, r2), p, call) by {
        assert forall|s: Slot| #[trigger] wire_touched(new_runs(r0, r2), slot_wire(p, s), call) by {
            assert(wire_touched(new_runs(r0, r1), slot_wire(p, s), call));
        }
    }
}

/// One more slot of a panel container ran successfully.
pub proof fn lemma_slot_ran(p: Panels, r0: Runtime, r1: Runtime, r3: Runtime, base_mid: int, k: int, call: Call)
    requires
        0 <= k < slot_order(p).len(),
        r0.runs@.len() <= r1.runs@.len() <= base_mid <= r3.runs@.len(),
        r1.runs@.take(r0.runs@.len() as int) == r0.runs@,
        r3.runs@.take(r1.runs@.len() as int) == r1.runs@,
        forall|s: Slot| slot_order(p).take(k).contains(s) ==> #[trigger] wire_ran(new_runs(r0, r1), slot_wire(p, s), call),
        wire_ran(r3.runs@.skip(base_mid), slot_wire(p, slot_order(p)[k]), call),
    ensures
        forall|s: Slot| slot_order(p).take(k + 1).contains(s) ==> #[trigger] wire_ran(new_runs(r0, r3), slot_wire(p, s), call),
{
    assert(r3.runs@.take(r3.runs@.len() as int) =~= r3.runs@);
    lemma_wire_ran_lift(r3.runs@, r3.runs@, r0.runs@.len() as int, base_mid, slot_wire(p, slot_order(p)[k]), call);
    lemma_runs_lift(r0, r1, r3);
    assert forall|s: Slot| slot_order(p).take(k + 1).contains(s) implies #[trigger] wire_ran(new_runs(r0, r3), slot_wire(p, s), call) by {
        let q = choose|q: int| 0 <= q < k + 1 && #[trigger] slot_order(p).take(k + 1)[q] == s;
        if q < k {
            assert(slot_order(p).take(k)[q] == s);
            assert(wire_ran(new_runs(r0, r1), slot_wire(p, s), call));
        }
    }
}

/// Every configured slot ran successfully, so every slot did.
pub proof fn lemma_slots_all_ran(p: Panels, seg: Seq<NodeRun>, call: Call)
    requires
        forall|s: Slot| slot_order(p).take(slot_order(p).len() as int).contains(s) ==> #[trigger] wire_ran(seg, slot_wire(p, s), call),
    ensures
        slots_ran(seg, p, call),
{
    crate::nodes::lemma_slot_order(p);
    assert(slot_order(p).take(slot_order(p).len() as int) =~= slot_order(p));
    assert forall|s: Slot| #[trigger] wire_ran(seg, slot_wire(p, s), call) by {
        if !slot_order(p).contains(s) {
            assert(slot_wire(p, s).len() == 0);
        }
    }
}

/// Every node in every slot of `p` ran `call`, whatever the outcome.
pub open spec fn slots_touched(seg: Seq<NodeRun>, p: Panels, call: Call) -> bool {
    forall|s: Slot| #[trigger] wire_touched(seg, slot_wire(p, s), call)
}

/// One more slot of a panel container ran `call`, whatever the outcome.
pub proof fn lemma_slot_touched(p: Panels, r0: Runtime, r1: Runtime, r3: Runtime, base_mid: int, k: int, call: Call)
    requires
        0 <= k < slot_order(p).len(),
        r0.runs@.len() <= r1.runs@.len() <= base_mid <= r3.runs@.len(),
        r1.runs@.take(r0.runs@.len() as int) == r0.runs@,
        r3.runs@.take(r1.runs@.len() as int) == r1.runs@,
        forall|s: Slot| slot_order(p).take(k).contains(s) ==> #[trigger] wire_touched(new_runs(r0, r1), slot_wire(p, s), call),
        wire_touched(r3.runs@.skip(base_mid), slot_wire(p, slot_order(p)[k]), call),
    ensures
        forall|s: Slot| slot_order(p).take(k + 1).contains(s) ==> #[trigger] wire_touched(new_runs(r0, r3), slot_wire(p, s), call),
{
    lemma_runs_seen(r3.runs@, r3.runs@, r0.runs@.len() as int, base_mid);
    assert(r3.runs@.take(r3.runs@.len() as int) =~= r3.runs@);
    let w = slot_wire(p, slot_order(p)[k]);
    assert forall|m: int| 0 <= m < w.len() implies new_runs(r0, r3).contains(NodeRun { node: #[trigger] w[m], call, ok: true })
        || new_runs(r0, r3).contains(NodeRun { node: w[m], call, ok: false }) by {
        assert(r3.runs@.skip(base_mid).contains(NodeRun { node: w[m], call, ok: true }) || r3.runs@.skip(base_mid).contains(NodeRun { node: w[m], call, ok: false }));
    }
    lemma_runs_lift(r0, r1, r3);
    assert forall|s: Slot| slot_order(p).take(k + 1).contains(s) implies #[trigger] wire_touched(new_runs(r0, r3), slot_wire(p, s), call) by {
        let q = choose|q: int| 0 <= q < k + 1 && #[trigger] slot_order(p).take(k + 1)[q] == s;
        if q < k {
            assert(slot_order(p).take(k)[q] == s);
            assert(wire_touched(new_runs(r0, r1), slot_wire(p, s), call));
        }
    }
}

/// Appends a run record.
pub(crate) fn record_run(rt: &mut Runtime, e: NodeRun)
    ensures
        final(rt).runs@ == old(rt).runs@.push(e),
        final(rt).runs@.take(old(rt).runs@.len() as int) == old(rt).runs@,
        unchanged_but_runs(*old(rt), *final(rt)),
{
    rt.runs.push(e);
    assert(rt.runs@.take(old(rt).runs@.len() as int) =~= old(rt).runs@);
}

/// The frame of a call is kept by appending a run record.
pub proof fn lemma_frame_run(r0: Runtime, r1: Runtime, r2: Runtime, lo: int)
    requires
        lifecycle_frame(r0, r1, lo),
        unchanged_but_runs(r1, r2),
        r1.runs@.len() <= r2.runs@.len(),
        r2.runs@.take(r1.runs@.len() as int) == r1.runs@,
    ensures
        lifecycle_frame(r0, r2, lo),
{
    assert(r2.runs@.take(r0.runs@.len() as int) =~= r1.runs@.take(r0.runs@.len() as int));
}

/// The frame of a call on a runtime with itself.
pub proof fn lemma_frame_refl(r: Runtime)
    requires
        r.cache.wf(),
    ensures
        forall|lo2: int| #[trigger] lifecycle_frame(r, r, lo2),
        r.journal@.take(r.journal@.len() as int) == r.journal@,
        r.ops@.take(r.ops@.len() as int) == r.ops@,
        r.runs@.take(r.runs@.len() as int) == r.runs@,
{
    assert(r.journal@.take(r.journal@.len() as int) =~= r.journal@);
    assert(r.ops@.take(r.ops@.len() as int) =~= r.ops@);
    assert(r.runs@.take(r.runs@.len() as int) =~= r.runs@);
}

/// A change of node `lo`'s own state keeps the frame of a call on `lo`.
pub proof fn lemma_frame_own_state(r0: Runtime, r1: Runtime, r2: Runtime, lo: int)
    requires
        lifecycle_frame(r0, r1, lo),
        r2.journal == r1.journal,
        r2.ops == r1.ops,
        r2.cache == r1.cache,
        r2.states@.len() == r1.states@.len(),
        forall|j: int| 0 <= j < r1.states@.len() && j != lo ==> r2.states@[j] == r1.states@[j],
        r2.runs == r1.runs,
    ensures
        lifecycle_frame(r0, r2, lo),
{
    assert forall|j: int| 0 <= j < lo && j < r0.states@.len() implies #[trigger] r2.states@[j] == r0.states@[j] by {
        assert(r1.states@[j] == r0.states@[j]);
    }
}

/// Recording a visit of a node at or past `lo` keeps the frame of a call on `lo`.
pub proof fn lemma_frame_record(r0: Runtime, r1: Runtime, r2: Runtime, lo: int, e: SlotVisit)
    requires
        lifecycle_frame(r0, r1, lo),
        r2.journal@ == r1.journal@.push(e),
        e.node >= lo,
        r2.ops == r1.ops,
        r2.cache == r1.cache,
        r2.states == r1.states,
        r2.runs == r1.runs,
    ensures
        lifecycle_frame(r0, r2, lo),
{
    assert(r2.journal@.take(r0.journal@.len() as int) =~= r1.journal@.take(r0.journal@.len() as int));
    assert forall|k: int| r0.journal@.len() <= k < r2.journal@.len() implies (#[trigger] r2.journal@[k]).node >= lo by {
        if k < r1.journal@.len() {
            assert(r2.journal@[k] == r1.journal@[k]);
        }
    }
}

/// Appending a drawing instruction keeps the frame of a call.
pub proof fn lemma_frame_op(r0: Runtime, r1: Runtime, r2: Runtime, lo: int, op: DrawOp)
    requires
        lifecycle_frame(r0, r1, lo),
        r2.ops@ == r1.ops@.push(op),
        r2.journal == r1.journal,
        r2.cache == r1.cache,
        r2.states == r1.states,
        r2.runs == r1.runs,
    ensures
        lifecycle_frame(r0, r2, lo),
{
    assert(r2.ops@.take(r0.ops@.len() as int) =~= r1.ops@.take(r0.ops@.len() as int));
}

/// Appends one drawing instruction.
fn push_op(rt: &mut Runtime, op: DrawOp)
    ensures
        final(rt).ops@ == old(rt).ops@.push(op),
        final(rt).ops@.take(old(rt).ops@.len() as int) == old(rt).ops@,
        final(rt).states == old(rt).states,
        final(rt).vars == old(rt).vars,
        final(rt).stack == old(rt).stack,
        final(rt).journal == old(rt).journal,
        final(rt).cache == old(rt).cache,
        final(rt).input == old(rt).input,
        final(rt).runs == old(rt).runs,
{
    rt.ops.push(op);
    assert(rt.ops@.take(old(rt).ops@.len() as int) =~= old(rt).ops@);
}

/// Appends one journal record.
pub(crate) fn record(rt: &mut Runtime, e: SlotVisit)
    ensures
        final(rt).journal@ == old(rt).journal@.push(e),
        final(rt).ops == old(rt).ops,
        final(rt).states == old(rt).states,
        final(rt).vars == old(rt).vars,
        final(rt).stack == old(rt).stack,
        final(rt).cache == old(rt).cache,
        final(rt).input == old(rt).input,
        final(rt).runs == old(rt).runs,
{
    rt.journal.push(e);
}

impl Runtime {
    /// A runtime for `n` nodes, all declared, with an empty stack.
    pub fn new(n: usize) -> (rt: Runtime)
        ensures
            rt.states@.len() == n,
            forall|i: int| 0 <= i < n ==> rt.states@[i] == NodeState::initial(),
            rt.cache.wf(),
            rt.stack@.len() == 0,
            rt.vars@.len() == 0,
            rt.journal@.len() == 0,
    {
        let mut states: Vec<NodeState> = Vec::new();
        let mut i: usize = 0;
        while i < n
            invariant
                i <= n,
                states@.len() == i,
                forall|j: int| 0 <= j < i ==> states@[j] == NodeState::initial(),
            decreases n - i,
        {
            states.push(NodeState::new());
            i = i + 1;
        }
        Runtime {
            states,
            vars: Vec::new(),
            stack: ParentStack::new(),
            ops: Vec::new(),
            journal: Vec::new(),
            runs: Vec::new(),
            cache: FrameCache::new(),
            input: FrameInput { clicked: Vec::new(), color_edits: Vec::new() },
            next_surface: 0,
            next_context: 0,
        }
    }

    pub open spec fn wf(&self, g: &Graph) -> bool {
        &&& self.states@.len() == g.nodes@.len()
        &&& self.cache.wf()
    }

    /// Starts a frame: takes the user input of the previous frame, drops the
    /// previous frame's drawing instructions and makes the cache stale.
    pub fn begin_frame(&mut self, input: FrameInput)
        requires
            old(self).cache.wf(),
        ensures
            final(self).cache.wf(),
            final(self).states == old(self).states,
            final(self).stack@ == old(self).stack@,
            final(self).ops@.len() == 0,
            forall|k| final(self).cache.fresh(k) is None,
    {
        self.input = input;
        self.ops = Vec::new();
        self.next_surface = 0;
        self.cache.begin_frame();
    }

    pub(crate) fn new_surface(&mut self) -> (s: u64)
        ensures
            final(self).states == old(self).states,
            final(self).vars == old(self).vars,
            final(self).stack == old(self).stack,
            final(self).ops == old(self).ops,
            final(self).journal == old(self).journal,
            final(self).cache == old(self).cache,
            final(self).runs == old(self).runs,
    {
        let s = self.next_surface;
        self.next_surface = self.next_surface.wrapping_add(1);
        s
    }

    /// The index of the first variable named `name`.
    pub fn find_var(&self, name: &str) -> (r: Option<usize>)
        ensures
            r matches Some(i) ==> i < self.vars@.len() && var_lookup(self.vars@, name@) == Some(
                self.vars@[i as int].value@,
            ) && self.vars@[i as int].name@ == name@ && var_lookup(self.vars@.take(i as int), name@) is None,
            r is None ==> var_lookup(self.vars@, name@) is None,
    {
        let key = name.to_owned();
        let mut i: usize = 0;
        while i < self.vars.len()
            invariant
                i <= self.vars@.len(),
                key@ == name@,
                var_lookup(self.vars@.take(i as int), name@) is None,
            decreases self.vars@.len() - i,
        {
            assert(self.vars@.take(i + 1).drop_last() =~= self.vars@.take(i as int));
            if self.vars[i].name == key {
                proof {
                    lemma_var_lookup_prefix(self.vars@, i as int + 1, name@);
                }
                return Some(i);
            }
            i = i + 1;
        }
        assert(self.vars@.take(i as int) =~= self.vars@);
        None
    }

    /// The current value of variable `name`.
    pub fn get_var(&self, name: &str) -> (r: Option<Value>)
        ensures
            r matches Some(v) ==> var_lookup(self.vars@, name@) == Some(v@),
            r is None ==> var_lookup(self.vars@, name@) is None,
    {
        match self.find_var(name) {
            Some(i) => Some(self.vars[i].value.duplicate()),
            None => None,
        }
    }

    /// Binds `name` to `value`, leaving every other variable as it was.
    pub fn set_var(&mut self, name: &str, value: Value)
        ensures
            var_lookup(final(self).vars@, name@) == Some(value@),
            forall|n: Seq<char>| n != name@ ==> var_lookup(final(self).vars@, n) == var_lookup(old(self).vars@, n),
            final(self).states == old(self).states,
            final(self).stack == old(self).stack,
            final(self).ops == old(self).ops,
            final(self).journal == old(self).journal,
            final(self).cache == old(self).cache,
            final(self).runs == old(self).runs,
    {
        match self.find_var(name) {
            Some(i) => {
                let ghost before = self.vars@;
                let v = Variable { name: self.vars[i].name.clone(), value };
                self.vars.set(i, v);
                proof {
                    lemma_var_lookup_update(before, i as int, self.vars@[i as int], name@);
                }
            },
            None => {
                let ghost before = self.vars@;
                self.vars.push(Variable { name: name.to_owned(), value });
                proof {
                    assert(self.vars@.drop_last() =~= before);
                    assert forall|n: Seq<char>| n != name@ implies var_lookup(self.vars@, n)
                        == var_lookup(before, n) by {}
                }
            },
        }
    }

    /// The value that parameter `p` stands for: see [`param_value`].
    pub fn resolve(&self, p: &Param) -> (v: Value)
        ensures
            v@ == param_value(self.vars@, p@),
    {
        match p {
            Param::Literal(v) => v.duplicate(),
            Param::Variable(n) => match self.get_var(n.as_str()) {
                Some(v) => v,
                None => Value::Nil,
            },
        }
    }

    /// Whether the user clicked the widget `id` in the previous frame.
    pub fn was_clicked(&self, id: EguiId) -> (r: bool)
        ensures
            r == self.input.clicked@.contains(id),
    {
        let mut i: usize = 0;
        while i < self.input.clicked.len()
            invariant
                i <= self.input.clicked@.len(),
                forall|j: int| 0 <= j < i ==> self.input.clicked@[j] != id,
            decreases self.input.clicked@.len() - i,
        {
            if self.input.clicked[i] == id {
                return true;
            }
            i = i + 1;
        }
        false
    }

    /// The color the user picked in widget `id` in the previous frame.
    pub fn color_edit(&self, id: EguiId) -> (r: Option<Color>)
        ensures
            r matches Some(c) ==> self.input.color_edits@.contains((id, c)),
            r is None ==> forall|j: int|
                0 <= j < self.input.color_edits@.len() ==> (#[trigger] self.input.color_edits@[j]).0 != id,
    {
        let mut i: usize = 0;
        while i < self.input.color_edits.len()
            invariant
                i <= self.input.color_edits@.len(),
                forall|j: int|
                    0 <= j < i ==> (#[trigger] self.input.color_edits@[j]).0 != id,
            decreases self.input.color_edits@.len() - i,
        {
            let (eid, c) = self.input.color_edits[i];
            if eid == id {
                assert(self.input.color_edits@[i as int] == (id, c));
                return Some(c);
            }
            i = i + 1;
        }
        None
    }
}

proof fn lemma_var_lookup_prefix(vs: Seq<Variable>, k: int, name: Seq<char>)
    requires
        0 < k <= vs.len(),
        var_lookup(vs.take(k - 1), name) is None,
        vs[k - 1].name@ == name,
    ensures
        var_lookup(vs, name) == Some(vs[k - 1].value@),
    decreases vs.len(),
{
    assert(vs.take(k).drop_last() =~= vs.take(k - 1));
    if k < vs.len() {
        assert(vs.drop_last().take(k - 1) =~= vs.take(k - 1));
        lemma_var_lookup_prefix(vs.drop_last(), k, name);
    } else {
        assert(vs.drop_last() =~= vs.take(k - 1));
    }
}

proof fn lemma_var_lookup_update(vs: Seq<Variable>, i: int, v: Variable, name: Seq<char>)
    requires
        0 <= i < vs.len(),
        vs[i].name@ == name,
        v.name@ == name,
        var_lookup(vs.take(i), name) is None,
    ensures
        var_lookup(vs.update(i, v), name) == Some(v.value@),
        forall|n: Seq<char>| n != name ==> var_lookup(vs.update(i, v), n) == var_lookup(vs, n),
    decreases vs.len(),
{
    let u = vs.update(i, v);
    if i == vs.len() - 1 {
        assert(u.drop_last() =~= vs.take(i));
        assert(vs.drop_last() =~= vs.take(i));
        assert(u.last() == v);
        assert forall|n: Seq<char>| n != name implies var_lookup(u, n) == var_lookup(vs, n) by {
            assert(u.drop_last() == vs.drop_last());
        }
    } else {
        assert(u.drop_last() =~= vs.drop_last().update(i, v));
        assert(vs.drop_last().take(i) =~= vs.take(i));
        lemma_var_lookup_update(vs.drop_last(), i, v, name);
        assert(u.last() == vs.last());
        assert forall|n: Seq<char>| n != name implies var_lookup(u, n) == var_lookup(vs, n) by {
            assert(var_lookup(u.drop_last(), n) == var_lookup(vs.drop_last(), n));
        }
    }
}

pub proof fn lemma_frame_trans(r0: Runtime, r1: Runtime, r2: Runtime, lo: int, lo2: int)
    requires
        lifecycle_frame(r0, r1, lo),
        lifecycle_frame(r1, r2, lo2),
        lo <= lo2,
    ensures
        lifecycle_frame(r0, r2, lo),
{
    assert(r2.journal@.take(r0.journal@.len() as int) =~= r1.journal@.take(r0.journal@.len() as int));
    assert(r2.ops@.take(r0.ops@.len() as int) =~= r1.ops@.take(r0.ops@.len() as int));
    assert(r2.runs@.take(r0.runs@.len() as int) =~= r1.runs@.take(r0.runs@.len() as int));
    assert forall|k: int| r0.journal@.len() <= k < r2.journal@.len() implies (#[trigger] r2.journal@[k]).node
        >= lo by {
        if k < r1.journal@.len() {
            assert(r2.journal@[k] == r2.journal@.take(r1.journal@.len() as int)[k]);
            assert(r1.journal@[k].node >= lo);
        }
    }
}

fn wire_in_range(w: &Vec<usize>, lo: usize, hi: usize) -> (r: bool)
    ensures
        r == wire_within(w@, lo as int, hi as int),
{
    let mut k: usize = 0;
    while k < w.len()
        invariant
            k <= w@.len(),
            forall|j: int| 0 <= j < k ==> lo <= #[trigger] w@[j] < hi,
        decreases w@.len() - k,
    {
        if w[k] < lo || w[k] >= hi {
            return false;
        }
        k = k + 1;
    }
    true
}

impl Graph {
    /// Whether every wire of every node points only at nodes of higher index
    /// inside the graph.
    pub fn is_well_formed(&self) -> (r: bool)
        ensures
            r == self.wf(),
    {
        let n = self.nodes.len();
        let mut i: usize = 0;
        while i < n
            invariant
                i <= n,
                n == self.nodes@.len(),
                forall|j: int| 0 <= j < i ==> node_wf(#[trigger] self.nodes@[j], j, n as int),
            decreases n - i,
        {
            let ok = match &self.nodes[i] {
                NodeKind::Panels(p) => {
                    wire_in_range(&p.top, i + 1, n) && wire_in_range(&p.left, i + 1, n) && wire_in_range(
                        &p.right,
                        i + 1,
                        n,
                    ) && wire_in_range(&p.bottom, i + 1, n) && wire_in_range(&p.center, i + 1, n)
                },
                NodeKind::Indent(x) => wire_in_range(&x.contents, i + 1, n),
                NodeKind::ImageButton(b) => wire_in_range(&b.action, i + 1, n),
                _ => true,
            };
            if !ok {
                return false;
            }
            i = i + 1;
        }
        true
    }
}

impl Runtime {
    /// Whether this runtime holds one state per node of `g` and a sound cache.
    pub fn fits(&self, g: &Graph) -> (r: bool)
        ensures
            r == self.wf(g),
    {
        self.states.len() == g.nodes.len() && self.cache.is_sound()
    }
}

/// The journal facts after container `i`, whose journal was `j1`, ran nested
/// nodes of higher index (journal `j2`) and then recorded `e`.
pub proof fn lemma_record_after(
    j0: Seq<SlotVisit>,
    j1: Seq<SlotVisit>,
    j2: Seq<SlotVisit>,
    i: usize,
    e: SlotVisit,
    call: Call,
)
    requires
        j0.len() <= j1.len(),
        j1.take(j0.len() as int) == j0,
        forall|k: int| j0.len() <= k < j1.len() ==> (#[trigger] j1[k]).node >= i,
        j1.len() <= j2.len(),
        j2.take(j1.len() as int) == j1,
        forall|k: int| j1.len() <= k < j2.len() ==> (#[trigger] j2[k]).node > i,
        e.node == i,
    ensures
        ({
            let j3 = j2.push(e);
            &&& j3.take(j0.len() as int) == j0
            &&& forall|k: int| j0.len() <= k < j3.len() ==> (#[trigger] j3[k]).node >= i
            &&& e.call == call ==> visits_of(j3.skip(j0.len() as int), i, call) == visits_of(
                j1.skip(j0.len() as int),
                i,
                call,
            ).push(e.slot) && outcomes_of(j3.skip(j0.len() as int), i, call) == outcomes_of(
                j1.skip(j0.len() as int),
                i,
                call,
            ).push(e.ok)
            &&& e.call != call ==> visits_of(j3.skip(j0.len() as int), i, call) == visits_of(
                j1.skip(j0.len() as int),
                i,
                call,
            ) && outcomes_of(j3.skip(j0.len() as int), i, call) == outcomes_of(
                j1.skip(j0.len() as int),
                i,
                call,
            )
        }),
{
    let j3 = j2.push(e);
    let a = j1.skip(j0.len() as int);
    let b = j2.skip(j1.len() as int);
    assert(j3.skip(j0.len() as int) =~= (a + b) + seq![e]);
    assert forall|k: int| 0 <= k < b.len() implies (#[trigger] b[k]).node > i by {
        assert(b[k] == j2[j1.len() + k]);
    }
    lemma_visits_concat(a + b, seq![e], i, call);
    lemma_visits_concat(a, b, i, call);
    lemma_visits_above(b, i, call);
    lemma_outcomes_concat(a + b, seq![e], i, call);
    lemma_outcomes_concat(a, b, i, call);
    lemma_outcomes_above(b, i, call);
    assert(seq![e].drop_last() =~= Seq::<SlotVisit>::empty());
    assert(seq![e].last() == e);
    assert(visits_of(Seq::<SlotVisit>::empty(), i, call) =~= Seq::<Slot>::empty());
    assert(outcomes_of(Seq::<SlotVisit>::empty(), i, call) =~= Seq::<bool>::empty());
    assert(visits_of(a, i, call) + Seq::<Slot>::empty() =~= visits_of(a, i, call));
    assert(outcomes_of(a, i, call) + Seq::<bool>::empty() =~= outcomes_of(a, i, call));
    if e.call == call {
        assert(visits_of(seq![e], i, call) =~= seq![e.slot]);
        assert(outcomes_of(seq![e], i, call) =~= seq![e.ok]);
    } else {
        assert(visits_of(seq![e], i, call) =~= Seq::<Slot>::empty());
        assert(outcomes_of(seq![e], i, call) =~= Seq::<bool>::empty());
        assert(visits_of(a, i, call) + Seq::<Slot>::empty() =~= visits_of(a, i, call));
    }
    assert(j3.take(j0.len() as int) =~= j0) by {
        assert(j2.take(j1.len() as int).take(j0.len() as int) =~= j2.take(j0.len() as int));
    }
    assert forall|q: int| j0.len() <= q < j3.len() implies (#[trigger] j3[q]).node >= i by {
        if q < j1.len() {
            assert(j3[q] == j2.take(j1.len() as int)[q]);
        } else if q < j2.len() {
            assert(j3[q] == j2[q]);
        }
    }
}

/// Recording the result of one region keeps `regions_run` for the regions
/// run so far, and the run is complete when the last region is reached.
pub proof fn lemma_regions_step(
    j0: Seq<SlotVisit>,
    j1: Seq<SlotVisit>,
    j3: Seq<SlotVisit>,
    i: usize,
    call: Call,
    order: Seq<Slot>,
    k: int,
    ok: bool,
)
    requires
        0 <= k < order.len(),
        visits_of(j1.skip(j0.len() as int), i, call) == order.take(k),
        outcomes_of(j1.skip(j0.len() as int), i, call).len() == k,
        forall|m: int| 0 <= m < k ==> #[trigger] outcomes_of(j1.skip(j0.len() as int), i, call)[m],
        visits_of(j3.skip(j0.len() as int), i, call) == order.take(k).push(order[k]),
        outcomes_of(j3.skip(j0.len() as int), i, call) == outcomes_of(j1.skip(j0.len() as int), i, call).push(ok),
    ensures
        visits_of(j3.skip(j0.len() as int), i, call) == order.take(k + 1),
        !ok ==> regions_run(j0, j3, i, call, order, false),
        ok ==> forall|m: int| 0 <= m < k + 1 ==> #[trigger] outcomes_of(j3.skip(j0.len() as int), i, call)[m],
{
    assert(order.take(k + 1) =~= order.take(k).push(order[k]));
    let o = outcomes_of(j3.skip(j0.len() as int), i, call);
    assert forall|m: int| 0 <= m < o.len() - 1 implies #[trigger] o[m] by {
        assert(o[m] == outcomes_of(j1.skip(j0.len() as int), i, call)[m]);
    }
    if ok {
        assert forall|m: int| 0 <= m < k + 1 implies #[trigger] o[m] by {
            if m < k {
                assert(o[m] == outcomes_of(j1.skip(j0.len() as int), i, call)[m]);
            }
        }
    }
    assert(order.take(k + 1).is_prefix_of(order));
}

/// A run of all regions in which each succeeded.
pub proof fn lemma_regions_done(
    j0: Seq<SlotVisit>,
    j1: Seq<SlotVisit>,
    i: usize,
    call: Call,
    order: Seq<Slot>,
)
    requires
        visits_of(j1.skip(j0.len() as int), i, call) == order,
        outcomes_of(j1.skip(j0.len() as int), i, call).len() == order.len(),
        forall|m: int| 0 <= m < order.len() ==> #[trigger] outcomes_of(j1.skip(j0.len() as int), i, call)[m],
    ensures
        regions_run(j0, j1, i, call, order, true),
{
    assert(order.is_prefix_of(order)) by {
        assert(order.take(order.len() as int) =~= order);
    }
}

/// Before any region has run.
pub proof fn lemma_regions_start(j0: Seq<SlotVisit>, i: usize, call: Call)
    ensures
        j0.skip(j0.len() as int) == Seq::<SlotVisit>::empty(),
        visits_of(j0.skip(j0.len() as int), i, call) == Seq::<Slot>::empty(),
        outcomes_of(j0.skip(j0.len() as int), i, call) == Seq::<bool>::empty(),
        j0.take(j0.len() as int) == j0,
{
    assert(j0.skip(j0.len() as int) =~= Seq::<SlotVisit>::empty());
    assert(j0.take(j0.len() as int) =~= j0);
}

/// Whether activating node `i` surely succeeds, given the nodes' states
/// `st`, the input, and whether a surface encloses it: a console needs a
/// surface and a string; an indentation block needs its contents to succeed
/// on a child surface; a panel container needs its context and every slot's
/// nodes to succeed. All of these hand their input through.
pub open spec fn activates(g: Graph, i: int, st: Seq<NodeState>, input: ValueModel, surface: bool) -> bool
    decreases g.nodes@.len() - i,
{
    if 0 <= i < g.nodes@.len() && i < st.len() {
        match g.nodes@[i] {
            NodeKind::Console(_) => surface && input is Str,
            NodeKind::Indent(x) => x.contents@.len() == 0 || (surface && forall|k: int|
                0 <= k < x.contents@.len() ==> i < #[trigger] x.contents@[k] < g.nodes@.len() && activates(
                    g,
                    x.contents@[k] as int,
                    st,
                    input,
                    true,
                )),
            NodeKind::Panels(p) => st[i].context is Some && forall|s: Slot, k: int|
                0 <= k < slot_wire(p, s).len() ==> i < #[trigger] slot_wire(p, s)[k] < g.nodes@.len() && activates(
                    g,
                    slot_wire(p, s)[k] as int,
                    st,
                    input,
                    true,
                ),
            _ => false,
        }
    } else {
        false
    }
}

/// Activation leaves every node's context and phase as they were.
pub open spec fn contexts_kept(r0: Runtime, r1: Runtime) -> bool {
    forall|j: int| 0 <= j < r0.states@.len() && j < r1.states@.len() ==> #[trigger] r1.states@[j].context == r0.states@[j].context
        && r1.states@[j].phase == r0.states@[j].phase
}

/// Whether a node surely activates depends on the nodes' states only through
/// their contexts.
pub proof fn lemma_activates_contexts(g: Graph, i: int, st1: Seq<NodeState>, st2: Seq<NodeState>, input: ValueModel, surface: bool)
    requires
        st1.len() == st2.len(),
        forall|j: int| 0 <= j < st1.len() ==> #[trigger] st1[j].context == st2[j].context,
    ensures
        activates(g, i, st1, input, surface) == activates(g, i, st2, input, surface),
    decreases g.nodes@.len() - i,
{
    if 0 <= i < g.nodes@.len() && i < st1.len() {
        match g.nodes@[i] {
            NodeKind::Indent(x) => {
                assert forall|k: int| 0 <= k < x.contents@.len() && i < #[trigger] x.contents@[k] < g.nodes@.len() implies activates(
                    g, x.contents@[k] as int, st1, input, true) == activates(g, x.contents@[k] as int, st2, input, true) by {
                    lemma_activates_contexts(g, x.contents@[k] as int, st1, st2, input, true);
                }
            },
            NodeKind::Panels(p) => {
                assert forall|s: Slot, k: int| 0 <= k < slot_wire(p, s).len() && i < #[trigger] slot_wire(p, s)[k] < g.nodes@.len() implies activates(
                    g, slot_wire(p, s)[k] as int, st1, input, true) == activates(g, slot_wire(p, s)[k] as int, st2, input, true) by {
                    lemma_activates_contexts(g, slot_wire(p, s)[k] as int, st1, st2, input, true);
                }
            },
            _ => {},
        }
    }
}

/// The theme a console draws with: the built-in theme with its style
/// configuration applied.
pub open spec fn console_theme(c: Console) -> LogTheme {
    styled_theme(LogTheme::spec_default(), style_config_view(c.style@))
}

/// What activating panel container `p` at index `i` does, from `r0` to `r1`:
/// without an acquired context it fails at once; otherwise it runs the
/// configured slots in order until one fails, and succeeds when none does,
/// handing its input through.
pub open spec fn panels_activation(p: Panels, i: usize, r0: Runtime, r1: Runtime, input: ValueModel, r: Result<Value, GuiError>) -> bool {
    &&& r is Ok ==> r->Ok_0@ == input
    &&& r0.states@[i as int].context is None ==> r == Err::<Value, GuiError>(GuiError::ActivationError)
        && r1.journal@ == r0.journal@
    &&& r0.states@[i as int].context is Some ==> regions_run(r0.journal@, r1.journal@, i, Call::Activate, slot_order(p), r is Ok)
    &&& r is Err ==> r == Err::<Value, GuiError>(GuiError::ActivationError)
    &&& r is Ok ==> slots_ran(new_runs(r0, r1), p, Call::Activate)
}

/// What activating indentation block `x` at index `i` does: with no contents
/// it hands its input through; otherwise it needs an enclosing surface, runs
/// its contents on a child surface, and succeeds exactly when they do.
pub open spec fn indent_activation(x: Indent, i: usize, r0: Runtime, r1: Runtime, input: ValueModel, r: Result<Value, GuiError>) -> bool {
    &&& r is Ok ==> r->Ok_0@ == input
    &&& x.contents@.len() == 0 ==> r is Ok && unchanged_but_runs(r0, r1)
    &&& x.contents@.len() > 0 && r0.stack@.len() > 0 ==> r1.ops@.len() > r0.ops@.len() && match r1.ops@[r0.ops@.len() as int] {
        DrawOp::OpenIndent { id, parent, .. } => id == EguiId { node: i as u64, idx: 0 } && parent == r0.stack@.last().surface,
        _ => false,
    }
    &&& x.contents@.len() > 0 && r0.stack@.len() > 0 && r is Err ==> r == Err::<Value, GuiError>(GuiError::ActivationError)
    &&& x.contents@.len() > 0 && r is Ok ==> wire_ran(new_runs(r0, r1), x.contents@, Call::Activate)
    &&& x.contents@.len() > 0 && r0.stack@.len() == 0 ==> r == Err::<Value, GuiError>(GuiError::NoActiveSurface)
        && unchanged_but_runs(r0, r1)
    &&& x.contents@.len() > 0 && r0.stack@.len() > 0 ==> regions_run(r0.journal@, r1.journal@, i, Call::Activate, seq![Slot::Center], r is Ok)
}

/// What activating console `c` at index `i` does: it needs an enclosing
/// surface and a string; it then draws the text on that surface, laid out by
/// log level in its theme through the frame cache, and hands the text through.
pub open spec fn console_activation(c: Console, i: usize, r0: Runtime, r1: Runtime, input: ValueModel, r: Result<Value, GuiError>) -> bool {
    &&& r0.stack@.len() == 0 ==> r == Err::<Value, GuiError>(GuiError::NoActiveSurface) && unchanged_but_runs(r0, r1)
    &&& r0.stack@.len() > 0 ==> (r is Ok <==> input is Str)
    &&& r is Ok ==> r->Ok_0@ == input && r1.ops@.len() == r0.ops@.len() + 1 && match (input, r1.ops@.last()) {
        (ValueModel::Str(text), DrawOp::Console { id, surface, text: shown, job }) => {
            &&& id == EguiId { node: i as u64, idx: 0 }
            &&& surface == r0.stack@.last().surface
            &&& shown@ == text
            &&& job@ == log_sections(console_theme(c), text)
            &&& exists|hit: bool| #[trigger] log_memo_step(r0.cache, r1.cache, i as u64, console_theme(c), text, job@, hit)
        },
        _ => false,
    }
}

/// What activating progress bar `b` does: it needs an enclosing surface, a
/// float input and usable overlay and width; it then draws the bar with that
/// progress and hands the input through.
pub open spec fn progress_activation(b: ProgressBar, r0: Runtime, r1: Runtime, input: ValueModel, r: Result<Value, GuiError>) -> bool {
    &&& r0.stack@.len() == 0 ==> r == Err::<Value, GuiError>(GuiError::NoActiveSurface) && unchanged_but_runs(r0, r1)
    &&& r0.stack@.len() > 0 ==> (r is Ok <==> input is Float && progress_params_ok(r0, b))
    &&& r is Ok ==> r->Ok_0@ == input && r1.ops@.len() == r0.ops@.len() + 1 && match (input, r1.ops@.last()) {
        (ValueModel::Float(f), DrawOp::ProgressBar { surface, progress, .. }) => surface == r0.stack@.last().surface
            && progress == f,
        _ => false,
    }
}

/// What activating color input `c` at index `i` does: it needs an enclosing
/// surface and a color to start from; it returns the picked color (see
/// [`color_result`]) and stores it in its variable, or internally when it is
/// bound to none.
pub open spec fn color_activation(c: ColorInput, i: usize, r0: Runtime, r1: Runtime, r: Result<Value, GuiError>) -> bool {
    &&& r0.stack@.len() == 0 ==> r == Err::<Value, GuiError>(GuiError::NoActiveSurface) && unchanged_but_runs(r0, r1)
    &&& r0.stack@.len() > 0 ==> (r is Ok <==> color_before(r0, c, i as int) is Some)
    &&& r matches Ok(v) ==> color_result(r0, c, i as int, v@)
    &&& r matches Ok(v) ==> match c.variable@ {
        ParamModel::Variable(n) => var_lookup(r1.vars@, n) == Some(v@) && r1.states@[i as int] == r0.states@[i as int],
        ParamModel::Literal(_) => v@ == ValueModel::Color(r1.states@[i as int].tmp_color),
    }
}

/// Whether the input suits the strategy an image button chose at compose.
pub open spec fn image_input_ok(s: Strategy, input: ValueModel) -> bool {
    (s == Strategy::Image && input is Image) || (s == Strategy::Texture && input is Texture)
}

/// Whether an image button's scale and selection parameters are usable.
pub open spec fn button_params_ok(r0: Runtime, b: ImageButton) -> bool {
    &&& param_value(r0.vars@, b.scale@) is Float2
    &&& (param_value(r0.vars@, b.selected@) is Nil || param_value(r0.vars@, b.selected@) is Bool)
}

/// Whether a click cannot be applied: the selection is a variable that holds
/// no boolean.
pub open spec fn click_blocked(r0: Runtime, b: ImageButton) -> bool {
    b.selected@ is Variable && param_value(r0.vars@, b.selected@) is Nil
}

/// Whether `op` draws image button `i` with the scale and selection that its
/// parameters hold in `r0`.
pub open spec fn button_op(op: DrawOp, r0: Runtime, b: ImageButton, i: usize) -> bool {
    match op {
        DrawOp::ImageButton { id, scale, selected, .. } => {
            &&& id == EguiId { node: i as u64, idx: 0 }
            &&& param_value(r0.vars@, b.scale@) == ValueModel::Float2(scale.0, scale.1)
            &&& match selected {
                Some(v) => param_value(r0.vars@, b.selected@) == ValueModel::Bool(v),
                None => param_value(r0.vars@, b.selected@) is Nil,
            }
        },
        _ => false,
    }
}

/// What the drawing part of an image button does once its image is known:
/// unclicked, it returns false and changes no variable; clicked, it flips its
/// selection variable, runs its action, and returns true when that succeeds.
pub open spec fn button_activation(b: ImageButton, i: usize, r0: Runtime, r1: Runtime, r: Result<Value, GuiError>) -> bool {
    let clicked = r0.input.clicked@.contains(EguiId { node: i as u64, idx: 0 });
    &&& !button_params_ok(r0, b) ==> r == Err::<Value, GuiError>(GuiError::ActivationError)
    &&& button_params_ok(r0, b) ==> exists|q: int| r0.ops@.len() <= q < r1.ops@.len() && #[trigger] button_op(r1.ops@[q], r0, b, i)
    &&& button_params_ok(r0, b) && !clicked ==> (r matches Ok(v) && v@ == ValueModel::Bool(false) && r1.vars == r0.vars
        && r1.journal == r0.journal && forall|q: int| 0 <= q < new_runs(r0, r1).len() ==> (#[trigger] new_runs(r0, r1)[q]).node == i)
    &&& button_params_ok(r0, b) && clicked && click_blocked(r0, b) ==> r == Err::<Value, GuiError>(GuiError::ActivationError)
    &&& button_params_ok(r0, b) && clicked && !click_blocked(r0, b) ==> ({
        &&& r matches Ok(v) ==> v@ == ValueModel::Bool(true)
        &&& b.action@.len() == 0 ==> r is Ok
        &&& b.action@.len() > 0 ==> regions_run(r0.journal@, r1.journal@, i, Call::Activate, seq![Slot::Center], r is Ok)
        &&& b.action@.len() > 0 && r is Ok ==> wire_ran(new_runs(r0, r1), b.action@, Call::Activate)
        &&& r is Err ==> r == Err::<Value, GuiError>(GuiError::ActivationError)
        &&& b.action@.len() == 0 ==> (b.selected@ matches ParamModel::Variable(n) ==> (param_value(r0.vars@, b.selected@) matches ValueModel::Bool(s)
            ==> var_lookup(r1.vars@, n) == Some(ValueModel::Bool(!s))))
    })
}

/// What activating image button `b` at index `i` does: it needs an enclosing
/// surface and an input that suits its strategy. An image input whose buffer
/// differs from the last one loaded is loaded as a texture first.
pub open spec fn image_button_activation(b: ImageButton, i: usize, r0: Runtime, r1: Runtime, input: ValueModel, r: Result<Value, GuiError>) -> bool {
    let s = r0.states@[i as int].strategy;
    &&& r0.stack@.len() == 0 ==> r == Err::<Value, GuiError>(GuiError::NoActiveSurface) && unchanged_but_runs(r0, r1)
    &&& r0.stack@.len() > 0 && !image_input_ok(s, input) ==> r == Err::<Value, GuiError>(GuiError::ActivationError)
    &&& r0.stack@.len() > 0 && image_input_ok(s, input) ==> button_activation(b, i, r0, r1, r)
    &&& r0.stack@.len() > 0 && s == Strategy::Image ==> (input matches ValueModel::Image(img) ==> ({
        let reload = r0.states@[i as int].prev_image != Some(img.data);
        &&& r1.states@[i as int].prev_image == Some(img.data)
        &&& reload ==> r1.ops@.len() > r0.ops@.len() && r1.ops@[r0.ops@.len() as int] is LoadTexture
        &&& !reload ==> (r1.ops@.len() > r0.ops@.len() ==> !(r1.ops@[r0.ops@.len() as int] is LoadTexture))
    }))
}

impl Graph {
    /// Runs node `i` for one frame on `input`. Whatever the outcome, the stack
    /// of active surfaces is as it was before; a drawing leaf that finds it
    /// empty fails with `NoActiveSurface` and changes nothing; each kind then
    /// behaves as its activation predicate says.
    pub fn activate_node(&self, i: usize, rt: &mut Runtime, input: &Value) -> (r: Result<Value, GuiError>)
        requires
            self.wf(),
            i < self.nodes@.len(),
            old(rt).wf(self),
        ensures
            lifecycle_frame(*old(rt), *final(rt), i as int),
            final(rt).stack@ == old(rt).stack@,
            is_leaf(self.nodes@[i as int]) && old(rt).stack@.len() == 0 ==> r == Err::<Value, GuiError>(
                GuiError::NoActiveSurface,
            ) && unchanged_but_runs(*old(rt), *final(rt)),
            passes_through(self.nodes@[i as int]) && r is Ok ==> r->Ok_0@ == input@,
            self.nodes@[i as int] matches NodeKind::Panels(p) ==> panels_activation(p, i, *old(rt), *final(rt), input@, r),
            self.nodes@[i as int] matches NodeKind::Indent(x) ==> indent_activation(x, i, *old(rt), *final(rt), input@, r),
            self.nodes@[i as int] matches NodeKind::Console(c) ==> console_activation(c, i, *old(rt), *final(rt), input@, r),
            self.nodes@[i as int] matches NodeKind::ProgressBar(b) ==> progress_activation(b, *old(rt), *final(rt), input@, r),
            self.nodes@[i as int] matches NodeKind::ColorInput(c) ==> color_activation(c, i, *old(rt), *final(rt), r),
            self.nodes@[i as int] matches NodeKind::ImageButton(b) ==> image_button_activation(b, i, *old(rt), *final(rt), input@, r),
            self.nodes@[i as int] is Root ==> (r is Ok <==> old(rt).states@[i as int].context is Some),
            contexts_kept(*old(rt), *final(rt)),
            activates(*self, i as int, old(rt).states@, input@, old(rt).stack@.len() > 0) ==> r is Ok,
            final(rt).runs@.len() > old(rt).runs@.len(),
            final(rt).runs@.last() == (NodeRun { node: i, call: Call::Activate, ok: r is Ok }),
        decreases self.nodes@.len() - i, 5int,
    {
        let ghost r0 = *rt;
        let r = self.activate_kind(i, rt, input);
        let ghost r1 = *rt;
        record_run(rt, NodeRun { node: i, call: Call::Activate, ok: r.is_ok() });
        proof {
            lemma_frame_run(r0, r1, *rt, i as int);
            match self.nodes@[i as int] {
                NodeKind::Panels(p) => {
                    if r is Ok {
                        assert forall|s: Slot| #[trigger] wire_ran(new_runs(r0, *rt), slot_wire(p, s), Call::Activate) by {
                            assert(wire_ran(new_runs(r0, r1), slot_wire(p, s), Call::Activate));
                            lemma_wire_ran_lift(r1.runs@, rt.runs@, r0.runs@.len() as int, r0.runs@.len() as int, slot_wire(p, s), Call::Activate);
                        }
                    }
                },
                NodeKind::Indent(x) => {
                    if r is Ok && x.contents@.len() > 0 {
                        lemma_wire_ran_lift(r1.runs@, rt.runs@, r0.runs@.len() as int, r0.runs@.len() as int, x.contents@, Call::Activate);
                    }
                },
                NodeKind::ImageButton(b) => {
                    if forall|q: int| 0 <= q < new_runs(r0, r1).len() ==> (#[trigger] new_runs(r0, r1)[q]).node == i {
                        assert forall|q: int| 0 <= q < new_runs(r0, *rt).len() implies (#[trigger] new_runs(r0, *rt)[q]).node == i by {
                            if q < new_runs(r0, r1).len() {
                                assert(new_runs(r0, *rt)[q] == new_runs(r0, r1)[q]);
                            }
                        }
                    }
                    if r is Ok && b.action@.len() > 0 && wire_ran(new_runs(r0, r1), b.action@, Call::Activate) {
                        lemma_wire_ran_lift(r1.runs@, rt.runs@, r0.runs@.len() as int, r0.runs@.len() as int, b.action@, Call::Activate);
                    }
                },
                _ => {},
            }
        }
        r
    }

    fn activate_kind(&self, i: usize, rt: &mut Runtime, input: &Value) -> (r: Result<Value, GuiError>)
        requires
            self.wf(),
            i < self.nodes@.len(),
            old(rt).wf(self),
        ensures
            lifecycle_frame(*old(rt), *final(rt), i as int),
            final(rt).stack@ == old(rt).stack@,
            is_leaf(self.nodes@[i as int]) && old(rt).stack@.len() == 0 ==> r == Err::<Value, GuiError>(
                GuiError::NoActiveSurface,
            ) && unchanged_but_runs(*old(rt), *final(rt)),
            passes_through(self.nodes@[i as int]) && r is Ok ==> r->Ok_0@ == input@,
            self.nodes@[i as int] matches NodeKind::Panels(p) ==> panels_activation(p, i, *old(rt), *final(rt), input@, r),
            self.nodes@[i as int] matches NodeKind::Indent(x) ==> indent_activation(x, i, *old(rt), *final(rt), input@, r),
            self.nodes@[i as int] matches NodeKind::Console(c) ==> console_activation(c, i, *old(rt), *final(rt), input@, r),
            self.nodes@[i as int] matches NodeKind::ProgressBar(b) ==> progress_activation(b, *old(rt), *final(rt), input@, r),
            self.nodes@[i as int] matches NodeKind::ColorInput(c) ==> color_activation(c, i, *old(rt), *final(rt), r),
            self.nodes@[i as int] matches NodeKind::ImageButton(b) ==> image_button_activation(b, i, *old(rt), *final(rt), input@, r),
            self.nodes@[i as int] is Root ==> (r is Ok <==> old(rt).states@[i as int].context is Some),
            contexts_kept(*old(rt), *final(rt)),
            activates(*self, i as int, old(rt).states@, input@, old(rt).stack@.len() > 0) ==> r is Ok,
        decreases self.nodes@.len() - i, 4int,
    {
        proof {
            assert(node_wf(self.nodes@[i as int], i as int, self.nodes@.len() as int));
        }
        match &self.nodes[i] {
            NodeKind::Root => {
                proof {
                    lemma_frame_refl(*rt);
                }
                match rt.states[i].context {
                    Some(h) => Ok(Value::Context(h)),
                    None => Err(GuiError::ActivationError),
                }
            },
            NodeKind::Panels(p) => self.activate_panels(i, p, rt, input),
            NodeKind::Indent(x) => self.activate_indent(i, x, rt, input),
            NodeKind::Console(c) => self.activate_console(i, c, rt, input),
            NodeKind::ColorInput(c) => self.activate_color_input(i, c, rt),
            NodeKind::ProgressBar(b) => self.activate_progress_bar(i, b, rt, input),
            NodeKind::ImageButton(b) => self.activate_image_button(i, b, rt, input),
        }
    }

    /// Runs the nodes of wire `w` in order, each on the output of the one
    /// before; the first failure stops the wire.
    pub fn activate_wire(&self, lo: usize, w: &Vec<usize>, rt: &mut Runtime, input: &Value) -> (r: Result<
        Value,
        GuiError,
    >)
        requires
            self.wf(),
            wire_within(w@, lo as int, self.nodes@.len() as int),
            old(rt).wf(self),
        ensures
            lifecycle_frame(*old(rt), *final(rt), lo as int),
            final(rt).stack@ == old(rt).stack@,
            contexts_kept(*old(rt), *final(rt)),
            (forall|k: int| 0 <= k < w@.len() ==> activates(*self, #[trigger] w@[k] as int, old(rt).states@, input@, old(rt).stack@.len() > 0))
                ==> r is Ok && r->Ok_0@ == input@,
            r is Ok ==> wire_ran(new_runs(*old(rt), *final(rt)), w@, Call::Activate),
            r is Err ==> wire_failed(new_runs(*old(rt), *final(rt)), w@, Call::Activate),
        decreases self.nodes@.len() - lo + 1, 0int,
    {
        let mut cur = input.duplicate();
        let mut k: usize = 0;
        proof {
            lemma_frame_refl(*rt);
        }
        while k < w.len()
            invariant
                self.wf(),
                wire_within(w@, lo as int, self.nodes@.len() as int),
                k <= w@.len(),
                rt.wf(self),
                lifecycle_frame(*old(rt), *rt, lo as int),
                rt.stack@ == old(rt).stack@,
                contexts_kept(*old(rt), *rt),
                (forall|m: int| 0 <= m < w@.len() ==> activates(*self, #[trigger] w@[m] as int, old(rt).states@, input@, old(rt).stack@.len() > 0))
                    ==> cur@ == input@,
                wire_ran(new_runs(*old(rt), *rt), w@.take(k as int), Call::Activate),
            decreases w@.len() - k,
        {
            let c = w[k];
            let ghost before = *rt;
            proof {
                if forall|m: int| 0 <= m < w@.len() ==> activates(*self, #[trigger] w@[m] as int, old(rt).states@, input@, old(rt).stack@.len() > 0) {
                    assert(activates(*self, w@[k as int] as int, old(rt).states@, input@, old(rt).stack@.len() > 0));
                    lemma_activates_contexts(*self, c as int, old(rt).states@, rt.states@, input@, old(rt).stack@.len() > 0);
                }
            }
            let out = self.activate_node(c, rt, &cur);
            proof {
                lemma_frame_trans(*old(rt), before, *rt, lo as int, c as int);
                lemma_runs_step(*old(rt), before, *rt, w@, k as int, c, Call::Activate, out is Ok);
                if forall|m: int| 0 <= m < w@.len() ==> activates(*self, #[trigger] w@[m] as int, old(rt).states@, input@, old(rt).stack@.len() > 0) {
                    assert(activates(*self, w@[k as int] as int, old(rt).states@, input@, old(rt).stack@.len() > 0));
                    assert(passes_through(self.nodes@[c as int]));
                }
            }
            match out {
                Ok(v) => {
                    cur = v;
                },
                Err(e) => {
                    return Err(e);
                },
            }
            k = k + 1;
        }
        assert(w@.take(k as int) =~= w@);
        Ok(cur)
    }

    fn activate_panels(&self, i: usize, p: &Panels, rt: &mut Runtime, input: &Value) -> (r: Result<
        Value,
        GuiError,
    >)
        requires
            self.wf(),
            i < self.nodes@.len(),
            self.nodes@[i as int] == NodeKind::Panels(*p),
            old(rt).wf(self),
        ensures
            lifecycle_frame(*old(rt), *final(rt), i as int),
            final(rt).stack@ == old(rt).stack@,
            contexts_kept(*old(rt), *final(rt)),
            panels_activation(*p, i, *old(rt), *final(rt), input@, r),
            activates(*self, i as int, old(rt).states@, input@, old(rt).stack@.len() > 0) ==> r is Ok,
        decreases self.nodes@.len() - i, 1int,
    {
        proof {
            assert(node_wf(self.nodes@[i as int], i as int, self.nodes@.len() as int));
            lemma_regions_start(rt.journal@, i, Call::Activate);
        }
        let ghost j0 = rt.journal@;
        proof {
            lemma_frame_refl(*rt);
        }
        let ctx = match rt.states[i].context {
            Some(h) => h,
            None => {
                return Err(GuiError::ActivationError);
            },
        };
        let slots = p.slots();
        let mut k: usize = 0;
        while k < slots.len()
            invariant
                self.wf(),
                i < self.nodes@.len(),
                self.nodes@[i as int] == NodeKind::Panels(*p),
                node_wf(NodeKind::Panels(*p), i as int, self.nodes@.len() as int),
                slots@ == slot_order(*p),
                k <= slots@.len(),
                rt.wf(self),
                j0 == old(rt).journal@,
                old(rt).states@[i as int].context is Some,
                lifecycle_frame(*old(rt), *rt, i as int),
                rt.stack@ == old(rt).stack@,
                visits_of(rt.journal@.skip(j0.len() as int), i, Call::Activate) == slot_order(*p).take(k as int),
                outcomes_of(rt.journal@.skip(j0.len() as int), i, Call::Activate).len() == k,
                forall|m: int| 0 <= m < k ==> #[trigger] outcomes_of(rt.journal@.skip(j0.len() as int), i, Call::Activate)[m],
                contexts_kept(*old(rt), *rt),
                forall|s: Slot| slot_order(*p).take(k as int).contains(s) ==> #[trigger] wire_ran(new_runs(*old(rt), *rt), slot_wire(*p, s), Call::Activate),
            decreases slots@.len() - k,
        {
            let slot = slots[k];
            let ghost r1 = *rt;
            let surface = rt.new_surface();
            let id = EguiId::new(i, slot_number(slot));
            let ghost s0 = *rt;
            push_op(rt, DrawOp::OpenPanel { id, slot, context: ctx, surface });
            rt.stack.push(id, surface);
            let ghost mid = *rt;
            proof {
                lemma_frame_op(*old(rt), s0, mid, i as int, DrawOp::OpenPanel { id, slot, context: ctx, surface });
            }
            let w = p.wire(slot);
            proof {
                crate::nodes::lemma_slot_order(*p);
                assert(slot_order(*p)[k as int] == slot);
                assert(w@[0] >= i + 1);
                if activates(*self, i as int, old(rt).states@, input@, old(rt).stack@.len() > 0) {
                    assert forall|m: int| 0 <= m < w@.len() implies activates(*self, #[trigger] w@[m] as int, mid.states@, input@, mid.stack@.len() > 0) by {
                        assert(slot_wire(*p, slot)[m] == w@[m]);
                        lemma_activates_contexts(*self, w@[m] as int, old(rt).states@, mid.states@, input@, true);
                    }
                }
            }
            let res = self.activate_wire(i + 1, w, rt, input);
            let ghost after = *rt;
            let _ = rt.stack.pop();
            let ghost s1 = *rt;
            push_op(rt, DrawOp::Close { surface });
            assert(rt.stack@ =~= old(rt).stack@);
            let e = SlotVisit { node: i, call: Call::Activate, slot, ok: res.is_ok() };
            let ghost r2 = *rt;
            record(rt, e);
            proof {
                lemma_frame_trans(*old(rt), mid, after, i as int, i + 1);
                lemma_frame_op(*old(rt), s1, r2, i as int, DrawOp::Close { surface });
                lemma_frame_record(*old(rt), r2, *rt, i as int, e);
                lemma_record_after(j0, r1.journal@, r2.journal@, i, e, Call::Activate);
                lemma_regions_step(j0, r1.journal@, rt.journal@, i, Call::Activate, slot_order(*p), k as int, e.ok);
                assert(rt.runs@ == after.runs@);
                assert(rt.runs@.take(after.runs@.len() as int) =~= after.runs@);
                assert(rt.runs@.take(r1.runs@.len() as int) =~= r1.runs@) by {
                    assert(mid.runs@ == r1.runs@);
                    assert(after.runs@.take(mid.runs@.len() as int) == mid.runs@);
                }
                if e.ok {
                    lemma_wire_ran_lift(after.runs@, rt.runs@, old(rt).runs@.len() as int, mid.runs@.len() as int, w@, Call::Activate);
                    assert forall|s2: Slot| slot_order(*p).take(k + 1).contains(s2) implies #[trigger] wire_ran(new_runs(*old(rt), *rt), slot_wire(*p, s2), Call::Activate) by {
                        if s2 != slot {
                            assert(slot_order(*p).take(k as int).contains(s2)) by {
                                let q = choose|q: int| 0 <= q < k + 1 && #[trigger] slot_order(*p).take(k + 1)[q] == s2;
                                assert(slot_order(*p).take(k as int)[q] == s2);
                            }
                            assert(wire_ran(new_runs(*old(rt), r1), slot_wire(*p, s2), Call::Activate));
                            lemma_wire_ran_lift(r1.runs@, rt.runs@, old(rt).runs@.len() as int, old(rt).runs@.len() as int, slot_wire(*p, s2), Call::Activate);
                        }
                    }
                }
            }
            if res.is_err() {
                return Err(GuiError::ActivationError);
            }
            k = k + 1;
        }
        proof {
            assert(slot_order(*p).take(k as int) =~= slot_order(*p));
            lemma_regions_done(j0, rt.journal@, i, Call::Activate, slot_order(*p));
            crate::nodes::lemma_slot_order(*p);
            assert forall|s2: Slot| #[trigger] wire_ran(new_runs(*old(rt), *rt), slot_wire(*p, s2), Call::Activate) by {
                if !slot_order(*p).contains(s2) {
                    assert(slot_wire(*p, s2).len() == 0);
                }
            }
        }
        Ok(input.duplicate())
    }

    fn activate_indent(&self, i: usize, x: &Indent, rt: &mut Runtime, input: &Value) -> (r: Result<
        Value,
        GuiError,
    >)
        requires
            self.wf(),
            i < self.nodes@.len(),
            self.nodes@[i as int] == NodeKind::Indent(*x),
            old(rt).wf(self),
        ensures
            lifecycle_frame(*old(rt), *final(rt), i as int),
            final(rt).stack@ == old(rt).stack@,
            contexts_kept(*old(rt), *final(rt)),
            indent_activation(*x, i, *old(rt), *final(rt), input@, r),
            activates(*self, i as int, old(rt).states@, input@, old(rt).stack@.len() > 0) ==> r is Ok,
        decreases self.nodes@.len() - i, 1int,
    {
        proof {
            assert(node_wf(self.nodes@[i as int], i as int, self.nodes@.len() as int));
            lemma_regions_start(rt.journal@, i, Call::Activate);
        }
        let ghost j0 = rt.journal@;
        proof {
            lemma_frame_refl(*rt);
        }
        if x.contents.len() == 0 {
            return Ok(input.duplicate());
        }
        let parent = match rt.stack.current() {
            Ok(e) => e,
            Err(e) => {
                return Err(e);
            },
        };
        let surface = rt.new_surface();
        let id = EguiId::new(i, 0);
        let ghost s0 = *rt;
        push_op(rt, DrawOp::OpenIndent { id, parent: parent.surface, surface });
        rt.stack.push(id, surface);
        let ghost mid = *rt;
        proof {
            lemma_frame_op(*old(rt), s0, mid, i as int, DrawOp::OpenIndent { id, parent: parent.surface, surface });
        }
        assert(x.contents@[0] >= i + 1);
        proof {
            if activates(*self, i as int, old(rt).states@, input@, old(rt).stack@.len() > 0) {
                assert forall|m: int| 0 <= m < x.contents@.len() implies activates(*self, #[trigger] x.contents@[m] as int, mid.states@, input@, mid.stack@.len() > 0) by {
                    lemma_activates_contexts(*self, x.contents@[m] as int, old(rt).states@, mid.states@, input@, true);
                }
            }
        }
        let res = self.activate_wire(i + 1, &x.contents, rt, input);
        let ghost after = *rt;
        let _ = rt.stack.pop();
        let ghost s1 = *rt;
        push_op(rt, DrawOp::Close { surface });
        assert(rt.stack@ =~= old(rt).stack@);
        let e = SlotVisit { node: i, call: Call::Activate, slot: Slot::Center, ok: res.is_ok() };
        let ghost r2 = *rt;
        record(rt, e);
        proof {
            lemma_frame_trans(*old(rt), mid, after, i as int, i + 1);
            lemma_frame_op(*old(rt), s1, r2, i as int, DrawOp::Close { surface });
            assert(rt.runs@ == after.runs@);
            assert(rt.runs@.take(after.runs@.len() as int) =~= after.runs@);
            if res is Ok {
                lemma_wire_ran_lift(after.runs@, rt.runs@, old(rt).runs@.len() as int, mid.runs@.len() as int, x.contents@, Call::Activate);
            }
            assert(rt.ops@[old(rt).ops@.len() as int] == mid.ops@[old(rt).ops@.len() as int]) by {
                assert(after.ops@.take(mid.ops@.len() as int) == mid.ops@);
                assert(after.ops@[old(rt).ops@.len() as int] == after.ops@.take(mid.ops@.len() as int)[old(rt).ops@.len() as int]);
                assert(rt.ops@ == after.ops@.push(DrawOp::Close { surface }));
            }
            lemma_frame_record(*old(rt), r2, *rt, i as int, e);
            lemma_record_after(j0, j0, r2.journal@, i, e, Call::Activate);
            assert(seq![Slot::Center].take(0) =~= Seq::<Slot>::empty());
            lemma_regions_step(j0, j0, rt.journal@, i, Call::Activate, seq![Slot::Center], 0, e.ok);
            if e.ok {
                assert(seq![Slot::Center].take(1) =~= seq![Slot::Center]);
                lemma_regions_done(j0, rt.journal@, i, Call::Activate, seq![Slot::Center]);
            }
            assert(rt.ops@.take(old(rt).ops@.len() as int) =~= old(rt).ops@) by {
                assert(rt.ops@.take(after.ops@.len() as int).take(old(rt).ops@.len() as int) =~= rt.ops@.take(old(rt).ops@.len() as int));
            }
        }
        match res {
            Ok(_) => Ok(input.duplicate()),
            Err(_) => Err(GuiError::ActivationError),
        }
    }

    fn activate_console(&self, i: usize, c: &Console, rt: &mut Runtime, input: &Value) -> (r: Result<
        Value,
        GuiError,
    >)
        requires
            i < self.nodes@.len(),
            old(rt).wf(self),
        ensures
            lifecycle_frame(*old(rt), *final(rt), i as int),
            final(rt).stack@ == old(rt).stack@,
            contexts_kept(*old(rt), *final(rt)),
            console_activation(*c, i, *old(rt), *final(rt), input@, r),
    {
        proof {
            lemma_frame_refl(*rt);
        }
        let parent = match rt.stack.current() {
            Ok(e) => e,
            Err(e) => {
                return Err(e);
            },
        };
        let text = match input {
            Value::Str(s) => s,
            _ => {
                return Err(GuiError::ActivationError);
            },
        };
        let mut theme = LogTheme::new();
        apply_style(&mut theme, &c.style);
        let (job, hit) = highlight_log_memo(&mut rt.cache, i as u64, &theme, text.as_str());
        let ghost jv = job@;
        let ghost c1 = rt.cache;
        let op = DrawOp::Console { id: EguiId::new(i, 0), surface: parent.surface, text: text.clone(), job };
        let ghost opv = op;
        push_op(rt, op);
        proof {
            assert(rt.ops@.last() == opv);
            assert(rt.cache == c1);
            assert(log_memo_step(old(rt).cache, rt.cache, i as u64, console_theme(*c), text@, jv, hit));
        }
        Ok(input.duplicate())
    }

    fn activate_color_input(&self, i: usize, c: &ColorInput, rt: &mut Runtime) -> (r: Result<
        Value,
        GuiError,
    >)
        requires
            i < self.nodes@.len(),
            old(rt).wf(self),
        ensures
            lifecycle_frame(*old(rt), *final(rt), i as int),
            final(rt).stack@ == old(rt).stack@,
            contexts_kept(*old(rt), *final(rt)),
            color_activation(*c, i, *old(rt), *final(rt), r),
    {
        proof {
            lemma_frame_refl(*rt);
        }
        let parent = match rt.stack.current() {
            Ok(e) => e,
            Err(e) => {
                return Err(e);
            },
        };
        let id = EguiId::new(i, 0);
        let current = match &c.variable {
            Param::Variable(_) => match rt.resolve(&c.variable) {
                Value::Color(col) => col,
                _ => {
                    return Err(GuiError::ActivationError);
                },
            },
            Param::Literal(_) => rt.states[i].tmp_color,
        };
        let color = match rt.color_edit(id) {
            Some(edited) => edited,
            None => current,
        };
        push_op(rt, DrawOp::ColorEdit { id, surface: parent.surface, color });
        match &c.variable {
            Param::Variable(name) => {
                rt.set_var(name.as_str(), Value::Color(color));
            },
            Param::Literal(_) => {
                let st = rt.states[i];
                rt.states.set(i, NodeState { tmp_color: color, ..st });
            },
        }
        Ok(Value::Color(color))
    }

    fn activate_progress_bar(&self, i: usize, b: &ProgressBar, rt: &mut Runtime, input: &Value) -> (r:
        Result<Value, GuiError>)
        requires
            i < self.nodes@.len(),
            old(rt).wf(self),
        ensures
            lifecycle_frame(*old(rt), *final(rt), i as int),
            final(rt).stack@ == old(rt).stack@,
            contexts_kept(*old(rt), *final(rt)),
            progress_activation(*b, *old(rt), *final(rt), input@, r),
    {
        proof {
            lemma_frame_refl(*rt);
        }
        let parent = match rt.stack.current() {
            Ok(e) => e,
            Err(e) => {
                return Err(e);
            },
        };
        let progress = match input {
            Value::Float(f) => *f,
            _ => {
                return Err(GuiError::ActivationError);
            },
        };
        let overlay = match rt.resolve(&b.overlay) {
            Value::Nil => None,
            Value::Str(s) => Some(s),
            _ => {
                return Err(GuiError::ActivationError);
            },
        };
        let width = match rt.resolve(&b.desired_width) {
            Value::Nil => None,
            Value::Float(w) => Some(w),
            _ => {
                return Err(GuiError::ActivationError);
            },
        };
        push_op(rt, DrawOp::ProgressBar { surface: parent.surface, progress, overlay, width });
        Ok(input.duplicate())
    }

    fn activate_image_button(&self, i: usize, b: &ImageButton, rt: &mut Runtime, input: &Value) -> (r:
        Result<Value, GuiError>)
        requires
            self.wf(),
            i < self.nodes@.len(),
            self.nodes@[i as int] == NodeKind::ImageButton(*b),
            old(rt).wf(self),
        ensures
            lifecycle_frame(*old(rt), *final(rt), i as int),
            final(rt).stack@ == old(rt).stack@,
            contexts_kept(*old(rt), *final(rt)),
            image_button_activation(*b, i, *old(rt), *final(rt), input@, r),
        decreases self.nodes@.len() - i, 3int,
    {
        proof {
            lemma_frame_refl(*rt);
        }
        match rt.states[i].strategy {
            Strategy::Image => self.activate_image(i, b, rt, input),
            Strategy::Texture => self.activate_texture(i, b, rt, input),
            Strategy::Unsupported => {
                if rt.stack.is_empty() {
                    Err(GuiError::NoActiveSurface)
                } else {
                    Err(GuiError::ActivationError)
                }
            },
        }
    }

    fn activate_image(&self, i: usize, b: &ImageButton, rt: &mut Runtime, input: &Value) -> (r: Result<
        Value,
        GuiError,
    >)
        requires
            self.wf(),
            i < self.nodes@.len(),
            self.nodes@[i as int] == NodeKind::ImageButton(*b),
            old(rt).wf(self),
            old(rt).states@[i as int].strategy == Strategy::Image,
        ensures
            lifecycle_frame(*old(rt), *final(rt), i as int),
            final(rt).stack@ == old(rt).stack@,
            contexts_kept(*old(rt), *final(rt)),
            image_button_activation(*b, i, *old(rt), *final(rt), input@, r),
        decreases self.nodes@.len() - i, 2int,
    {
        proof {
            lemma_frame_refl(*rt);
        }
        let parent = match rt.stack.current() {
            Ok(e) => e,
            Err(e) => {
                return Err(e);
            },
        };
        let image = match input {
            Value::Image(img) => *img,
            _ => {
                return Err(GuiError::ActivationError);
            },
        };
        let id = EguiId::new(i, 0);
        let st = rt.states[i];
        let reload = match st.prev_image {
            Some(d) => d != image.data,
            None => true,
        };
        if reload {
            push_op(rt, DrawOp::LoadTexture { id, image });
        }
        rt.states.set(i, NodeState { prev_image: Some(image.data), ..st });
        let ghost mid = *rt;
        proof {
            assert(mid.states@[i as int].strategy == Strategy::Image);
            assert(mid.states.len() == old(rt).states.len());
            assert forall|j: int| 0 <= j < i as int && j < old(rt).states@.len() implies #[trigger] mid.states@[j] == old(rt).states@[j] by {}
            assert(mid.ops@.take(old(rt).ops@.len() as int) =~= old(rt).ops@);
            assert(lifecycle_frame(*old(rt), mid, i as int));
        }
        let r = self.activate_common(i, b, rt, input, parent.surface, ButtonImage::Image(image));
        proof {
            lemma_frame_trans(*old(rt), mid, *rt, i as int, i as int);
            if button_params_ok(*old(rt), *b) && image_input_ok(old(rt).states@[i as int].strategy, input@) {
                assert(mid.vars == old(rt).vars);
                assert(button_params_ok(mid, *b));
                let q = choose|q: int| mid.ops@.len() <= q < rt.ops@.len() && #[trigger] button_op(rt.ops@[q], mid, *b, i);
                assert(button_op(rt.ops@[q], *old(rt), *b, i));
            }
            if reload {
                assert(rt.ops@[old(rt).ops@.len() as int] == rt.ops@.take(mid.ops@.len() as int)[old(rt).ops@.len() as int]);
            } else if rt.ops@.len() > old(rt).ops@.len() {
                assert(mid.ops@ == old(rt).ops@);
                assert(rt.ops@[old(rt).ops@.len() as int] is ImageButton);
            }
        }
        r
    }

    fn activate_texture(&self, i: usize, b: &ImageButton, rt: &mut Runtime, input: &Value) -> (r: Result<
        Value,
        GuiError,
    >)
        requires
            self.wf(),
            i < self.nodes@.len(),
            self.nodes@[i as int] == NodeKind::ImageButton(*b),
            old(rt).wf(self),
            old(rt).states@[i as int].strategy == Strategy::Texture,
        ensures
            lifecycle_frame(*old(rt), *final(rt), i as int),
            final(rt).stack@ == old(rt).stack@,
            contexts_kept(*old(rt), *final(rt)),
            image_button_activation(*b, i, *old(rt), *final(rt), input@, r),
        decreases self.nodes@.len() - i, 2int,
    {
        proof {
            lemma_frame_refl(*rt);
        }
        let parent = match rt.stack.current() {
            Ok(e) => e,
            Err(e) => {
                return Err(e);
            },
        };
        let texture = match input {
            Value::Texture(t) => *t,
            _ => {
                return Err(GuiError::ActivationError);
            },
        };
        self.activate_common(i, b, rt, input, parent.surface, ButtonImage::Texture(texture))
    }

    /// Draws the button; when it was clicked, flips the `selected` variable
    /// and runs the action wire. Returns whether it was clicked.
    fn activate_common(
        &self,
        i: usize,
        b: &ImageButton,
        rt: &mut Runtime,
        input: &Value,
        surface: u64,
        image: ButtonImage,
    ) -> (r: Result<Value, GuiError>)
        requires
            self.wf(),
            i < self.nodes@.len(),
            self.nodes@[i as int] == NodeKind::ImageButton(*b),
            old(rt).wf(self),
        ensures
            lifecycle_frame(*old(rt), *final(rt), i as int),
            final(rt).stack@ == old(rt).stack@,
            contexts_kept(*old(rt), *final(rt)),
            final(rt).states@[i as int] == old(rt).states@[i as int],
            final(rt).ops@.len() > old(rt).ops@.len() ==> final(rt).ops@[old(rt).ops@.len() as int] is ImageButton,
            button_activation(*b, i, *old(rt), *final(rt), r),
        decreases self.nodes@.len() - i, 1int,
    {
        proof {
            assert(node_wf(self.nodes@[i as int], i as int, self.nodes@.len() as int));
            lemma_regions_start(rt.journal@, i, Call::Activate);
        }
        let ghost j0 = rt.journal@;
        proof {
            lemma_frame_refl(*rt);
        }
        let id = EguiId::new(i, 0);
        let scale = match rt.resolve(&b.scale) {
            Value::Float2(x, y) => (x, y),
            _ => {
                return Err(GuiError::ActivationError);
            },
        };
        let selected = match rt.resolve(&b.selected) {
            Value::Nil => None,
            Value::Bool(v) => Some(v),
            _ => {
                return Err(GuiError::ActivationError);
            },
        };
        push_op(rt, DrawOp::ImageButton { id, surface, image, scale, selected });
        let ghost pushed = *rt;
        assert(button_op(rt.ops@[old(rt).ops@.len() as int], *old(rt), *b, i));
        if rt.was_clicked(id) {
            if let Param::Variable(name) = &b.selected {
                match selected {
                    Some(v) => rt.set_var(name.as_str(), Value::Bool(!v)),
                    None => {
                        return Err(GuiError::ActivationError);
                    },
                }
            }
            if b.action.len() == 0 {
                return Ok(Value::Bool(true));
            }
            assert(b.action@[0] >= i + 1);
            let ghost mid = *rt;
            let res = self.activate_wire(i + 1, &b.action, rt, input);
            let ghost after = *rt;
            let e = SlotVisit { node: i, call: Call::Activate, slot: Slot::Center, ok: res.is_ok() };
            record(rt, e);
            proof {
                lemma_frame_trans(*old(rt), mid, after, i as int, i + 1);
                assert(rt.runs@ == after.runs@);
                assert(rt.runs@.take(after.runs@.len() as int) =~= after.runs@);
                if res is Ok {
                    lemma_wire_ran_lift(after.runs@, rt.runs@, old(rt).runs@.len() as int, mid.runs@.len() as int, b.action@, Call::Activate);
                }
                lemma_record_after(j0, j0, after.journal@, i, e, Call::Activate);
                assert(seq![Slot::Center].take(0) =~= Seq::<Slot>::empty());
            lemma_regions_step(j0, j0, rt.journal@, i, Call::Activate, seq![Slot::Center], 0, e.ok);
                if e.ok {
                    assert(seq![Slot::Center].take(1) =~= seq![Slot::Center]);
                    lemma_regions_done(j0, rt.journal@, i, Call::Activate, seq![Slot::Center]);
                }
                assert(rt.ops@.take(old(rt).ops@.len() as int) =~= old(rt).ops@) by {
                    assert(rt.ops@.take(after.ops@.len() as int).take(old(rt).ops@.len() as int) =~= rt.ops@.take(old(rt).ops@.len() as int));
                }
                assert(rt.ops@[old(rt).ops@.len() as int] == pushed.ops@[old(rt).ops@.len() as int]) by {
                    assert(rt.ops@.take(pushed.ops@.len() as int) == pushed.ops@) by {
                        assert(rt.ops@.take(after.ops@.len() as int).take(pushed.ops@.len() as int) =~= rt.ops@.take(pushed.ops@.len() as int));
                        assert(after.ops@.take(mid.ops@.len() as int) == mid.ops@);
                        assert(after.ops@.take(mid.ops@.len() as int).take(pushed.ops@.len() as int) =~= after.ops@.take(pushed.ops@.len() as int));
                    }
                    assert(rt.ops@.take(pushed.ops@.len() as int)[old(rt).ops@.len() as int] == rt.ops@[old(rt).ops@.len() as int]);
                }
            }
            return match res {
                Ok(_) => Ok(Value::Bool(true)),
                Err(_) => Err(GuiError::ActivationError),
            };
        }
        Ok(Value::Bool(false))
    }
}

} // verus!

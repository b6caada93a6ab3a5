use vstd::prelude::*;
use crate::binding::root_var;
use crate::console::{style_config_view, StyleEntry, StyleOverride};
use crate::types::{GuiError, Param, ParamModel, Value, ValueModel};

verus! {

/// The regions of a panel layout. Peripheral regions reserve screen space
/// first; the central region takes what remains and is always handled last.
#[derive(Clone, Copy, Debug, PartialEq, Eq, Hash, Structural)]
pub enum Slot {
    Top,
    Left,
    Right,
    Bottom,
    Center,
}

/// The sub-identity number of each slot in draw-call identities.
pub open spec fn slot_index(s: Slot) -> u8 {
    match s {
        Slot::Top => 0,
        Slot::Left => 1,
        Slot::Right => 2,
        Slot::Bottom => 3,
        Slot::Center => 4,
    }
}

pub fn slot_number(s: Slot) -> (r: u8)
    ensures
        r == slot_index(s),
{
    match s {
        Slot::Top => 0,
        Slot::Left => 1,
        Slot::Right => 2,
        Slot::Bottom => 3,
        Slot::Center => 4,
    }
}

/// A container of peripheral and central panels drawn on a GUI root context.
/// Each slot holds a wire: the graph indices of the nodes it runs, in order.
pub struct Panels {
    pub context: Param,
    pub top: Vec<usize>,
    pub left: Vec<usize>,
    pub center: Vec<usize>,
    pub right: Vec<usize>,
    pub bottom: Vec<usize>,
}

/// A block whose contents are drawn indented to the right.
pub struct Indent {
    pub contents: Vec<usize>,
}

/// A read-only console showing log text colored by level.
pub struct Console {
    pub style: Vec<StyleEntry>,
}

/// A color picker bound to a variable, or to an internal color.
pub struct ColorInput {
    pub variable: Param,
}

/// A progress bar with an optional overlay text and width.
pub struct ProgressBar {
    pub overlay: Param,
    pub desired_width: Param,
}

/// A clickable image that runs its action wire when clicked.
pub struct ImageButton {
    pub action: Vec<usize>,
    pub scale: Param,
    pub selected: Param,
}

/// The kinds of nodes, with their parameters.
pub enum NodeKind {
    /// The root of a GUI tree: creates the rendering context.
    Root,
    Panels(Panels),
    Indent(Indent),
    Console(Console),
    ColorInput(ColorInput),
    ProgressBar(ProgressBar),
    ImageButton(ImageButton),
}

/// The wire of slot `s`.
pub open spec fn slot_wire(p: Panels, s: Slot) -> Seq<usize> {
    match s {
        Slot::Top => p.top@,
        Slot::Left => p.left@,
        Slot::Right => p.right@,
        Slot::Bottom => p.bottom@,
        Slot::Center => p.center@,
    }
}

/// The slot of each processing rank: top, left, right, bottom, center.
pub open spec fn slot_at(k: int) -> Slot {
    if k == 0 {
        Slot::Top
    } else if k == 1 {
        Slot::Left
    } else if k == 2 {
        Slot::Right
    } else if k == 3 {
        Slot::Bottom
    } else {
        Slot::Center
    }
}

/// The configured slots of rank `k` and above, in rank order.
pub open spec fn slots_from(p: Panels, k: int) -> Seq<Slot>
    decreases 5 - k,
{
    if k >= 5 || k < 0 {
        Seq::empty()
    } else if slot_wire(p, slot_at(k)).len() > 0 {
        seq![slot_at(k)] + slots_from(p, k + 1)
    } else {
        slots_from(p, k + 1)
    }
}

/// The configured slots in processing order: top, left, right, bottom, then
/// center; slots with an empty wire are left out.
pub open spec fn slot_order(p: Panels) -> Seq<Slot> {
    slots_from(p, 0)
}

impl Panels {
    pub fn wire(&self, s: Slot) -> (w: &Vec<usize>)
        ensures
            w@ == slot_wire(*self, s),
    {
        match s {
            Slot::Top => &self.top,
            Slot::Left => &self.left,
            Slot::Right => &self.right,
            Slot::Bottom => &self.bottom,
            Slot::Center => &self.center,
        }
    }

    /// The configured slots in processing order: see [`slot_order`].
    pub fn slots(&self) -> (r: Vec<Slot>)
        ensures
            r@ == slot_order(*self),
    {
        let mut r: Vec<Slot> = Vec::new();
        if self.top.len() > 0 {
            r.push(Slot::Top);
        }
        if self.left.len() > 0 {
            r.push(Slot::Left);
        }
        if self.right.len() > 0 {
            r.push(Slot::Right);
        }
        if self.bottom.len() > 0 {
            r.push(Slot::Bottom);
        }
        // the central region always comes last
        if self.center.len() > 0 {
            r.push(Slot::Center);
        }
        proof {
            reveal_with_fuel(slots_from, 6);
        }
        assert(r@ =~= slot_order(*self));
        r
    }
}

pub proof fn lemma_slots_from(p: Panels, k: int)
    requires
        0 <= k <= 5,
    ensures
        forall|m: int| 0 <= m < slots_from(p, k).len() ==> slot_wire(p, #[trigger] slots_from(p, k)[m]).len() > 0
            && k <= slot_index(slots_from(p, k)[m]),
        forall|m1: int, m2: int|
            0 <= m1 < m2 < slots_from(p, k).len() ==> slot_index(#[trigger] slots_from(p, k)[m1])
                < slot_index(#[trigger] slots_from(p, k)[m2]),
        forall|s: Slot|
            k <= slot_index(s) && slot_wire(p, s).len() > 0 ==> #[trigger] slots_from(p, k).contains(s),
    decreases 5 - k,
{
    if k < 5 {
        lemma_slots_from(p, k + 1);
        let rest = slots_from(p, k + 1);
        if slot_wire(p, slot_at(k)).len() > 0 {
            let o = slots_from(p, k);
            assert(o == seq![slot_at(k)] + rest);
            assert forall|m: int| 0 <= m < o.len() implies slot_wire(p, #[trigger] o[m]).len() > 0
                && k <= slot_index(o[m]) by {
                if m > 0 {
                    assert(o[m] == rest[m - 1]);
                }
            }
            assert forall|m1: int, m2: int| 0 <= m1 < m2 < o.len() implies slot_index(
                #[trigger] o[m1],
            ) < slot_index(#[trigger] o[m2]) by {
                assert(o[m2] == rest[m2 - 1]);
                if m1 > 0 {
                    assert(o[m1] == rest[m1 - 1]);
                }
            }
            assert forall|s: Slot| k <= slot_index(s) && slot_wire(p, s).len() > 0 implies
                #[trigger] o.contains(s) by {
                if s == slot_at(k) {
                    assert(o[0] == s);
                } else {
                    assert(rest.contains(s));
                    let m = choose|m: int| 0 <= m < rest.len() && rest[m] == s;
                    assert(o[m + 1] == s);
                }
            }
        } else {
            assert forall|s: Slot| k <= slot_index(s) && slot_wire(p, s).len() > 0 implies
                #[trigger] slots_from(p, k).contains(s) by {
                assert(s != slot_at(k));
            }
        }
    }
}

/// Peripheral slots come before the central one, each configured slot is
/// processed exactly once, in rank order, and a slot without content is never
/// processed.
pub proof fn lemma_slot_order(p: Panels)
    ensures
        forall|k: int| 0 <= k < slot_order(p).len() ==> slot_wire(p, #[trigger] slot_order(p)[k]).len() > 0,
        forall|s: Slot| slot_wire(p, s).len() > 0 <==> #[trigger] slot_order(p).contains(s),
        forall|k1: int, k2: int|
            0 <= k1 < k2 < slot_order(p).len() ==> slot_index(#[trigger] slot_order(p)[k1]) < slot_index(
                #[trigger] slot_order(p)[k2],
            ),
        p.center@.len() > 0 ==> slot_order(p).last() == Slot::Center,
        forall|k: int| 0 <= k < slot_order(p).len() - 1 ==> #[trigger] slot_order(p)[k] != Slot::Center,
{
    lemma_slots_from(p, 0);
    let o = slot_order(p);
    assert forall|s: Slot| #[trigger] o.contains(s) implies slot_wire(p, s).len() > 0 by {
        let m = choose|m: int| 0 <= m < o.len() && o[m] == s;
    }
    if p.center@.len() > 0 {
        assert(o.contains(Slot::Center));
        let m = choose|m: int| 0 <= m < o.len() && o[m] == Slot::Center;
        if m < o.len() - 1 {
            assert(slot_index(o[m]) < slot_index(o[o.len() - 1]));
        }
    }
    assert forall|k: int| 0 <= k < o.len() - 1 implies #[trigger] o[k] != Slot::Center by {
        assert(slot_index(o[k]) < slot_index(o[o.len() - 1]));
    }
}

/// A value that a node parameter can be set to.
pub enum ParamValue {
    /// A wire of nested nodes.
    Wire(Vec<usize>),
    /// A literal value or a variable name.
    Bound(Param),
    /// A console style configuration.
    Style(Vec<StyleEntry>),
}

pub enum ParamValueModel {
    Wire(Seq<usize>),
    Bound(ParamModel),
    Style(Seq<(Seq<char>, StyleOverride)>),
}

impl View for ParamValue {
    type V = ParamValueModel;

    open spec fn view(&self) -> ParamValueModel {
        match self {
            ParamValue::Wire(w) => ParamValueModel::Wire(w@),
            ParamValue::Bound(p) => ParamValueModel::Bound(p@),
            ParamValue::Style(s) => ParamValueModel::Style(style_config_view(s@)),
        }
    }
}

/// What a getter returns for an index that the node does not have.
pub open spec fn no_param() -> ParamValueModel {
    ParamValueModel::Bound(ParamModel::Literal(ValueModel::Nil))
}

fn copy_wire(w: &Vec<usize>) -> (r: Vec<usize>)
    ensures
        r@ == w@,
{
    let r = w.clone();
    assert(r@ =~= w@);
    r
}

fn copy_style(c: &Vec<StyleEntry>) -> (r: Vec<StyleEntry>)
    ensures
        style_config_view(r@) == style_config_view(c@),
{
    let mut r: Vec<StyleEntry> = Vec::new();
    let mut i: usize = 0;
    while i < c.len()
        invariant
            i <= c.len(),
            r@.len() == i,
            style_config_view(r@) == style_config_view(c@.take(i as int)),
        decreases c.len() - i,
    {
        let ghost prev = r@;
        r.push(StyleEntry { key: c[i].key.clone(), style: c[i].style });
        assert forall|j: int| 0 <= j < i + 1 implies #[trigger] style_config_view(r@)[j]
            == style_config_view(c@.take(i + 1))[j] by {
            if j < i {
                assert(r@[j] == prev[j]);
                assert(style_config_view(prev)[j] == style_config_view(c@.take(i as int))[j]);
                assert(c@.take(i as int)[j] == c@.take(i + 1)[j]);
            }
        }
        assert(style_config_view(r@) =~= style_config_view(c@.take(i + 1)));
        i = i + 1;
    }
    assert(c@.take(i as int) =~= c@);
    r
}

/// 1.0 as an IEEE-754 double, the default scale of an image button.
pub const UNIT_SCALE_BITS: u64 = 0x3FF0_0000_0000_0000;

impl Panels {
    /// A panel container drawn on the context in variable `GUI.Root`, with
    /// every slot empty.
    pub fn new() -> (p: Panels)
        ensures
            p.context@ == ParamModel::Variable(root_var()),
            p.top@.len() == 0 && p.left@.len() == 0 && p.right@.len() == 0 && p.bottom@.len() == 0
                && p.center@.len() == 0,
            slot_order(p).len() == 0,
    {
        let p = Panels {
            context: Param::Variable(crate::binding::root_name()),
            top: Vec::new(),
            left: Vec::new(),
            center: Vec::new(),
            right: Vec::new(),
            bottom: Vec::new(),
        };
        proof {
            reveal_with_fuel(slots_from, 6);
        }
        p
    }
}

impl Indent {
    pub fn new() -> (x: Indent)
        ensures
            x.contents@.len() == 0,
    {
        Indent { contents: Vec::new() }
    }

    /// Sets parameter `index`: 0 is the contents wire.
    pub fn setParam(&mut self, index: i32, value: ParamValue) -> (r: Result<(), GuiError>)
        ensures
            index == 0 && value@ is Wire ==> r is Ok && final(self).contents@ == value@->Wire_0,
            index != 0 ==> r == Err::<(), GuiError>(GuiError::InvalidParameter) && final(self).contents@
                == old(self).contents@,
            index == 0 && !(value@ is Wire) ==> r == Err::<(), GuiError>(GuiError::TypeMismatch)
                && final(self).contents@ == old(self).contents@,
    {
        if index != 0 {
            return Err(GuiError::InvalidParameter);
        }
        match value {
            ParamValue::Wire(w) => {
                self.contents = w;
                Ok(())
            },
            _ => Err(GuiError::TypeMismatch),
        }
    }

    pub fn getParam(&self, index: i32) -> (v: ParamValue)
        ensures
            index == 0 ==> v@ == ParamValueModel::Wire(self.contents@),
            index != 0 ==> v@ == no_param(),
    {
        if index == 0 {
            ParamValue::Wire(copy_wire(&self.contents))
        } else {
            ParamValue::Bound(Param::Literal(Value::Nil))
        }
    }
}

impl Console {
    pub fn new() -> (c: Console)
        ensures
            c.style@.len() == 0,
    {
        Console { style: Vec::new() }
    }

    /// Sets parameter `index`: 0 is the style configuration.
    pub fn setParam(&mut self, index: i32, value: ParamValue) -> (r: Result<(), GuiError>)
        ensures
            index == 0 && value@ is Style ==> r is Ok && style_config_view(final(self).style@) == value@->Style_0,
            index != 0 ==> r == Err::<(), GuiError>(GuiError::InvalidParameter),
            index == 0 && !(value@ is Style) ==> r == Err::<(), GuiError>(GuiError::TypeMismatch),
            r is Err ==> style_config_view(final(self).style@) == style_config_view(old(self).style@),
    {
        if index != 0 {
            return Err(GuiError::InvalidParameter);
        }
        match value {
            ParamValue::Style(s) => {
                self.style = s;
                Ok(())
            },
            _ => Err(GuiError::TypeMismatch),
        }
    }

    pub fn getParam(&self, index: i32) -> (v: ParamValue)
        ensures
            index == 0 ==> v@ == ParamValueModel::Style(style_config_view(self.style@)),
            index != 0 ==> v@ == no_param(),
    {
        if index == 0 {
            ParamValue::Style(copy_style(&self.style))
        } else {
            ParamValue::Bound(Param::Literal(Value::Nil))
        }
    }
}

impl ColorInput {
    pub fn new() -> (c: ColorInput)
        ensures
            c.variable@ == ParamModel::Literal(ValueModel::Nil),
    {
        ColorInput { variable: Param::Literal(Value::Nil) }
    }

    /// Sets parameter `index`: 0 is the bound variable.
    pub fn setParam(&mut self, index: i32, value: ParamValue) -> (r: Result<(), GuiError>)
        ensures
            index == 0 && value@ is Bound ==> r is Ok && final(self).variable@ == value@->Bound_0,
            index != 0 ==> r == Err::<(), GuiError>(GuiError::InvalidParameter),
            index == 0 && !(value@ is Bound) ==> r == Err::<(), GuiError>(GuiError::TypeMismatch),
            r is Err ==> final(self).variable@ == old(self).variable@,
    {
        if index != 0 {
            return Err(GuiError::InvalidParameter);
        }
        match value {
            ParamValue::Bound(p) => {
                self.variable = p;
                Ok(())
            },
            _ => Err(GuiError::TypeMismatch),
        }
    }

    pub fn getParam(&self, index: i32) -> (v: ParamValue)
        ensures
            index == 0 ==> v@ == ParamValueModel::Bound(self.variable@),
            index != 0 ==> v@ == no_param(),
    {
        if index == 0 {
            ParamValue::Bound(self.variable.duplicate())
        } else {
            ParamValue::Bound(Param::Literal(Value::Nil))
        }
    }
}

impl ProgressBar {
    pub fn new() -> (b: ProgressBar)
        ensures
            b.overlay@ == ParamModel::Literal(ValueModel::Nil),
            b.desired_width@ == ParamModel::Literal(ValueModel::Nil),
    {
        ProgressBar { overlay: Param::Literal(Value::Nil), desired_width: Param::Literal(Value::Nil) }
    }

    /// Sets parameter `index`: 0 is the overlay text, 1 the desired width.
    pub fn setParam(&mut self, index: i32, value: ParamValue) -> (r: Result<(), GuiError>)
        ensures
            index == 0 && value@ is Bound ==> r is Ok && final(self).overlay@ == value@->Bound_0
                && final(self).desired_width@ == old(self).desired_width@,
            index == 1 && value@ is Bound ==> r is Ok && final(self).desired_width@ == value@->Bound_0
                && final(self).overlay@ == old(self).overlay@,
            index != 0 && index != 1 ==> r == Err::<(), GuiError>(GuiError::InvalidParameter),
            (index == 0 || index == 1) && !(value@ is Bound) ==> r == Err::<(), GuiError>(GuiError::TypeMismatch),
            r is Err ==> final(self).overlay@ == old(self).overlay@ && final(self).desired_width@
                == old(self).desired_width@,
    {
        if index != 0 && index != 1 {
            return Err(GuiError::InvalidParameter);
        }
        match value {
            ParamValue::Bound(p) => {
                if index == 0 {
                    self.overlay = p;
                } else {
                    self.desired_width = p;
                }
                Ok(())
            },
            _ => Err(GuiError::TypeMismatch),
        }
    }

    pub fn getParam(&self, index: i32) -> (v: ParamValue)
        ensures
            index == 0 ==> v@ == ParamValueModel::Bound(self.overlay@),
            index == 1 ==> v@ == ParamValueModel::Bound(self.desired_width@),
            index != 0 && index != 1 ==> v@ == no_param(),
    {
        if index == 0 {
            ParamValue::Bound(self.overlay.duplicate())
        } else if index == 1 {
            ParamValue::Bound(self.desired_width.duplicate())
        } else {
            ParamValue::Bound(Param::Literal(Value::Nil))
        }
    }
}

impl ImageButton {
    /// No action, a scale of one on both axes, and no selection state.
    pub fn new() -> (b: ImageButton)
        ensures
            b.action@.len() == 0,
            b.scale@ == ParamModel::Literal(ValueModel::Float2(UNIT_SCALE_BITS, UNIT_SCALE_BITS)),
            b.selected@ == ParamModel::Literal(ValueModel::Nil),
    {
        ImageButton {
            action: Vec::new(),
            scale: Param::Literal(Value::Float2(UNIT_SCALE_BITS, UNIT_SCALE_BITS)),
            selected: Param::Literal(Value::Nil),
        }
    }

    /// Sets parameter `index`: 0 is the action wire, 1 the scale, 2 the
    /// selection state.
    pub fn setParam(&mut self, index: i32, value: ParamValue) -> (r: Result<(), GuiError>)
        ensures
            index == 0 && value@ is Wire ==> r is Ok && final(self).action@ == value@->Wire_0,
            index == 1 && value@ is Bound ==> r is Ok && final(self).scale@ == value@->Bound_0,
            index == 2 && value@ is Bound ==> r is Ok && final(self).selected@ == value@->Bound_0,
            !(0 <= index <= 2) ==> r == Err::<(), GuiError>(GuiError::InvalidParameter),
            index == 0 && !(value@ is Wire) ==> r == Err::<(), GuiError>(GuiError::TypeMismatch),
            (index == 1 || index == 2) && !(value@ is Bound) ==> r == Err::<(), GuiError>(GuiError::TypeMismatch),
            index != 0 || r is Err ==> final(self).action@ == old(self).action@,
            index != 1 || r is Err ==> final(self).scale@ == old(self).scale@,
            index != 2 || r is Err ==> final(self).selected@ == old(self).selected@,
    {
        match (index, value) {
            (0, ParamValue::Wire(w)) => {
                self.action = w;
                Ok(())
            },
            (1, ParamValue::Bound(p)) => {
                self.scale = p;
                Ok(())
            },
            (2, ParamValue::Bound(p)) => {
                self.selected = p;
                Ok(())
            },
            (0, _) | (1, _) | (2, _) => Err(GuiError::TypeMismatch),
            _ => Err(GuiError::InvalidParameter),
        }
    }

    pub fn getParam(&self, index: i32) -> (v: ParamValue)
        ensures
            index == 0 ==> v@ == ParamValueModel::Wire(self.action@),
            index == 1 ==> v@ == ParamValueModel::Bound(self.scale@),
            index == 2 ==> v@ == ParamValueModel::Bound(self.selected@),
            !(0 <= index <= 2) ==> v@ == no_param(),
    {
        if index == 0 {
            ParamValue::Wire(copy_wire(&self.action))
        } else if index == 1 {
            ParamValue::Bound(self.scale.duplicate())
        } else if index == 2 {
            ParamValue::Bound(self.selected.duplicate())
        } else {
            ParamValue::Bound(Param::Literal(Value::Nil))
        }
    }
}

} // verus!

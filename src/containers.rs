use vstd::prelude::*;
use crate::registry::{enums_view, names_view, Registry};

verus! {

/// Where a floating overlay is anchored: three horizontal by three vertical
/// positions.
#[derive(Clone, Copy, Debug, PartialEq, Eq, Hash, Structural)]
pub enum Anchor {
    TopLeft,
    Left,
    BottomLeft,
    Top,
    Center,
    Bottom,
    TopRight,
    Right,
    BottomRight,
}

impl Anchor {
    /// The host value of the anchor: the vertical position in the high
    /// nibble, the horizontal one in the low nibble.
    pub open spec fn spec_value(self) -> u8 {
        match self {
            Anchor::TopLeft => 0x00,
            Anchor::Left => 0x10,
            Anchor::BottomLeft => 0x20,
            Anchor::Top => 0x01,
            Anchor::Center => 0x11,
            Anchor::Bottom => 0x21,
            Anchor::TopRight => 0x02,
            Anchor::Right => 0x12,
            Anchor::BottomRight => 0x22,
        }
    }

    pub fn value(&self) -> (v: u8)
        ensures
            v == self.spec_value(),
    {
        match self {
            Anchor::TopLeft => 0x00,
            Anchor::Left => 0x10,
            Anchor::BottomLeft => 0x20,
            Anchor::Top => 0x01,
            Anchor::Center => 0x11,
            Anchor::Bottom => 0x21,
            Anchor::TopRight => 0x02,
            Anchor::Right => 0x12,
            Anchor::BottomRight => 0x22,
        }
    }

    /// The anchor of a host value, if it is one.
    pub fn from_value(v: u8) -> (r: Option<Anchor>)
        ensures
            r matches Some(a) ==> a.spec_value() == v,
            r is None ==> forall|a: Anchor| a.spec_value() != v,
    {
        let r = if v == 0x00 {
            Some(Anchor::TopLeft)
        } else if v == 0x10 {
            Some(Anchor::Left)
        } else if v == 0x20 {
            Some(Anchor::BottomLeft)
        } else if v == 0x01 {
            Some(Anchor::Top)
        } else if v == 0x11 {
            Some(Anchor::Center)
        } else if v == 0x21 {
            Some(Anchor::Bottom)
        } else if v == 0x02 {
            Some(Anchor::TopRight)
        } else if v == 0x12 {
            Some(Anchor::Right)
        } else if v == 0x22 {
            Some(Anchor::BottomRight)
        } else {
            None
        };
        r
    }
}

/// Registers the layout containers and their enumeration types.
pub fn registerShards(reg: &mut Registry)
    ensures
        names_view(final(reg).kinds@) == names_view(old(reg).kinds@) + seq![
            "UI.Area"@,
            "UI.Scope"@,
            "UI.Window"@,
            "UI.BottomPanel"@,
            "UI.CentralPanel"@,
            "UI.LeftPanel"@,
            "UI.RightPanel"@,
            "UI.TopPanel"@,
        ],
        enums_view(final(reg).enums@) == enums_view(old(reg).enums@) + seq![
            ("Anchor"@, (0x65u8, 0x67u8, 0x41u8, 0x6eu8)),
            ("WindowFlags"@, (0x65u8, 0x67u8, 0x57u8, 0x46u8)),
        ],
{
    reg.add_kind("UI.Area");
    reg.add_enum("Anchor", (0x65, 0x67, 0x41, 0x6e));
    reg.add_kind("UI.Scope");
    reg.add_kind("UI.Window");
    reg.add_enum("WindowFlags", (0x65, 0x67, 0x57, 0x46));
    reg.add_kind("UI.BottomPanel");
    reg.add_kind("UI.CentralPanel");
    reg.add_kind("UI.LeftPanel");
    reg.add_kind("UI.RightPanel");
    reg.add_kind("UI.TopPanel");
    assert(names_view(reg.kinds@) =~= names_view(old(reg).kinds@) + seq![
        "UI.Area"@,
        "UI.Scope"@,
        "UI.Window"@,
        "UI.BottomPanel"@,
        "UI.CentralPanel"@,
        "UI.LeftPanel"@,
        "UI.RightPanel"@,
        "UI.TopPanel"@,
    ]);
    assert(enums_view(reg.enums@) =~= enums_view(old(reg).enums@) + seq![
        ("Anchor"@, (0x65u8, 0x67u8, 0x41u8, 0x6eu8)),
        ("WindowFlags"@, (0x65u8, 0x67u8, 0x57u8, 0x46u8)),
    ]);
}

} // verus!

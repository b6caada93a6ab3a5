use shards_gui::containers::Anchor;
use shards_gui::nodes::{ColorInput, Console, ImageButton, Indent, ParamValue, Panels, ProgressBar};
use shards_gui::registry::Registry;
use shards_gui::types::{GuiError, Param, Value};

#[test]
fn register_gui_and_containers() {
    let mut reg = Registry::new();
    shards_gui::gui::registerShards(&mut reg);
    assert_eq!(reg.kinds, vec!["GUI".to_string(), "GUI.Panels".to_string()]);
    shards_gui::containers::registerShards(&mut reg);
    assert_eq!(reg.kinds.len(), 10);
    assert_eq!(reg.kinds[2], "UI.Area");
    assert_eq!(reg.kinds[9], "UI.TopPanel");
    assert_eq!(reg.enums.len(), 2);
    assert_eq!(reg.enums[0].name, "Anchor");
    assert_eq!(reg.enums[0].code, (b'e', b'g', b'A', b'n'));
    assert_eq!(reg.enums[1].code, (b'e', b'g', b'W', b'F'));
}

#[test]
fn anchor_values() {
    assert_eq!(Anchor::TopLeft.value(), 0x00);
    assert_eq!(Anchor::Center.value(), 0x11);
    assert_eq!(Anchor::BottomRight.value(), 0x22);
    assert_eq!(Anchor::from_value(0x12), Some(Anchor::Right));
    assert_eq!(Anchor::from_value(0x33), None);
}

#[test]
fn indent_params() {
    let mut x = Indent::new();
    assert_eq!(x.setParam(0, ParamValue::Wire(vec![3, 4])), Ok(()));
    assert_eq!(x.contents, vec![3, 4]);
    assert_eq!(x.setParam(1, ParamValue::Wire(vec![])), Err(GuiError::InvalidParameter));
    assert_eq!(x.setParam(0, ParamValue::Bound(Param::Literal(Value::Nil))), Err(GuiError::TypeMismatch));
    assert!(matches!(x.getParam(0), ParamValue::Wire(w) if w == vec![3, 4]));
    assert!(matches!(x.getParam(5), ParamValue::Bound(Param::Literal(Value::Nil))));
}

#[test]
fn leaf_params() {
    let mut c = ColorInput::new();
    assert_eq!(c.setParam(0, ParamValue::Bound(Param::Variable("c".to_string()))), Ok(()));
    assert!(matches!(c.getParam(0), ParamValue::Bound(Param::Variable(n)) if n == "c"));
    assert_eq!(c.setParam(2, ParamValue::Wire(vec![])), Err(GuiError::InvalidParameter));

    let mut b = ProgressBar::new();
    assert_eq!(b.setParam(1, ParamValue::Bound(Param::Literal(Value::Float(7)))), Ok(()));
    assert!(matches!(b.getParam(1), ParamValue::Bound(Param::Literal(Value::Float(7)))));
    assert!(matches!(b.getParam(0), ParamValue::Bound(Param::Literal(Value::Nil))));
    assert_eq!(b.setParam(2, ParamValue::Bound(Param::Literal(Value::Nil))), Err(GuiError::InvalidParameter));

    let mut i = ImageButton::new();
    assert!(matches!(i.getParam(1), ParamValue::Bound(Param::Literal(Value::Float2(a, b))) if a == 0x3FF0_0000_0000_0000 && b == a));
    assert_eq!(i.setParam(0, ParamValue::Wire(vec![9])), Ok(()));
    assert_eq!(i.setParam(2, ParamValue::Wire(vec![9])), Err(GuiError::TypeMismatch));
    assert_eq!(i.setParam(3, ParamValue::Wire(vec![9])), Err(GuiError::InvalidParameter));
    assert_eq!(i.action, vec![9]);

    let mut k = Console::new();
    assert_eq!(k.setParam(0, ParamValue::Style(vec![])), Ok(()));
    assert_eq!(k.setParam(0, ParamValue::Wire(vec![])), Err(GuiError::TypeMismatch));
}

#[test]
fn panels_default_slots() {
    let p = Panels::new();
    assert_eq!(p.slots().len(), 0);
    assert!(matches!(p.context, Param::Variable(ref n) if n == "GUI.Root"));
}


use shards_gui::binding::ExposedInfo;
use shards_gui::console::{StyleEntry, StyleOverride};
use shards_gui::graph::{Call, DrawOp, FrameInput, Graph, NodeRun, Phase, Runtime, SlotVisit};
use shards_gui::ids::EguiId;
use shards_gui::nodes::{ColorInput, Console, ImageButton, Indent, NodeKind, Panels, ProgressBar, Slot};
use shards_gui::types::{Color, GuiError, ImageRef, Param, Value, VarType};

fn root_scope() -> Vec<ExposedInfo> {
    vec![ExposedInfo { name: "GUI.Root".to_string(), exposed_type: VarType::Context }]
}

fn runtime_for(g: &Graph) -> Runtime {
    let mut rt = Runtime::new(g.nodes.len());
    rt.set_var("GUI.Root", Value::Context(7));
    rt
}

fn visits(rt: &Runtime, node: usize, call: Call) -> Vec<Slot> {
    rt.journal.iter().filter(|v: &&SlotVisit| v.node == node && v.call == call).map(|v| v.slot).collect()
}

fn text_of(v: &Value) -> Option<String> {
    match v {
        Value::Str(s) => Some(s.clone()),
        _ => None,
    }
}

fn central_console_graph() -> Graph {
    let mut p = Panels::new();
    p.center = vec![1];
    Graph { nodes: vec![NodeKind::Panels(p), NodeKind::Console(Console::new())] }
}

#[test]
fn round_trip_central_console() {
    let g = central_console_graph();
    let mut rt = runtime_for(&g);
    let mut scope = root_scope();
    assert_eq!(g.compose_node(0, &mut rt, &mut scope, VarType::String), Ok(VarType::String));
    assert_eq!(g.warmup_node(0, &mut rt), Ok(()));
    assert_eq!(rt.states[0].phase, Phase::Warm);
    let out = g.activate_node(0, &mut rt, &Value::Str("hello".to_string())).unwrap();
    assert_eq!(text_of(&out), Some("hello".to_string()));
    g.cleanup_node(0, &mut rt);
    assert_eq!(rt.states[0].phase, Phase::Cool);
    assert_eq!(rt.stack.depth(), 0);
}

#[test]
fn stack_depth_restored_after_failed_child() {
    let mut p = Panels::new();
    p.center = vec![1];
    let g = Graph { nodes: vec![NodeKind::Panels(p), NodeKind::ProgressBar(ProgressBar::new())] };
    let mut rt = runtime_for(&g);
    assert_eq!(g.warmup_node(0, &mut rt), Ok(()));
    // a progress bar wants a float: the nested activation fails
    let r = g.activate_node(0, &mut rt, &Value::Str("x".to_string()));
    assert!(matches!(r, Err(GuiError::ActivationError)));
    assert_eq!(rt.stack.depth(), 0);
    let r = g.activate_node(0, &mut rt, &Value::Float(0x3FE0_0000_0000_0000));
    assert!(r.is_ok());
    assert_eq!(rt.stack.depth(), 0);
}

#[test]
fn leaf_without_parent_fails() {
    let g = Graph { nodes: vec![NodeKind::Console(Console::new())] };
    let mut rt = runtime_for(&g);
    let r = g.activate_node(0, &mut rt, &Value::Str("log".to_string()));
    assert!(matches!(r, Err(GuiError::NoActiveSurface)));
    assert_eq!(rt.ops.len(), 0);
    assert_eq!(rt.stack.depth(), 0);
}

#[test]
fn leaf_compose_without_surface_is_missing_dependency() {
    let g = Graph { nodes: vec![NodeKind::Console(Console::new())] };
    let mut rt = runtime_for(&g);
    let mut scope = root_scope();
    assert_eq!(g.compose_node(0, &mut rt, &mut scope, VarType::String), Err(GuiError::MissingDependency));
}

fn five_slot_graph() -> Graph {
    let mut p = Panels::new();
    p.top = vec![1];
    p.left = vec![2];
    p.right = vec![3];
    p.bottom = vec![4];
    p.center = vec![5];
    let mut nodes = vec![NodeKind::Panels(p)];
    for _ in 0..5 {
        nodes.push(NodeKind::Indent(Indent::new()));
    }
    Graph { nodes }
}

#[test]
fn slots_processed_peripheral_first() {
    let g = five_slot_graph();
    let mut rt = runtime_for(&g);
    let mut scope = root_scope();
    assert!(g.compose_node(0, &mut rt, &mut scope, VarType::Nil).is_ok());
    assert!(g.warmup_node(0, &mut rt).is_ok());
    assert!(g.activate_node(0, &mut rt, &Value::Nil).is_ok());
    g.cleanup_node(0, &mut rt);
    let order = vec![Slot::Top, Slot::Left, Slot::Right, Slot::Bottom, Slot::Center];
    for call in [Call::Compose, Call::Warmup, Call::Activate, Call::Cleanup] {
        assert_eq!(visits(&rt, 0, call), order);
    }
}

#[test]
fn empty_slots_get_no_call() {
    let mut p = Panels::new();
    p.left = vec![1];
    p.center = vec![2];
    let g = Graph {
        nodes: vec![NodeKind::Panels(p), NodeKind::Indent(Indent::new()), NodeKind::Indent(Indent::new())],
    };
    let mut rt = runtime_for(&g);
    let mut scope = root_scope();
    assert!(g.compose_node(0, &mut rt, &mut scope, VarType::Nil).is_ok());
    assert!(g.warmup_node(0, &mut rt).is_ok());
    assert!(g.activate_node(0, &mut rt, &Value::Nil).is_ok());
    g.cleanup_node(0, &mut rt);
    for call in [Call::Compose, Call::Warmup, Call::Activate, Call::Cleanup] {
        assert_eq!(visits(&rt, 0, call), vec![Slot::Left, Slot::Center]);
    }
}

#[test]
fn cleanup_is_idempotent() {
    let g = central_console_graph();
    let mut rt = runtime_for(&g);
    assert!(g.warmup_node(0, &mut rt).is_ok());
    g.cleanup_node(0, &mut rt);
    let n = rt.journal.len();
    g.cleanup_node(0, &mut rt);
    assert_eq!(rt.journal.len(), n);
    assert_eq!(rt.states[0].phase, Phase::Cool);
}

#[test]
fn cleanup_of_never_warmed_node_is_noop() {
    let g = central_console_graph();
    let mut rt = runtime_for(&g);
    g.cleanup_node(0, &mut rt);
    assert_eq!(rt.journal.len(), 0);
    assert_eq!(rt.states[0].phase, Phase::Declared);
}

#[test]
fn warmup_without_context_fails_and_rolls_back() {
    let mut outer = Panels::new();
    outer.top = vec![1];
    outer.center = vec![2];
    let mut inner = Panels::new();
    inner.context = Param::Variable("Missing".to_string());
    inner.center = vec![3];
    let g = Graph {
        nodes: vec![
            NodeKind::Panels(outer),
            NodeKind::Indent(Indent::new()),
            NodeKind::Panels(inner),
            NodeKind::Indent(Indent::new()),
        ],
    };
    let mut rt = runtime_for(&g);
    assert_eq!(g.warmup_node(0, &mut rt), Err(GuiError::SetupFailure));
    assert_eq!(visits(&rt, 0, Call::Warmup), vec![Slot::Top, Slot::Center]);
    // the top slot, already warmed, is cleaned up before the error surfaces
    assert_eq!(visits(&rt, 0, Call::Cleanup), vec![Slot::Top]);
    assert_eq!(rt.states[1].phase, Phase::Cool);
    assert_ne!(rt.states[0].phase, Phase::Warm);
}

#[test]
fn indent_draws_inside_parent() {
    let mut p = Panels::new();
    p.center = vec![1];
    let mut x = Indent::new();
    x.contents = vec![2];
    let g = Graph {
        nodes: vec![NodeKind::Panels(p), NodeKind::Indent(x), NodeKind::Console(Console::new())],
    };
    let mut rt = runtime_for(&g);
    let mut scope = root_scope();
    assert_eq!(g.compose_node(0, &mut rt, &mut scope, VarType::String), Ok(VarType::String));
    assert!(g.warmup_node(0, &mut rt).is_ok());
    let out = g.activate_node(0, &mut rt, &Value::Str("[info] hi".to_string())).unwrap();
    assert_eq!(text_of(&out), Some("[info] hi".to_string()));
    assert_eq!(rt.ops.len(), 5);
}

#[test]
fn indent_without_parent_fails() {
    let mut x = Indent::new();
    x.contents = vec![1];
    let g = Graph { nodes: vec![NodeKind::Indent(x), NodeKind::Console(Console::new())] };
    let mut rt = runtime_for(&g);
    let r = g.activate_node(0, &mut rt, &Value::Str("a".to_string()));
    assert!(matches!(r, Err(GuiError::NoActiveSurface)));
}

#[test]
fn color_input_exposes_and_publishes_variable() {
    let mut p = Panels::new();
    p.center = vec![1];
    let mut c = ColorInput::new();
    c.variable = Param::Variable("tint".to_string());
    let g = Graph { nodes: vec![NodeKind::Panels(p), NodeKind::ColorInput(c)] };
    let mut rt = runtime_for(&g);
    let mut scope = root_scope();
    assert!(g.compose_node(0, &mut rt, &mut scope, VarType::Nil).is_ok());
    assert!(rt.states[1].should_expose);
    let exposed = g.exposed_variables(1, &rt);
    assert_eq!(exposed.len(), 1);
    assert_eq!(exposed[0].name, "tint");
    assert!(g.warmup_node(0, &mut rt).is_ok());
    assert!(matches!(rt.get_var("tint"), Some(Value::Color(_))));
    let red = Color { r: 255, g: 0, b: 0, a: 255 };
    rt.begin_frame(FrameInput { clicked: vec![], color_edits: vec![(EguiId::new(1, 0), red)] });
    assert!(g.activate_node(0, &mut rt, &Value::Nil).is_ok());
    assert!(matches!(rt.get_var("tint"), Some(Value::Color(c)) if c == red));
}

#[test]
fn color_input_shares_existing_variable() {
    let mut c = ColorInput::new();
    c.variable = Param::Variable("tint".to_string());
    let g = Graph { nodes: vec![NodeKind::ColorInput(c)] };
    let mut rt = runtime_for(&g);
    let mut scope = vec![
        ExposedInfo { name: "UI.Parents".to_string(), exposed_type: VarType::UiParents },
        ExposedInfo { name: "tint".to_string(), exposed_type: VarType::Color },
    ];
    assert_eq!(g.compose_node(0, &mut rt, &mut scope, VarType::Nil), Ok(VarType::Color));
    assert!(!rt.states[0].should_expose);
    assert_eq!(scope.len(), 2);
    assert_eq!(g.exposed_variables(0, &rt).len(), 0);
}

#[test]
fn color_input_type_clash() {
    let mut c = ColorInput::new();
    c.variable = Param::Variable("tint".to_string());
    let g = Graph { nodes: vec![NodeKind::ColorInput(c)] };
    let mut rt = runtime_for(&g);
    let mut scope = vec![
        ExposedInfo { name: "UI.Parents".to_string(), exposed_type: VarType::UiParents },
        ExposedInfo { name: "tint".to_string(), exposed_type: VarType::Bool },
    ];
    assert_eq!(g.compose_node(0, &mut rt, &mut scope, VarType::Nil), Err(GuiError::TypeMismatch));
    assert_eq!(scope.len(), 2);
}

#[test]
fn image_button_click_toggles_and_runs_action() {
    let mut p = Panels::new();
    p.center = vec![1];
    let mut b = ImageButton::new();
    b.selected = Param::Variable("on".to_string());
    b.action = vec![2];
    let g = Graph {
        nodes: vec![NodeKind::Panels(p), NodeKind::ImageButton(b), NodeKind::Indent(Indent::new())],
    };
    let mut rt = runtime_for(&g);
    let mut scope = root_scope();
    assert_eq!(g.compose_node(0, &mut rt, &mut scope, VarType::Image), Ok(VarType::Image));
    assert!(g.warmup_node(0, &mut rt).is_ok());
    assert!(matches!(rt.get_var("on"), Some(Value::Bool(false))));
    let img = Value::Image(ImageRef { data: 9, width: 4, height: 4 });
    let out = g.activate_node(0, &mut rt, &img);
    assert!(out.is_ok());
    assert!(matches!(rt.get_var("on"), Some(Value::Bool(false))));
    rt.begin_frame(FrameInput { clicked: vec![EguiId::new(1, 0)], color_edits: vec![] });
    assert!(g.activate_node(0, &mut rt, &img).is_ok());
    assert!(matches!(rt.get_var("on"), Some(Value::Bool(true))));
}

#[test]
fn image_button_with_other_input_fails_at_activation() {
    let mut p = Panels::new();
    p.center = vec![1];
    let g = Graph { nodes: vec![NodeKind::Panels(p), NodeKind::ImageButton(ImageButton::new())] };
    let mut rt = runtime_for(&g);
    let mut scope = root_scope();
    assert_eq!(g.compose_node(0, &mut rt, &mut scope, VarType::String), Ok(VarType::String));
    assert_eq!(rt.states[1].strategy, shards_gui::graph::Strategy::Unsupported);
    assert!(g.warmup_node(0, &mut rt).is_ok());
    let r = g.activate_node(0, &mut rt, &Value::Str("x".to_string()));
    assert!(matches!(r, Err(GuiError::ActivationError)));
}

#[test]
fn required_variables_by_kind() {
    let g = central_console_graph();
    let r0 = g.required_variables(0);
    assert_eq!(r0.len(), 1);
    assert_eq!(r0[0].name, "GUI.Root");
    assert_eq!(r0[0].exposed_type, VarType::Context);
    let r1 = g.required_variables(1);
    assert_eq!(r1[0].name, "UI.Parents");
}

#[test]
fn root_creates_context() {
    let g = Graph { nodes: vec![NodeKind::Root] };
    let mut rt = Runtime::new(1);
    let mut scope = Vec::new();
    assert_eq!(g.compose_node(0, &mut rt, &mut scope, VarType::Nil), Ok(VarType::Context));
    assert_eq!(scope.len(), 1);
    assert!(g.warmup_node(0, &mut rt).is_ok());
    assert!(matches!(rt.get_var("GUI.Root"), Some(Value::Context(_))));
    assert!(matches!(g.activate_node(0, &mut rt, &Value::Nil), Ok(Value::Context(_))));
}

#[test]
fn every_leaf_without_parent_fails() {
    let mut b = ImageButton::new();
    b.selected = Param::Literal(Value::Bool(true));
    let g = Graph {
        nodes: vec![
            NodeKind::Console(Console::new()),
            NodeKind::ColorInput(ColorInput::new()),
            NodeKind::ProgressBar(ProgressBar::new()),
            NodeKind::ImageButton(b),
        ],
    };
    let mut rt = runtime_for(&g);
    let mut scope = vec![ExposedInfo { name: "UI.Parents".to_string(), exposed_type: VarType::UiParents }];
    assert!(g.compose_node(3, &mut rt, &mut scope, VarType::Image).is_ok());
    let inputs = [
        Value::Str("s".to_string()),
        Value::Nil,
        Value::Float(0),
        Value::Image(ImageRef { data: 1, width: 1, height: 1 }),
    ];
    for (i, input) in inputs.iter().enumerate() {
        let r = g.activate_node(i, &mut rt, input);
        assert!(matches!(r, Err(GuiError::NoActiveSurface)));
    }
    assert_eq!(rt.ops.len(), 0);
}

#[test]
fn progress_bar_passes_value_through() {
    let mut p = Panels::new();
    p.center = vec![1];
    let mut b = ProgressBar::new();
    b.overlay = Param::Literal(Value::Str("half".to_string()));
    let g = Graph { nodes: vec![NodeKind::Panels(p), NodeKind::ProgressBar(b)] };
    let mut rt = runtime_for(&g);
    let mut scope = root_scope();
    assert_eq!(g.compose_node(0, &mut rt, &mut scope, VarType::Float), Ok(VarType::Float));
    assert!(g.warmup_node(0, &mut rt).is_ok());
    let half = 0x3FE0_0000_0000_0000u64;
    let out = g.activate_node(0, &mut rt, &Value::Float(half));
    assert!(matches!(out, Ok(Value::Float(f)) if f == half));
    assert!(rt.ops.iter().any(|op| matches!(op, DrawOp::ProgressBar { progress, overlay: Some(t), width: None, .. } if *progress == half && t == "half")));
    let mut bad = g.nodes;
    if let NodeKind::ProgressBar(b) = &mut bad[1] {
        b.desired_width = Param::Literal(Value::Bool(true));
    }
    let g2 = Graph { nodes: bad };
    let r = g2.activate_node(0, &mut rt, &Value::Float(half));
    assert!(matches!(r, Err(GuiError::ActivationError)));
    assert_eq!(rt.stack.depth(), 0);
}

#[test]
fn console_draws_with_configured_style() {
    let mut p = Panels::new();
    p.center = vec![1];
    let white = Color { r: 255, g: 255, b: 255, a: 255 };
    let mut c = Console::new();
    c.style = vec![StyleEntry {
        key: "warning".to_string(),
        style: StyleOverride { font_size: Some(16), color: Some(white), italics: None, underline: Some(true) },
    }];
    let g = Graph { nodes: vec![NodeKind::Panels(p), NodeKind::Console(c)] };
    let mut rt = runtime_for(&g);
    assert!(g.warmup_node(0, &mut rt).is_ok());
    assert!(g.activate_node(0, &mut rt, &Value::Str("[warning] w".to_string())).is_ok());
    let job = rt
        .ops
        .iter()
        .find_map(|op| match op {
            DrawOp::Console { job, .. } => Some(job),
            _ => None,
        })
        .unwrap();
    assert_eq!(job.sections.len(), 1);
    assert_eq!(job.sections[0].text, "[warning] w");
    assert_eq!(job.sections[0].format.color, white);
    assert_eq!(job.sections[0].format.font_size, 16);
    assert!(job.sections[0].format.underline);
}

fn outcomes(rt: &Runtime, node: usize, call: Call) -> Vec<bool> {
    rt.journal.iter().filter(|v: &&SlotVisit| v.node == node && v.call == call).map(|v| v.ok).collect()
}

#[test]
fn failing_slot_stops_panels_and_is_recorded() {
    let mut p = Panels::new();
    p.top = vec![1];
    p.center = vec![2];
    let g = Graph {
        nodes: vec![NodeKind::Panels(p), NodeKind::ProgressBar(ProgressBar::new()), NodeKind::Console(Console::new())],
    };
    let mut rt = runtime_for(&g);
    assert!(g.warmup_node(0, &mut rt).is_ok());
    let r = g.activate_node(0, &mut rt, &Value::Str("x".to_string()));
    assert!(matches!(r, Err(GuiError::ActivationError)));
    assert_eq!(visits(&rt, 0, Call::Activate), vec![Slot::Top]);
    assert_eq!(outcomes(&rt, 0, Call::Activate), vec![false]);
}

#[test]
fn indent_fails_when_contents_fail() {
    let mut p = Panels::new();
    p.center = vec![1];
    let mut x = Indent::new();
    x.contents = vec![2];
    let g = Graph {
        nodes: vec![NodeKind::Panels(p), NodeKind::Indent(x), NodeKind::ProgressBar(ProgressBar::new())],
    };
    let mut rt = runtime_for(&g);
    assert!(g.warmup_node(0, &mut rt).is_ok());
    let r = g.activate_node(0, &mut rt, &Value::Str("x".to_string()));
    assert!(matches!(r, Err(GuiError::ActivationError)));
    assert_eq!(outcomes(&rt, 1, Call::Activate), vec![false]);
    assert_eq!(rt.stack.depth(), 0);
}

#[test]
fn texture_reloads_only_for_new_buffer() {
    let mut p = Panels::new();
    p.center = vec![1];
    let g = Graph { nodes: vec![NodeKind::Panels(p), NodeKind::ImageButton(ImageButton::new())] };
    let mut rt = runtime_for(&g);
    let mut scope = root_scope();
    assert!(g.compose_node(0, &mut rt, &mut scope, VarType::Image).is_ok());
    assert!(g.warmup_node(0, &mut rt).is_ok());
    let loads = |rt: &Runtime| rt.ops.iter().filter(|op| matches!(op, DrawOp::LoadTexture { .. })).count();
    let a = Value::Image(ImageRef { data: 1, width: 2, height: 2 });
    let b = Value::Image(ImageRef { data: 2, width: 2, height: 2 });
    assert!(g.activate_node(0, &mut rt, &a).is_ok());
    assert_eq!(loads(&rt), 1);
    rt.begin_frame(FrameInput { clicked: vec![], color_edits: vec![] });
    assert!(g.activate_node(0, &mut rt, &a).is_ok());
    assert_eq!(loads(&rt), 0);
    assert!(g.activate_node(0, &mut rt, &b).is_ok());
    assert_eq!(loads(&rt), 1);
    assert_eq!(rt.states[1].prev_image, Some(2));
}

#[test]
fn cleanup_releases_context() {
    let g = central_console_graph();
    let mut rt = runtime_for(&g);
    assert!(g.warmup_node(0, &mut rt).is_ok());
    assert_eq!(rt.states[0].context, Some(7));
    g.cleanup_node(0, &mut rt);
    assert_eq!(rt.states[0].context, None);
}

#[test]
fn nested_nodes_record_their_runs() {
    let g = central_console_graph();
    let mut rt = runtime_for(&g);
    let mut scope = root_scope();
    assert!(g.compose_node(0, &mut rt, &mut scope, VarType::String).is_ok());
    assert!(g.warmup_node(0, &mut rt).is_ok());
    assert!(g.activate_node(0, &mut rt, &Value::Str("hello".to_string())).is_ok());
    g.cleanup_node(0, &mut rt);
    for call in [Call::Compose, Call::Warmup, Call::Activate, Call::Cleanup] {
        assert!(rt.runs.contains(&NodeRun { node: 1, call, ok: true }));
        assert_eq!(*rt.runs.iter().filter(|r| r.call == call).last().unwrap(), NodeRun { node: 0, call, ok: true });
    }
}

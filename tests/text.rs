use shards_gui::binding::{declare_exposure, resolve_exposure, ExposedInfo};
use shards_gui::cache::{highlight_log_memo, FrameCache};
use shards_gui::console::{apply_style, highlight_log, key_level, LogLevel, LogTheme, StyleEntry, StyleOverride};
use shards_gui::layout::{LayoutJob, TextFormat};
use shards_gui::parent_stack::ParentStack;
use shards_gui::ids::EguiId;
use shards_gui::syntax_highlighting::{
    highlight_code_memo, layout_or_plain, CodeTheme, Highlighter, SyntectTheme,
};
use shards_gui::types::{Color, GuiError, VarType};

fn runs(j: &LayoutJob) -> Vec<(String, TextFormat)> {
    j.sections.iter().map(|s| (s.text.clone(), s.format)).collect()
}

#[test]
fn exposure_of_present_variable_is_not_duplicated() {
    let mut t = vec![ExposedInfo { name: "v".to_string(), exposed_type: VarType::Color }];
    assert_eq!(resolve_exposure(&t, "v", VarType::Color), Ok(false));
    assert_eq!(declare_exposure(&mut t, "v", VarType::Color), Ok(false));
    assert_eq!(t.len(), 1);
    assert_eq!(declare_exposure(&mut t, "v", VarType::Bool), Err(GuiError::TypeMismatch));
    assert_eq!(t.len(), 1);
    assert_eq!(declare_exposure(&mut t, "w", VarType::Bool), Ok(true));
    assert_eq!(t.len(), 2);
    assert_eq!(declare_exposure(&mut t, "w", VarType::Bool), Ok(false));
    assert_eq!(t.len(), 2);
}

#[test]
fn parent_stack_order() {
    let mut s = ParentStack::new();
    assert_eq!(s.current(), Err(GuiError::NoActiveSurface));
    assert_eq!(s.pop(), None);
    s.push(EguiId::new(1, 0), 10);
    s.push(EguiId::new(2, 3), 20);
    assert_eq!(s.current().unwrap().surface, 20);
    assert_eq!(s.pop().unwrap().scope, EguiId::new(2, 3));
    assert_eq!(s.current().unwrap().surface, 10);
    assert_eq!(s.depth(), 1);
}

#[test]
fn log_lines_split_by_level() {
    let theme = LogTheme::new();
    let job = highlight_log(&theme, "[error] bad\nok");
    let r = runs(&job);
    assert_eq!(r.len(), 4);
    assert_eq!(r[0], ("[error] bad".to_string(), theme.error));
    assert_eq!(r[1], ("\n".to_string(), theme.text));
    assert_eq!(r[2], ("o".to_string(), theme.text));
    assert_eq!(r[3], ("k".to_string(), theme.text));
    assert_eq!(job.text(), "[error] bad\nok");
}

#[test]
fn log_levels_and_default_colors() {
    let theme = LogTheme::new();
    assert_eq!(theme.trace.color, Color { r: 96, g: 96, b: 96, a: 255 });
    assert_eq!(theme.error.color, Color { r: 255, g: 128, b: 128, a: 255 });
    assert_eq!(theme.text.color, Color { r: 160, g: 160, b: 160, a: 255 });
    assert_eq!(theme.info.font_size, 12);
    let job = highlight_log(&theme, "[trace] a\n[debug] b\n[warning] c\n[info] d");
    let r = runs(&job);
    assert_eq!(r[0], ("[trace] a".to_string(), theme.trace));
    assert_eq!(r[2], ("[debug] b".to_string(), theme.debug));
    assert_eq!(r[4], ("[warning] c".to_string(), theme.warning));
    assert_eq!(r[6], ("[info] d".to_string(), theme.info));
    assert_eq!(r.len(), 7);
    assert_eq!(highlight_log(&theme, "").sections.len(), 0);
}

#[test]
fn style_overrides_recognized_keys_only() {
    let mut theme = LogTheme::new();
    let green = Color { r: 0, g: 255, b: 0, a: 255 };
    let cfg = vec![
        StyleEntry {
            key: "error".to_string(),
            style: StyleOverride { font_size: None, color: Some(green), italics: Some(true), underline: None },
        },
        StyleEntry {
            key: "bogus".to_string(),
            style: StyleOverride { font_size: Some(40), color: None, italics: None, underline: None },
        },
    ];
    apply_style(&mut theme, &cfg);
    let base = LogTheme::new();
    assert_eq!(theme.error.color, green);
    assert!(theme.error.italics);
    assert_eq!(theme.error.font_size, 12);
    assert_eq!(theme.trace, base.trace);
    assert_eq!(theme.text, base.text);
    assert_eq!(key_level("warning"), Some(LogLevel::Warning));
    assert_eq!(key_level("text"), Some(LogLevel::Text));
    assert_eq!(key_level("Error"), None);
}

#[test]
fn memo_serves_second_request_from_cache() {
    let mut cache = FrameCache::new();
    let theme = LogTheme::new();
    let (a, hit_a) = highlight_log_memo(&mut cache, 3, &theme, "[info] x");
    let (b, hit_b) = highlight_log_memo(&mut cache, 3, &theme, "[info] x");
    assert!(!hit_a);
    assert!(hit_b);
    assert_eq!(runs(&a), runs(&b));
    assert_eq!(cache.len(), 1);
    // another producer is another key
    let (_, hit_c) = highlight_log_memo(&mut cache, 4, &theme, "[info] x");
    assert!(!hit_c);
    cache.begin_frame();
    let (d, hit_d) = highlight_log_memo(&mut cache, 3, &theme, "[info] x");
    assert!(!hit_d);
    assert_eq!(runs(&d), runs(&a));
    // the stale entry was overwritten, not duplicated
    assert_eq!(cache.len(), 2);
}

#[test]
fn code_themes() {
    let d = CodeTheme::dark();
    assert!(d.dark_mode);
    assert_eq!(d.syntect_theme, SyntectTheme::Base16MochaDark);
    let l = CodeTheme::light();
    assert!(!l.dark_mode);
    assert_eq!(l.syntect_theme, SyntectTheme::SolarizedLight);
    assert_eq!(SyntectTheme::SolarizedLight.syntect_key_name(), "Solarized (light)");
    assert_eq!(SyntectTheme::Base16OceanDark.syntect_key_name(), "base16-ocean.dark");
    assert_eq!(SyntectTheme::InspiredGitHub.syntect_key_name(), "InspiredGitHub");
}

#[test]
fn code_highlighting_splits_tokens() {
    let h = Highlighter::new();
    let code = "fn main() {\n    let x = 1;\n}\n";
    let job = h.highlight(&CodeTheme::dark(), code, "rs");
    assert!(job.sections.len() > 3);
    assert_eq!(job.text(), code);
    assert!(job.sections.iter().all(|s| s.format.font_size == 14));
    let colors: std::collections::HashSet<(u8, u8, u8)> =
        job.sections.iter().map(|s| (s.format.color.r, s.format.color.g, s.format.color.b)).collect();
    assert!(colors.len() > 1);
}

#[test]
fn unknown_language_falls_back_to_plain() {
    let h = Highlighter::new();
    let job = h.highlight(&CodeTheme::dark(), "a b c", "no-such-language");
    let r = runs(&job);
    assert_eq!(r.len(), 1);
    assert_eq!(r[0].0, "a b c");
    assert_eq!(r[0].1.color, Color { r: 220, g: 220, b: 220, a: 255 });
    let job = h.highlight(&CodeTheme::light(), "a", "no-such-language");
    assert_eq!(job.sections[0].format.color, Color { r: 96, g: 96, b: 96, a: 255 });
    let plain = layout_or_plain(&CodeTheme::dark(), "zz", None);
    assert_eq!(plain.sections.len(), 1);
}

#[test]
fn code_memo_per_frame() {
    let h = Highlighter::new();
    let mut cache = FrameCache::new();
    let (a, hit_a) = highlight_code_memo(&mut cache, &h, 1, &CodeTheme::dark(), "let a = 1;", "rs");
    let (b, hit_b) = highlight_code_memo(&mut cache, &h, 1, &CodeTheme::dark(), "let a = 1;", "rs");
    assert!(!hit_a);
    assert!(hit_b);
    assert_eq!(runs(&a), runs(&b));
    let (_, hit_c) = highlight_code_memo(&mut cache, &h, 1, &CodeTheme::light(), "let a = 1;", "rs");
    assert!(!hit_c);
}

use vstd::prelude::*;
use crate::layout::{chars_of, string_of, LayoutJob, TextFormat};
use crate::types::Color;

verus! {

/// The semantic categories of log lines.
#[derive(Clone, Copy, Debug, PartialEq, Eq, Hash, Structural)]
pub enum LogLevel {
    Trace,
    Debug,
    Error,
    Warning,
    Info,
    Text,
}


/// Point size of the console's monospace font.
pub const CONSOLE_FONT_SIZE: u32 = 12;

/// One text format per log level.
#[derive(Clone, Copy, Debug, PartialEq, Eq, Hash, Structural)]
pub struct LogTheme {
    pub trace: TextFormat,
    pub debug: TextFormat,
    pub error: TextFormat,
    pub warning: TextFormat,
    pub info: TextFormat,
    pub text: TextFormat,
}

/// A partial style for one category: each field that is set replaces the
/// corresponding part of the category's format.
#[derive(Clone, Copy, Debug, PartialEq, Eq, Structural)]
pub struct StyleOverride {
    pub font_size: Option<u32>,
    pub color: Option<Color>,
    pub italics: Option<bool>,
    pub underline: Option<bool>,
}

/// `f` with the parts that `o` sets replaced.
pub open spec fn overridden(f: TextFormat, o: StyleOverride) -> TextFormat {
    TextFormat {
        font_size: match o.font_size {
            Some(x) => x,
            None => f.font_size,
        },
        color: match o.color {
            Some(x) => x,
            None => f.color,
        },
        italics: match o.italics {
            Some(x) => x,
            None => f.italics,
        },
        underline: match o.underline {
            Some(x) => x,
            None => f.underline,
        },
    }
}

/// Applies a style override to a format.
pub fn apply_override(f: TextFormat, o: &StyleOverride) -> (r: TextFormat)
    ensures
        r == overridden(f, *o),
{
    TextFormat {
        font_size: match o.font_size {
            Some(x) => x,
            None => f.font_size,
        },
        color: match o.color {
            Some(x) => x,
            None => f.color,
        },
        italics: match o.italics {
            Some(x) => x,
            None => f.italics,
        },
        underline: match o.underline {
            Some(x) => x,
            None => f.underline,
        },
    }
}

/// The configuration key of each category.
pub open spec fn level_key(l: LogLevel) -> Seq<char> {
    match l {
        LogLevel::Trace => seq!['t', 'r', 'a', 'c', 'e'],
        LogLevel::Debug => seq!['d', 'e', 'b', 'u', 'g'],
        LogLevel::Error => seq!['e', 'r', 'r', 'o', 'r'],
        LogLevel::Warning => seq!['w', 'a', 'r', 'n', 'i', 'n', 'g'],
        LogLevel::Info => seq!['i', 'n', 'f', 'o'],
        LogLevel::Text => seq!['t', 'e', 'x', 't'],
    }
}

/// The category a configuration key names, if it is a recognized key.
pub open spec fn level_of_key(k: Seq<char>) -> Option<LogLevel> {
    if k == level_key(LogLevel::Trace) {
        Some(LogLevel::Trace)
    } else if k == level_key(LogLevel::Debug) {
        Some(LogLevel::Debug)
    } else if k == level_key(LogLevel::Error) {
        Some(LogLevel::Error)
    } else if k == level_key(LogLevel::Warning) {
        Some(LogLevel::Warning)
    } else if k == level_key(LogLevel::Info) {
        Some(LogLevel::Info)
    } else if k == level_key(LogLevel::Text) {
        Some(LogLevel::Text)
    } else {
        None
    }
}

/// The tag that opens a log line of each level; plain text has none.
pub open spec fn level_tag(l: LogLevel) -> Seq<char> {
    match l {
        LogLevel::Trace => seq!['[', 't', 'r', 'a', 'c', 'e', ']'],
        LogLevel::Debug => seq!['[', 'd', 'e', 'b', 'u', 'g', ']'],
        LogLevel::Error => seq!['[', 'e', 'r', 'r', 'o', 'r', ']'],
        LogLevel::Warning => seq!['[', 'w', 'a', 'r', 'n', 'i', 'n', 'g', ']'],
        LogLevel::Info => seq!['[', 'i', 'n', 'f', 'o', ']'],
        LogLevel::Text => seq![],
    }
}

/// The level whose tag starts `s`, tried in the order trace, debug, error,
/// warning, info.
pub open spec fn tagged_level(s: Seq<char>) -> Option<LogLevel> {
    if level_tag(LogLevel::Trace).is_prefix_of(s) {
        Some(LogLevel::Trace)
    } else if level_tag(LogLevel::Debug).is_prefix_of(s) {
        Some(LogLevel::Debug)
    } else if level_tag(LogLevel::Error).is_prefix_of(s) {
        Some(LogLevel::Error)
    } else if level_tag(LogLevel::Warning).is_prefix_of(s) {
        Some(LogLevel::Warning)
    } else if level_tag(LogLevel::Info).is_prefix_of(s) {
        Some(LogLevel::Info)
    } else {
        None
    }
}

/// The number of characters before the first line break of `s` (all of
/// them when there is none).
pub open spec fn line_len(s: Seq<char>) -> nat
    decreases s.len(),
{
    if s.len() == 0 {
        0
    } else if s[0] == '\n' {
        0
    } else {
        1 + line_len(s.drop_first())
    }
}

/// The length of the first run of `s`: a tagged line up to (not including)
/// its line break, otherwise one character.
pub open spec fn first_run_len(s: Seq<char>) -> nat {
    match tagged_level(s) {
        Some(_) => line_len(s),
        None => 1,
    }
}

/// The styled runs of a console text: each line that starts with a level tag
/// is one run in that level's format; every other character is a run of its
/// own in the plain text format.
pub open spec fn log_sections(theme: LogTheme, s: Seq<char>) -> Seq<(Seq<char>, TextFormat)>
    decreases s.len(),
{
    let n = first_run_len(s);
    if s.len() == 0 || n == 0 || n > s.len() {
        Seq::empty()
    } else {
        let lvl = match tagged_level(s) {
            Some(l) => l,
            None => LogLevel::Text,
        };
        seq![(s.take(n as int), theme.spec_format(lvl))] + log_sections(theme, s.skip(n as int))
    }
}

pub proof fn lemma_line_len(s: Seq<char>)
    ensures
        line_len(s) <= s.len(),
        forall|i: int| 0 <= i < line_len(s) ==> s[i] != '\n',
        line_len(s) < s.len() ==> s[line_len(s) as int] == '\n',
    decreases s.len(),
{
    if s.len() > 0 && s[0] != '\n' {
        lemma_line_len(s.drop_first());
        assert forall|i: int| 0 <= i < line_len(s) implies s[i] != '\n' by {
            if i > 0 {
                assert(s[i] == s.drop_first()[i - 1]);
            }
        }
    }
}

/// Every non-empty text has a first run of at least one character, and no
/// longer than the text.
pub proof fn lemma_first_run(s: Seq<char>)
    requires
        s.len() > 0,
    ensures
        1 <= first_run_len(s) <= s.len(),
{
    lemma_line_len(s);
    if tagged_level(s) is Some {
        assert(s[0] == '[') by {
            assert(s[0] == s.take(1)[0]);
            let t = tagged_level(s)->0;
            assert(level_tag(t).is_prefix_of(s));
            assert(s.take(level_tag(t).len() as int)[0] == s[0]);
        }
    }
}

impl LogTheme {
    pub open spec fn spec_format(&self, l: LogLevel) -> TextFormat {
        match l {
            LogLevel::Trace => self.trace,
            LogLevel::Debug => self.debug,
            LogLevel::Error => self.error,
            LogLevel::Warning => self.warning,
            LogLevel::Info => self.info,
            LogLevel::Text => self.text,
        }
    }

    /// The format of level `l`.
    #[verifier::when_used_as_spec(spec_format)]
    pub fn format(&self, l: LogLevel) -> (f: TextFormat)
        ensures
            f == self.spec_format(l),
    {
        match l {
            LogLevel::Trace => self.trace,
            LogLevel::Debug => self.debug,
            LogLevel::Error => self.error,
            LogLevel::Warning => self.warning,
            LogLevel::Info => self.info,
            LogLevel::Text => self.text,
        }
    }

    /// The theme with the format of level `l` replaced.
    pub open spec fn with_format(self, l: LogLevel, f: TextFormat) -> LogTheme {
        match l {
            LogLevel::Trace => LogTheme { trace: f, ..self },
            LogLevel::Debug => LogTheme { debug: f, ..self },
            LogLevel::Error => LogTheme { error: f, ..self },
            LogLevel::Warning => LogTheme { warning: f, ..self },
            LogLevel::Info => LogTheme { info: f, ..self },
            LogLevel::Text => LogTheme { text: f, ..self },
        }
    }

    pub fn set_format(&mut self, l: LogLevel, f: TextFormat)
        ensures
            *final(self) == old(self).with_format(l, f),
    {
        match l {
            LogLevel::Trace => self.trace = f,
            LogLevel::Debug => self.debug = f,
            LogLevel::Error => self.error = f,
            LogLevel::Warning => self.warning = f,
            LogLevel::Info => self.info = f,
            LogLevel::Text => self.text = f,
        }
    }

    /// The built-in theme: a 12-point monospace font, with dark gray trace,
    /// light blue debug, light red error, light yellow warning, light green
    /// info and gray plain text.
    pub open spec fn spec_default() -> LogTheme {
        LogTheme {
            trace: TextFormat { font_size: CONSOLE_FONT_SIZE, color: Color { r: 96, g: 96, b: 96, a: 255 }, italics: false, underline: false },
            debug: TextFormat { font_size: CONSOLE_FONT_SIZE, color: Color { r: 173, g: 216, b: 230, a: 255 }, italics: false, underline: false },
            error: TextFormat { font_size: CONSOLE_FONT_SIZE, color: Color { r: 255, g: 128, b: 128, a: 255 }, italics: false, underline: false },
            warning: TextFormat { font_size: CONSOLE_FONT_SIZE, color: Color { r: 255, g: 255, b: 224, a: 255 }, italics: false, underline: false },
            info: TextFormat { font_size: CONSOLE_FONT_SIZE, color: Color { r: 144, g: 238, b: 144, a: 255 }, italics: false, underline: false },
            text: TextFormat { font_size: CONSOLE_FONT_SIZE, color: Color { r: 160, g: 160, b: 160, a: 255 }, italics: false, underline: false },
        }
    }

    pub fn new() -> (t: LogTheme)
        ensures
            t == LogTheme::spec_default(),
    {
        LogTheme {
            trace: TextFormat::simple(CONSOLE_FONT_SIZE, Color::rgb(96, 96, 96)),
            debug: TextFormat::simple(CONSOLE_FONT_SIZE, Color::rgb(173, 216, 230)),
            error: TextFormat::simple(CONSOLE_FONT_SIZE, Color::rgb(255, 128, 128)),
            warning: TextFormat::simple(CONSOLE_FONT_SIZE, Color::rgb(255, 255, 224)),
            info: TextFormat::simple(CONSOLE_FONT_SIZE, Color::rgb(144, 238, 144)),
            text: TextFormat::simple(CONSOLE_FONT_SIZE, Color::rgb(160, 160, 160)),
        }
    }
}

impl Default for LogTheme {
    fn default() -> (t: LogTheme)
        ensures
            t == LogTheme::spec_default(),
    {
        LogTheme::new()
    }
}

/// Whether `tag` occurs in `v` at `pos`.
fn tag_at(v: &Vec<char>, pos: usize, tag: &Vec<char>) -> (r: bool)
    requires
        pos <= v.len(),
    ensures
        r == tag@.is_prefix_of(v@.skip(pos as int)),
{
    if tag.len() > v.len() - pos {
        return false;
    }
    let mut i: usize = 0;
    while i < tag.len()
        invariant
            i <= tag.len() <= v.len() - pos,
            forall|j: int| 0 <= j < i ==> tag@[j] == v@[pos + j],
        decreases tag.len() - i,
    {
        if tag[i] != v[pos + i] {
            assert(v@.skip(pos as int)[i as int] == v@[pos + i]);
            return false;
        }
        i = i + 1;
    }
    assert(v@.skip(pos as int).take(tag@.len() as int) =~= tag@);
    true
}

/// The level whose tag opens the text at `pos`, if any.
fn tagged_level_at(v: &Vec<char>, pos: usize) -> (r: Option<LogLevel>)
    requires
        pos <= v.len(),
    ensures
        r == tagged_level(v@.skip(pos as int)),
{
    let trace = vec!['[', 't', 'r', 'a', 'c', 'e', ']'];
    let debug = vec!['[', 'd', 'e', 'b', 'u', 'g', ']'];
    let error = vec!['[', 'e', 'r', 'r', 'o', 'r', ']'];
    let warning = vec!['[', 'w', 'a', 'r', 'n', 'i', 'n', 'g', ']'];
    let info = vec!['[', 'i', 'n', 'f', 'o', ']'];
    assert(trace@ =~= level_tag(LogLevel::Trace));
    assert(debug@ =~= level_tag(LogLevel::Debug));
    assert(error@ =~= level_tag(LogLevel::Error));
    assert(warning@ =~= level_tag(LogLevel::Warning));
    assert(info@ =~= level_tag(LogLevel::Info));
    if tag_at(v, pos, &trace) {
        Some(LogLevel::Trace)
    } else if tag_at(v, pos, &debug) {
        Some(LogLevel::Debug)
    } else if tag_at(v, pos, &error) {
        Some(LogLevel::Error)
    } else if tag_at(v, pos, &warning) {
        Some(LogLevel::Warning)
    } else if tag_at(v, pos, &info) {
        Some(LogLevel::Info)
    } else {
        None
    }
}

/// The index of the first line break at or after `pos`, or the length.
fn line_end_from(v: &Vec<char>, pos: usize) -> (e: usize)
    requires
        pos <= v.len(),
    ensures
        e == pos + line_len(v@.skip(pos as int)),
{
    let ghost s = v@.skip(pos as int);
    proof {
        lemma_line_len(s);
    }
    let mut e: usize = pos;
    while e < v.len() && v[e] != '\n'
        invariant
            pos <= e <= v.len(),
            s == v@.skip(pos as int),
            forall|i: int| pos <= i < e ==> v@[i] != '\n',
            e - pos <= line_len(s),
        decreases v.len() - e,
    {
        proof {
            lemma_line_len(s);
        }
        assert(s[e - pos] == v@[e as int]);
        assert(e - pos < line_len(s));
        e = e + 1;
    }
    proof {
        if e < v.len() {
            assert(s[e - pos] == v@[e as int]);
        }
    }
    e
}

/// Splits a console text into styled runs by log level: see [`log_sections`].
pub fn highlight_log(theme: &LogTheme, text: &str) -> (job: LayoutJob)
    ensures
        job@ == log_sections(*theme, text@),
{
    let v = chars_of(text);
    let mut job = LayoutJob::new();
    let mut pos: usize = 0;
    assert(v@.skip(0) =~= v@);
    assert(job@ + log_sections(*theme, v@.skip(0)) =~= log_sections(*theme, v@));
    while pos < v.len()
        invariant
            pos <= v.len(),
            v@ == text@,
            job@ + log_sections(*theme, v@.skip(pos as int)) == log_sections(*theme, v@),
        decreases v.len() - pos,
    {
        let ghost s = v@.skip(pos as int);
        proof {
            lemma_first_run(s);
        }
        let lvl = tagged_level_at(&v, pos);
        let end = match lvl {
            Some(_) => line_end_from(&v, pos),
            None => pos + 1,
        };
        let fmt = match lvl {
            Some(l) => theme.format(l),
            None => theme.format(LogLevel::Text),
        };
        let piece = string_of(&v, pos, end);
        let ghost old_job = job@;
        job.append(piece, fmt);
        proof {
            let n = first_run_len(s);
            assert(end == pos + n);
            assert(s.take(n as int) =~= v@.subrange(pos as int, end as int));
            assert(s.skip(n as int) =~= v@.skip(end as int));
            assert(log_sections(*theme, s) == seq![(s.take(n as int), fmt)] + log_sections(
                *theme,
                s.skip(n as int),
            ));
            assert(job@ + log_sections(*theme, v@.skip(end as int)) =~= old_job + log_sections(
                *theme,
                s,
            ));
        }
        pos = end;
    }
    assert(log_sections(*theme, v@.skip(pos as int)) =~= Seq::<(Seq<char>, TextFormat)>::empty());
    assert(job@ =~= job@ + Seq::<(Seq<char>, TextFormat)>::empty());
    job
}

/// One entry of a console style configuration: a category key and the
/// style to apply to that category.
#[derive(Clone, Debug)]
pub struct StyleEntry {
    pub key: String,
    pub style: StyleOverride,
}

pub open spec fn style_config_view(c: Seq<StyleEntry>) -> Seq<(Seq<char>, StyleOverride)> {
    c.map_values(|e: StyleEntry| (e.key@, e.style))
}

/// The theme after applying a configuration in order: each entry with a
/// recognized key overrides parts of its category's format; entries with
/// other keys are ignored, and categories without an entry keep `base`.
pub open spec fn styled_theme(base: LogTheme, cfg: Seq<(Seq<char>, StyleOverride)>) -> LogTheme
    decreases cfg.len(),
{
    if cfg.len() == 0 {
        base
    } else {
        let t = styled_theme(base, cfg.drop_last());
        match level_of_key(cfg.last().0) {
            Some(l) => t.with_format(l, overridden(t.spec_format(l), cfg.last().1)),
            None => t,
        }
    }
}

fn same_chars(a: &Vec<char>, b: &Vec<char>) -> (r: bool)
    ensures
        r == (a@ == b@),
{
    if a.len() != b.len() {
        return false;
    }
    let mut i: usize = 0;
    while i < a.len()
        invariant
            i <= a.len() == b.len(),
            forall|j: int| 0 <= j < i ==> a@[j] == b@[j],
        decreases a.len() - i,
    {
        if a[i] != b[i] {
            return false;
        }
        i = i + 1;
    }
    assert(a@ =~= b@);
    true
}

/// The category that a configuration key names, if it is recognized.
pub fn key_level(key: &str) -> (r: Option<LogLevel>)
    ensures
        r == level_of_key(key@),
{
    let k = chars_of(key);
    let trace = vec!['t', 'r', 'a', 'c', 'e'];
    let debug = vec!['d', 'e', 'b', 'u', 'g'];
    let error = vec!['e', 'r', 'r', 'o', 'r'];
    let warning = vec!['w', 'a', 'r', 'n', 'i', 'n', 'g'];
    let info = vec!['i', 'n', 'f', 'o'];
    let text = vec!['t', 'e', 'x', 't'];
    assert(trace@ =~= level_key(LogLevel::Trace));
    assert(debug@ =~= level_key(LogLevel::Debug));
    assert(error@ =~= level_key(LogLevel::Error));
    assert(warning@ =~= level_key(LogLevel::Warning));
    assert(info@ =~= level_key(LogLevel::Info));
    assert(text@ =~= level_key(LogLevel::Text));
    if same_chars(&k, &trace) {
        Some(LogLevel::Trace)
    } else if same_chars(&k, &debug) {
        Some(LogLevel::Debug)
    } else if same_chars(&k, &error) {
        Some(LogLevel::Error)
    } else if same_chars(&k, &warning) {
        Some(LogLevel::Warning)
    } else if same_chars(&k, &info) {
        Some(LogLevel::Info)
    } else if same_chars(&k, &text) {
        Some(LogLevel::Text)
    } else {
        None
    }
}

/// Applies a console style configuration to `theme`: see [`styled_theme`].
pub fn apply_style(theme: &mut LogTheme, config: &Vec<StyleEntry>)
    ensures
        *final(theme) == styled_theme(*old(theme), style_config_view(config@)),
{
    let ghost base = *theme;
    let ghost cv = style_config_view(config@);
    let mut i: usize = 0;
    while i < config.len()
        invariant
            i <= config.len(),
            cv == style_config_view(config@),
            *theme == styled_theme(base, cv.take(i as int)),
        decreases config.len() - i,
    {
        let lvl = key_level(config[i].key.as_str());
        assert(cv.take(i + 1).drop_last() =~= cv.take(i as int));
        assert(cv.take(i + 1).last() == cv[i as int]);
        if let Some(l) = lvl {
            let f = apply_override(theme.format(l), &config[i].style);
            theme.set_format(l, f);
        }
        i = i + 1;
    }
    assert(cv.take(i as int) =~= cv);
}

} // verus!

use vstd::prelude::*;
use crate::cache::{duplicate_job, CacheKey, FrameCache, KeyModel, StyleKey, StyleKeyModel};
use crate::layout::{chars_of, runs_text, string_of, LayoutJob, TextFormat};
use crate::types::Color;
use syntect::easy::HighlightLines;
use syntect::highlighting::{Theme, ThemeSet};
use syntect::parsing::{SyntaxReference, SyntaxSet};

verus! {

/// The color themes that ship with the syntax highlighter.
#[derive(Clone, Copy, Debug, PartialEq, Eq, Hash, Structural)]
pub enum SyntectTheme {
    Base16EightiesDark,
    Base16MochaDark,
    Base16OceanDark,
    Base16OceanLight,
    InspiredGitHub,
    SolarizedDark,
    SolarizedLight,
}

/// The key of each theme in the highlighter's theme set.
pub open spec fn theme_key(t: SyntectTheme) -> Seq<char> {
    match t {
        SyntectTheme::Base16EightiesDark => "base16-eighties.dark"@,
        SyntectTheme::Base16MochaDark => "base16-mocha.dark"@,
        SyntectTheme::Base16OceanDark => "base16-ocean.dark"@,
        SyntectTheme::Base16OceanLight => "base16-ocean.light"@,
        SyntectTheme::InspiredGitHub => "InspiredGitHub"@,
        SyntectTheme::SolarizedDark => "Solarized (dark)"@,
        SyntectTheme::SolarizedLight => "Solarized (light)"@,
    }
}

impl SyntectTheme {
    /// The key of this theme in the highlighter's theme set.
    pub fn syntect_key_name(&self) -> (r: &'static str)
        ensures
            r@ == theme_key(*self),
    {
        match self {
            SyntectTheme::Base16EightiesDark => "base16-eighties.dark",
            SyntectTheme::Base16MochaDark => "base16-mocha.dark",
            SyntectTheme::Base16OceanDark => "base16-ocean.dark",
            SyntectTheme::Base16OceanLight => "base16-ocean.light",
            SyntectTheme::InspiredGitHub => "InspiredGitHub",
            SyntectTheme::SolarizedDark => "Solarized (dark)",
            SyntectTheme::SolarizedLight => "Solarized (light)",
        }
    }
}

/// How code is colored: light or dark mode, and the highlighter theme.
#[derive(Clone, Copy, Debug, PartialEq, Eq, Hash, Structural)]
pub struct CodeTheme {
    pub dark_mode: bool,
    pub syntect_theme: SyntectTheme,
}

impl CodeTheme {
    /// Dark mode with the Base16 Mocha theme.
    pub fn dark() -> (t: CodeTheme)
        ensures
            t.dark_mode,
            t.syntect_theme == SyntectTheme::Base16MochaDark,
    {
        CodeTheme { dark_mode: true, syntect_theme: SyntectTheme::Base16MochaDark }
    }

    /// Light mode with the Solarized light theme.
    pub fn light() -> (t: CodeTheme)
        ensures
            !t.dark_mode,
            t.syntect_theme == SyntectTheme::SolarizedLight,
    {
        CodeTheme { dark_mode: false, syntect_theme: SyntectTheme::SolarizedLight }
    }
}

impl Default for CodeTheme {
    fn default() -> (t: CodeTheme)
        ensures
            t.dark_mode,
            t.syntect_theme == SyntectTheme::Base16MochaDark,
    {
        CodeTheme::dark()
    }
}

/// syntect's `SyntaxSet`, carried opaquely.
#[verifier::external_type_specification]
#[verifier::external_body]
pub struct ExSyntaxSet(SyntaxSet);

/// syntect's `SyntaxReference`, carried opaquely.
#[verifier::external_type_specification]
#[verifier::external_body]
pub struct ExSyntaxReference(SyntaxReference);

/// syntect's `ThemeSet`, carried opaquely.
#[verifier::external_type_specification]
#[verifier::external_body]
pub struct ExThemeSet(ThemeSet);

/// syntect's `Theme`, carried opaquely.
#[verifier::external_type_specification]
#[verifier::external_body]
pub struct ExTheme(Theme);

/// syntect's line-by-line highlighter state, carried opaquely.
#[verifier::external_type_specification]
#[verifier::external_body]
pub struct ExHighlightLines<'a>(HighlightLines<'a>);

/// syntect's error type, carried opaquely.
#[verifier::external_type_specification]
#[verifier::external_body]
pub struct ExSyntectError(syntect::Error);

/// Relies on syntect's `SyntaxSet::load_defaults_newlines`: the bundled syntaxes.
pub assume_specification[ SyntaxSet::load_defaults_newlines ]() -> SyntaxSet;

/// Relies on syntect's `ThemeSet::load_defaults`: the bundled themes.
pub assume_specification[ ThemeSet::load_defaults ]() -> ThemeSet;

/// Relies on syntect's `HighlightLines::new`: a highlighter for one text in one theme.
pub assume_specification<'a>[ HighlightLines::<'a>::new ](
    syntax: &SyntaxReference,
    theme: &'a Theme,
) -> HighlightLines<'a>;

/// Whether syntect's bundled syntax set has a syntax with this name.
pub uninterp spec fn bundled_syntax_named(name: Seq<char>) -> bool;

/// Whether syntect's bundled syntax set has a syntax for this file extension.
pub uninterp spec fn bundled_syntax_for_extension(extension: Seq<char>) -> bool;

/// Whether `key` is the key of one of the bundled themes.
pub open spec fn is_bundled_theme_key(key: Seq<char>) -> bool {
    exists|t: SyntectTheme| #[trigger] theme_key(t) == key
}

/// One highlighted token: its foreground color, its syntect font-style bits
/// and its text.
pub struct StyledPiece {
    pub r: u8,
    pub g: u8,
    pub b: u8,
    pub font_style: u8,
    pub text: String,
}

/// The characters of all pieces, concatenated.
pub open spec fn pieces_text(p: Seq<StyledPiece>) -> Seq<char>
    decreases p.len(),
{
    if p.len() == 0 {
        Seq::empty()
    } else {
        pieces_text(p.drop_last()) + p.last().text@
    }
}

/// Relies on syntect's `HighlightLines::highlight_line`: on success the
/// tokens, whose texts concatenate to the line.
#[verifier::external_body]
fn highlight_line(h: &mut HighlightLines, line: &str, set: &SyntaxSet) -> (r: Result<
    Vec<StyledPiece>,
    syntect::Error,
>)
    ensures
        r matches Ok(v) ==> pieces_text(v@) == line@,
{
    h.highlight_line(line, set).map(|v| v.into_iter().map(|(st, piece)| StyledPiece {
        r: st.foreground.r,
        g: st.foreground.g,
        b: st.foreground.b,
        font_style: st.font_style.bits(),
        text: piece.to_string(),
    }).collect())
}

/// syntect's font-style bit for underlined text.
pub const FONT_STYLE_UNDERLINE: u8 = 2;

/// syntect's font-style bit for italic text.
pub const FONT_STYLE_ITALIC: u8 = 4;

/// Point size of the code font.
pub const CODE_FONT_SIZE: u32 = 14;

/// The format of a token of color (`r`, `g`, `b`) with font-style bits `bits`.
pub open spec fn token_format(r: u8, g: u8, b: u8, bits: u8) -> TextFormat {
    TextFormat {
        font_size: CODE_FONT_SIZE,
        color: Color { r, g, b, a: 255 },
        italics: bits & FONT_STYLE_ITALIC != 0,
        underline: bits & FONT_STYLE_UNDERLINE != 0,
    }
}

/// Whether `f` is the format of some token.
pub open spec fn is_token_format(f: TextFormat) -> bool {
    exists|r: u8, g: u8, b: u8, bits: u8| #[trigger] token_format(r, g, b, bits) == f
}

/// The format of plain code when no highlighting is possible.
pub open spec fn plain_code_format(theme: CodeTheme) -> TextFormat {
    TextFormat {
        font_size: CODE_FONT_SIZE,
        color: if theme.dark_mode {
            Color { r: 220, g: 220, b: 220, a: 255 }
        } else {
            Color { r: 96, g: 96, b: 96, a: 255 }
        },
        italics: false,
        underline: false,
    }
}

/// The length of the first line of `s`, its line break included.
pub open spec fn line_with_ending_len(s: Seq<char>) -> nat
    decreases s.len(),
{
    if s.len() == 0 {
        0
    } else if s[0] == '\n' {
        1
    } else {
        1 + line_with_ending_len(s.drop_first())
    }
}

/// `s` split into lines, each keeping its line break.
pub open spec fn lines_with_endings(s: Seq<char>) -> Seq<Seq<char>>
    decreases s.len(),
{
    let n = line_with_ending_len(s);
    if s.len() == 0 || n == 0 || n > s.len() {
        Seq::empty()
    } else {
        seq![s.take(n as int)] + lines_with_endings(s.skip(n as int))
    }
}

proof fn lemma_line_with_ending_len(s: Seq<char>)
    ensures
        s.len() > 0 ==> 1 <= line_with_ending_len(s) <= s.len(),
        forall|i: int| 0 <= i < line_with_ending_len(s) - 1 ==> s[i] != '\n',
        line_with_ending_len(s) < s.len() ==> s[line_with_ending_len(s) - 1] == '\n',
        s.len() > 0 && line_with_ending_len(s) == s.len() ==> s[s.len() - 1] == '\n' || forall|
            i: int,
        |
            0 <= i < s.len() ==> s[i] != '\n',
    decreases s.len(),
{
    if s.len() > 0 && s[0] != '\n' {
        let t = s.drop_first();
        lemma_line_with_ending_len(t);
        assert forall|i: int| 0 <= i < line_with_ending_len(s) - 1 implies s[i] != '\n' by {
            if i > 0 {
                assert(s[i] == t[i - 1]);
            }
        }
        if line_with_ending_len(s) < s.len() {
            assert(s[line_with_ending_len(s) - 1] == t[line_with_ending_len(t) - 1]);
        }
        if line_with_ending_len(s) == s.len() && s[s.len() - 1] != '\n' {
            assert(t.len() > 0 ==> t[t.len() - 1] == s[s.len() - 1]);
            assert forall|i: int| 0 <= i < s.len() implies s[i] != '\n' by {
                if i > 0 {
                    assert(s[i] == t[i - 1]);
                }
            }
        }
    }
}

/// The end of the line that starts at `pos`, its line break included.
fn line_end_with_ending(v: &Vec<char>, pos: usize) -> (e: usize)
    requires
        pos < v.len(),
    ensures
        e == pos + line_with_ending_len(v@.skip(pos as int)),
        pos < e <= v.len(),
{
    let ghost s = v@.skip(pos as int);
    proof {
        lemma_line_with_ending_len(s);
    }
    let mut e: usize = pos;
    while e < v.len()
        invariant
            pos <= e <= v.len(),
            s == v@.skip(pos as int),
            forall|i: int| pos <= i < e ==> v@[i] != '\n',
            e - pos < line_with_ending_len(s) || e == v.len(),
        decreases v.len() - e,
    {
        proof {
            lemma_line_with_ending_len(s);
        }
        assert(s[e - pos] == v@[e as int]);
        if v[e] == '\n' {
            proof {
                assert(e - pos == line_with_ending_len(s) - 1);
            }
            return e + 1;
        }
        e = e + 1;
    }
    proof {
        lemma_line_with_ending_len(s);
        if line_with_ending_len(s) < s.len() {
            assert(s[line_with_ending_len(s) - 1] == v@[pos + line_with_ending_len(s) - 1]);
        }
    }
    e
}

/// The syntax and theme sets that code highlighting draws on.
pub struct Highlighter {
    syntaxes: SyntaxSet,
    themes: ThemeSet,
}

impl Highlighter {
    /// The highlighter with syntect's default syntaxes and themes.
    pub fn new() -> Highlighter {
        Highlighter {
            syntaxes: SyntaxSet::load_defaults_newlines(),
            themes: ThemeSet::load_defaults(),
        }
    }

    /// Relies on syntect's `SyntaxSet::find_syntax_by_name` over the bundled
    /// syntaxes, which this highlighter always holds: whether one is found
    /// depends on the name alone.
    #[verifier::external_body]
    fn syntax_named<'a>(&'a self, name: &str) -> (r: Option<&'a SyntaxReference>)
        ensures
            r is Some <==> bundled_syntax_named(name@),
    {
        self.syntaxes.find_syntax_by_name(name)
    }

    /// Relies on syntect's `SyntaxSet::find_syntax_by_extension` over the
    /// bundled syntaxes: whether one is found depends on the extension alone.
    #[verifier::external_body]
    fn syntax_for_extension<'a>(&'a self, extension: &str) -> (r: Option<&'a SyntaxReference>)
        ensures
            r is Some <==> bundled_syntax_for_extension(extension@),
    {
        self.syntaxes.find_syntax_by_extension(extension)
    }

    /// Relies on the `themes` map of syntect's `ThemeSet::load_defaults`,
    /// which this highlighter always holds and whose documentation lists the
    /// seven bundled keys.
    #[verifier::external_body]
    fn theme_named<'a>(&'a self, key: &str) -> (r: Option<&'a Theme>)
        ensures
            is_bundled_theme_key(key@) ==> r is Some,
    {
        self.themes.themes.get(key)
    }

    /// Highlights `text` as code in `language` (a syntax name or a file
    /// extension). `None` when the language or the theme is unknown, or the
    /// tokenizer fails; otherwise runs that cover the text, each in the
    /// monospace code font with its token's color and style.
    pub fn highlight_impl(&self, theme: &CodeTheme, text: &str, language: &str) -> (r: Option<
        LayoutJob,
    >)
        ensures
            !bundled_syntax_named(language@) && !bundled_syntax_for_extension(language@) ==> r is None,
            r matches Some(j) ==> runs_text(j@) == text@ && forall|i: int|
                0 <= i < j@.len() ==> is_token_format(#[trigger] j@[i].1),
    {
        let syntax = match self.syntax_named(language) {
            Some(s) => s,
            None => match self.syntax_for_extension(language) {
                Some(s) => s,
                None => {
                    return None;
                },
            },
        };
        let key = theme.syntect_theme.syntect_key_name();
        proof {
            assert(is_bundled_theme_key(theme_key(theme.syntect_theme)));
        }
        let th = match self.theme_named(key) {
            Some(t) => t,
            None => {
                return None;
            },
        };
        let mut h = HighlightLines::new(syntax, th);
        let v = chars_of(text);
        let mut job = LayoutJob::new();
        let mut pos: usize = 0;
        while pos < v.len()
            invariant
                pos <= v.len(),
                v@ == text@,
                runs_text(job@) == v@.take(pos as int),
                forall|i: int| 0 <= i < job@.len() ==> is_token_format(#[trigger] job@[i].1),
            decreases v.len() - pos,
        {
            let end = line_end_with_ending(&v, pos);
            let line = string_of(&v, pos, end);
            let pieces = match highlight_line(&mut h, line.as_str(), &self.syntaxes) {
                Ok(p) => p,
                Err(_) => {
                    return None;
                },
            };
            let ghost before = job@;
            let mut k: usize = 0;
            while k < pieces.len()
                invariant
                    k <= pieces.len(),
                    pieces_text(pieces@) == line@,
                    before.len() <= job@.len(),
                    job@.take(before.len() as int) == before,
                    runs_text(job@) == runs_text(before) + pieces_text(pieces@.take(k as int)),
                    forall|i: int| 0 <= i < job@.len() ==> is_token_format(#[trigger] job@[i].1),
                decreases pieces.len() - k,
            {
                let p = &pieces[k];
                let fmt = TextFormat {
                    font_size: CODE_FONT_SIZE,
                    color: Color::rgb(p.r, p.g, p.b),
                    italics: p.font_style & FONT_STYLE_ITALIC != 0,
                    underline: p.font_style & FONT_STYLE_UNDERLINE != 0,
                };
                assert(fmt == token_format(p.r, p.g, p.b, p.font_style));
                assert(is_token_format(fmt));
                let ghost prev = job@;
                job.append(p.text.clone(), fmt);
                proof {
                    assert(job@.drop_last() =~= prev);
                    assert(pieces@.take(k + 1).drop_last() =~= pieces@.take(k as int));
                    assert(job@.take(before.len() as int) =~= prev.take(before.len() as int));
                }
                k = k + 1;
            }
            proof {
                assert(pieces@.take(k as int) =~= pieces@);
                assert(v@.take(end as int) =~= v@.take(pos as int) + v@.subrange(pos as int, end as int));
            }
            pos = end;
        }
        assert(v@.take(pos as int) =~= v@);
        Some(job)
    }

    /// Highlights `text` as code in `language`; where that is not possible,
    /// the whole text is one run in the plain code format.
    pub fn highlight(&self, theme: &CodeTheme, text: &str, language: &str) -> (j: LayoutJob)
        ensures
            runs_text(j@) == text@,
            !bundled_syntax_named(language@) && !bundled_syntax_for_extension(language@) ==> j@ == seq![
                (text@, plain_code_format(*theme)),
            ],
    {
        let attempt = self.highlight_impl(theme, text, language);
        let j = layout_or_plain(theme, text, attempt);
        proof {
            if j@.len() == 1 {
                assert(j@.drop_last() =~= Seq::<(Seq<char>, TextFormat)>::empty());
                assert(runs_text(j@.drop_last()) =~= Seq::<char>::empty());
            }
        }
        j
    }
}

/// The highlighted layout when there is one, else the whole text as a single
/// run in the plain code format of `theme`.
pub fn layout_or_plain(theme: &CodeTheme, text: &str, attempt: Option<LayoutJob>) -> (j: LayoutJob)
    ensures
        attempt matches Some(a) ==> j@ == a@,
        attempt is None ==> j@ == seq![(text@, plain_code_format(*theme))],
{
    match attempt {
        Some(a) => a,
        None => {
            let color = if theme.dark_mode {
                Color::rgb(220, 220, 220)
            } else {
                Color::rgb(96, 96, 96)
            };
            LayoutJob::simple(text.to_owned(), TextFormat::simple(CODE_FONT_SIZE, color))
        },
    }
}

/// Code highlighting memoized per frame under the key (`producer`, `code`,
/// `theme` and `language`): a request that this frame already computed is
/// served from the cache; any other is computed and cached.
pub fn highlight_code_memo(
    cache: &mut FrameCache,
    h: &Highlighter,
    producer: u64,
    theme: &CodeTheme,
    code: &str,
    language: &str,
) -> (r: (LayoutJob, bool))
    requires
        old(cache).wf(),
    ensures
        final(cache).wf(),
        final(cache).spec_generation() == old(cache).spec_generation(),
        ({
            let k = KeyModel {
                producer,
                content: code@,
                style: StyleKeyModel::Code(*theme, language@),
            };
            &&& r.1 <==> old(cache).fresh(k) is Some
            &&& final(cache).fresh(k) == Some(r.0@)
            &&& old(cache).fresh(k) matches Some(j) ==> r.0@ == j && *final(cache) == *old(cache)
            &&& old(cache).fresh(k) is None ==> runs_text(r.0@) == code@ && forall|k2: KeyModel|
                k2 != k ==> final(cache).fresh(k2) == old(cache).fresh(k2)
        }),
{
    let key = CacheKey {
        producer,
        content: code.to_owned(),
        style: StyleKey::Code(*theme, language.to_owned()),
    };
    match cache.lookup(&key) {
        Some(j) => (j, true),
        None => {
            let j = h.highlight(theme, code, language);
            let stored = duplicate_job(&j);
            cache.store(key, stored);
            (j, false)
        },
    }
}

} // verus!

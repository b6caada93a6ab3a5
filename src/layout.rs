use vstd::prelude::*;
use crate::types::Color;
use vstd::std_specs::iter::IteratorSpec;

verus! {

/// How one run of text is drawn: a monospace font of `font_size` points, a
/// color, and the italic and underline flags.
#[derive(Clone, Copy, Debug, PartialEq, Eq, Hash, Structural)]
pub struct TextFormat {
    pub font_size: u32,
    pub color: Color,
    pub italics: bool,
    pub underline: bool,
}

impl TextFormat {
    /// A plain format: no italics, no underline.
    pub fn simple(font_size: u32, color: Color) -> (f: TextFormat)
        ensures
            f == (TextFormat { font_size, color, italics: false, underline: false }),
    {
        TextFormat { font_size, color, italics: false, underline: false }
    }
}

/// One styled run of a layout.
#[derive(Clone, Debug)]
pub struct LayoutSection {
    pub text: String,
    pub format: TextFormat,
}

/// A text split into styled runs, in order.
#[derive(Clone, Debug)]
pub struct LayoutJob {
    pub sections: Vec<LayoutSection>,
}

/// The view of a section list: each run's characters and format.
pub open spec fn sections_view(s: Seq<LayoutSection>) -> Seq<(Seq<char>, TextFormat)> {
    s.map_values(|x: LayoutSection| (x.text@, x.format))
}

impl View for LayoutJob {
    type V = Seq<(Seq<char>, TextFormat)>;

    open spec fn view(&self) -> Seq<(Seq<char>, TextFormat)> {
        sections_view(self.sections@)
    }
}

/// The characters of all runs, concatenated.
pub open spec fn runs_text(runs: Seq<(Seq<char>, TextFormat)>) -> Seq<char>
    decreases runs.len(),
{
    if runs.len() == 0 {
        Seq::empty()
    } else {
        runs_text(runs.drop_last()) + runs.last().0
    }
}

impl LayoutJob {
    pub fn new() -> (j: LayoutJob)
        ensures
            j@ == Seq::<(Seq<char>, TextFormat)>::empty(),
    {
        LayoutJob { sections: Vec::new() }
    }

    /// Appends one run.
    pub fn append(&mut self, text: String, format: TextFormat)
        ensures
            final(self)@ == old(self)@.push((text@, format)),
    {
        let ghost t = text@;
        self.sections.push(LayoutSection { text, format });
        assert(final(self)@ =~= old(self)@.push((t, format)));
    }

    /// A job of one run holding the whole text.
    pub fn simple(text: String, format: TextFormat) -> (j: LayoutJob)
        ensures
            j@ == seq![(text@, format)],
    {
        let mut j = LayoutJob::new();
        j.append(text, format);
        j
    }

    /// The text of the whole job.
    pub fn text(&self) -> (s: String)
        ensures
            s@ == runs_text(self@),
    {
        let mut s = String::new();
        let mut i: usize = 0;
        while i < self.sections.len()
            invariant
                i <= self.sections.len(),
                s@ == runs_text(self@.take(i as int)),
            decreases self.sections.len() - i,
        {
            s.append(self.sections[i].text.as_str());
            assert(self@.take(i + 1).drop_last() =~= self@.take(i as int));
            i = i + 1;
        }
        assert(self@.take(i as int) =~= self@);
        s
    }
}

/// The characters of `s`, in order.
pub(crate) fn chars_of(s: &str) -> (r: Vec<char>)
    ensures
        r@ == s@,
{
    broadcast use vstd::string::group_string_axioms;
    let mut it = s.chars();
    let mut v: Vec<char> = Vec::new();
    loop
        invariant
            v@ + it.remaining() == s@,
            it.obeys_prophetic_iter_laws(),
            it.decrease() is Some,
        decreases it.decrease()->0,
    {
        let ghost before = it.remaining();
        match it.next() {
            Some(c) => {
                v.push(c);
                assert(v@ + it.remaining() =~= s@) by {
                    assert(before == seq![c] + before.drop_first());
                    assert(v@ + it.remaining() =~= (v@.drop_last() + seq![c]) + before.drop_first());
                }
            },
            None => {
                assert(it.remaining().len() == 0);
                assert(v@ =~= s@);
                return v;
            },
        }
    }
}

/// Relies on `String::push`: appends one character.
#[verifier::external_body]
pub(crate) fn push_char(s: &mut String, c: char)
    ensures
        final(s)@ == old(s)@.push(c),
{
    s.push(c)
}

/// The characters `v[from..to]` as a string.
pub fn string_of(v: &Vec<char>, from: usize, to: usize) -> (s: String)
    requires
        from <= to <= v.len(),
    ensures
        s@ == v@.subrange(from as int, to as int),
{
    let mut s = String::new();
    let mut i: usize = from;
    while i < to
        invariant
            from <= i <= to <= v.len(),
            s@ == v@.subrange(from as int, i as int),
        decreases to - i,
    {
        push_char(&mut s, v[i]);
        assert(v@.subrange(from as int, i + 1) =~= v@.subrange(from as int, i as int).push(v@[i as int]));
        i = i + 1;
    }
    s
}

} // verus!

use vstd::prelude::*;
use crate::console::{highlight_log, log_sections, LogTheme};
use crate::layout::{LayoutJob, TextFormat};
use crate::syntax_highlighting::CodeTheme;

verus! {

/// The style part of a cache key.
#[derive(Clone, Debug)]
pub enum StyleKey {
    /// A console theme.
    Log(LogTheme),
    /// A code theme and the language name.
    Code(CodeTheme, String),
}

pub enum StyleKeyModel {
    Log(LogTheme),
    Code(CodeTheme, Seq<char>),
}

impl View for StyleKey {
    type V = StyleKeyModel;

    open spec fn view(&self) -> StyleKeyModel {
        match self {
            StyleKey::Log(t) => StyleKeyModel::Log(*t),
            StyleKey::Code(t, l) => StyleKeyModel::Code(*t, l@),
        }
    }
}

/// A cache key: who asks, for which content, in which style.
#[derive(Clone, Debug)]
pub struct CacheKey {
    pub producer: u64,
    pub content: String,
    pub style: StyleKey,
}

pub struct KeyModel {
    pub producer: u64,
    pub content: Seq<char>,
    pub style: StyleKeyModel,
}

impl View for CacheKey {
    type V = KeyModel;

    open spec fn view(&self) -> KeyModel {
        KeyModel { producer: self.producer, content: self.content@, style: self.style@ }
    }
}

fn style_keys_equal(a: &StyleKey, b: &StyleKey) -> (r: bool)
    ensures
        r == (a@ == b@),
{
    match (a, b) {
        (StyleKey::Log(x), StyleKey::Log(y)) => *x == *y,
        (StyleKey::Code(x, l), StyleKey::Code(y, m)) => *x == *y && *l == *m,
        _ => false,
    }
}

/// Whether two keys are equal.
pub fn keys_equal(a: &CacheKey, b: &CacheKey) -> (r: bool)
    ensures
        r == (a@ == b@),
{
    a.producer == b.producer && a.content == b.content && style_keys_equal(&a.style, &b.style)
}

/// A copy of a layout, equal to it in view.
pub fn duplicate_job(j: &LayoutJob) -> (r: LayoutJob)
    ensures
        r@ == j@,
{
    let mut out = LayoutJob::new();
    let mut i: usize = 0;
    while i < j.sections.len()
        invariant
            i <= j.sections.len(),
            out@ == j@.take(i as int),
        decreases j.sections.len() - i,
    {
        let s = &j.sections[i];
        out.append(s.text.clone(), s.format);
        assert(j@.take(i + 1) =~= j@.take(i as int).push(j@[i as int]));
        i = i + 1;
    }
    assert(j@.take(i as int) =~= j@);
    out
}

/// Whether two layouts are equal.
pub fn jobs_equal(a: &LayoutJob, b: &LayoutJob) -> (r: bool)
    ensures
        r == (a@ == b@),
{
    if a.sections.len() != b.sections.len() {
        return false;
    }
    let mut i: usize = 0;
    while i < a.sections.len()
        invariant
            i <= a.sections.len() == b.sections.len(),
            forall|j: int| 0 <= j < i ==> a@[j] == b@[j],
        decreases a.sections.len() - i,
    {
        if a.sections[i].text != b.sections[i].text || a.sections[i].format != b.sections[i].format {
            assert(a@[i as int] != b@[i as int]);
            return false;
        }
        i = i + 1;
    }
    assert(a@ =~= b@);
    true
}

/// One cached artifact, tagged with the frame generation that computed it.
pub struct CacheEntry {
    pub key: CacheKey,
    pub generation: u64,
    pub job: LayoutJob,
}

pub struct EntryModel {
    pub key: KeyModel,
    pub generation: u64,
    pub job: Seq<(Seq<char>, TextFormat)>,
}

/// A per-surface cache of text layouts. Entries carry the generation of the
/// frame that computed them; an entry of an earlier generation is stale and
/// is overwritten when its key is next computed, never swept.
pub struct FrameCache {
    generation: u64,
    entries: Vec<CacheEntry>,
}

/// A cached console layout is the layout of its key's text in its key's theme.
pub open spec fn entry_sound(e: EntryModel) -> bool {
    match e.key.style {
        StyleKeyModel::Log(t) => e.job == log_sections(t, e.key.content),
        _ => true,
    }
}

pub open spec fn entry_view(e: CacheEntry) -> EntryModel {
    EntryModel { key: e.key@, generation: e.generation, job: e.job@ }
}

/// The index of the entry for key `k` in `es`, if any.
pub open spec fn has_key_at(es: Seq<EntryModel>, k: KeyModel, i: int) -> bool {
    0 <= i < es.len() && es[i].key == k
}

impl FrameCache {
    pub closed spec fn spec_generation(&self) -> u64 {
        self.generation
    }

    pub closed spec fn spec_entries(&self) -> Seq<EntryModel> {
        self.entries@.map_values(|e: CacheEntry| entry_view(e))
    }

    /// No key has two entries, no entry is newer than the current frame, and
    /// every cached console layout is right for its key.
    pub open spec fn wf(&self) -> bool {
        &&& forall|i: int| 0 <= i < self.spec_entries().len() ==> #[trigger] entry_sound(self.spec_entries()[i])
        &&& forall|i: int, j: int|
            0 <= i < j < self.spec_entries().len() ==> #[trigger] self.spec_entries()[i].key
                != #[trigger] self.spec_entries()[j].key
        &&& forall|i: int|
            0 <= i < self.spec_entries().len() ==> #[trigger] self.spec_entries()[i].generation
                <= self.spec_generation()
    }

    /// The artifact cached for `k` in the current frame, if any.
    pub open spec fn fresh(&self, k: KeyModel) -> Option<Seq<(Seq<char>, TextFormat)>> {
        if exists|i: int|
            has_key_at(self.spec_entries(), k, i) && self.spec_entries()[i].generation
                == self.spec_generation() {
            let i = choose|i: int|
                has_key_at(self.spec_entries(), k, i) && self.spec_entries()[i].generation
                    == self.spec_generation();
            Some(self.spec_entries()[i].job)
        } else {
            None
        }
    }

    pub fn new() -> (c: FrameCache)
        ensures
            c.wf(),
            c.spec_entries().len() == 0,
            forall|k: KeyModel| c.fresh(k) is None,
    {
        FrameCache { generation: 0, entries: Vec::new() }
    }

    /// Whether no key has two entries and no entry is newer than the frame.
    pub fn is_sound(&self) -> (r: bool)
        ensures
            r == self.wf(),
    {
        let n = self.entries.len();
        let mut i: usize = 0;
        while i < n
            invariant
                i <= n,
                n == self.spec_entries().len(),
                forall|a: int, b: int| 0 <= a < b < i ==> #[trigger] self.spec_entries()[a].key != #[trigger] self.spec_entries()[b].key,
                forall|a: int| 0 <= a < i ==> #[trigger] self.spec_entries()[a].generation <= self.spec_generation(),
                forall|a: int| 0 <= a < i ==> #[trigger] entry_sound(self.spec_entries()[a]),
            decreases n - i,
        {
            assert(self.spec_entries()[i as int] == entry_view(self.entries@[i as int]));
            if self.entries[i].generation > self.generation {
                assert(self.spec_entries()[i as int].generation > self.spec_generation());
                return false;
            }
            if let StyleKey::Log(t) = &self.entries[i].key.style {
                let expected = highlight_log(t, self.entries[i].key.content.as_str());
                if !jobs_equal(&self.entries[i].job, &expected) {
                    assert(!entry_sound(self.spec_entries()[i as int]));
                    return false;
                }
            }
            let mut j: usize = 0;
            while j < i
                invariant
                    j <= i < n,
                    n == self.spec_entries().len(),
                    forall|a: int| 0 <= a < j ==> self.spec_entries()[a].key != self.spec_entries()[i as int].key,
                decreases i - j,
            {
                assert(self.spec_entries()[j as int] == entry_view(self.entries@[j as int]));
                if keys_equal(&self.entries[j].key, &self.entries[i].key) {
                    assert(self.spec_entries()[j as int].key == self.spec_entries()[i as int].key);
                    return false;
                }
                j = j + 1;
            }
            i = i + 1;
        }
        true
    }

    pub fn generation(&self) -> (g: u64)
        ensures
            g == self.spec_generation(),
    {
        self.generation
    }

    pub fn len(&self) -> (n: usize)
        ensures
            n == self.spec_entries().len(),
    {
        self.entries.len()
    }

    /// Starts a new frame: every entry becomes stale. After the last
    /// generation the cache starts over empty at generation zero.
    pub fn begin_frame(&mut self)
        requires
            old(self).wf(),
        ensures
            final(self).wf(),
            forall|k: KeyModel| final(self).fresh(k) is None,
            old(self).spec_generation() < u64::MAX ==> final(self).spec_generation()
                == old(self).spec_generation() + 1 && final(self).spec_entries()
                == old(self).spec_entries(),
    {
        if self.generation == u64::MAX {
            self.entries = Vec::new();
            self.generation = 0;
        } else {
            self.generation = self.generation + 1;
        }
        proof {
            assert(self.spec_entries().len() == 0 ==> self.spec_entries() =~= Seq::<EntryModel>::empty());
        }
    }

    proof fn lemma_fresh_at(&self, k: KeyModel, i: int)
        requires
            self.wf(),
            has_key_at(self.spec_entries(), k, i),
        ensures
            self.spec_entries()[i].generation == self.spec_generation() ==> self.fresh(k) == Some(
                self.spec_entries()[i].job,
            ),
            self.spec_entries()[i].generation != self.spec_generation() ==> self.fresh(k) is None,
    {
        if exists|j: int|
            has_key_at(self.spec_entries(), k, j) && self.spec_entries()[j].generation
                == self.spec_generation() {
            let j = choose|j: int|
                has_key_at(self.spec_entries(), k, j) && self.spec_entries()[j].generation
                    == self.spec_generation();
            if j < i {
                assert(self.spec_entries()[j].key != self.spec_entries()[i].key);
            } else if i < j {
                assert(self.spec_entries()[i].key != self.spec_entries()[j].key);
            }
        }
    }

    /// The index of the entry for `k`, of any generation.
    fn find_key(&self, k: &CacheKey) -> (r: Option<usize>)
        ensures
            r matches Some(i) ==> i < self.spec_entries().len() && has_key_at(self.spec_entries(), k@, i as int),
            r is None ==> forall|i: int| 0 <= i < self.spec_entries().len() ==> !has_key_at(self.spec_entries(), k@, i),
    {
        let mut i: usize = 0;
        while i < self.entries.len()
            invariant
                i <= self.entries.len(),
                forall|j: int| 0 <= j < i ==> !has_key_at(self.spec_entries(), k@, j),
            decreases self.entries.len() - i,
        {
            assert(self.spec_entries()[i as int] == entry_view(self.entries@[i as int]));
            if keys_equal(&self.entries[i].key, k) {
                return Some(i);
            }
            i = i + 1;
        }
        None
    }

    /// The artifact cached for `k` in the current frame, if any.
    pub fn lookup(&self, k: &CacheKey) -> (r: Option<LayoutJob>)
        requires
            self.wf(),
        ensures
            r matches Some(j) ==> self.fresh(k@) == Some(j@),
            r matches Some(j) ==> (k@.style matches StyleKeyModel::Log(t) ==> j@ == log_sections(t, k@.content)),
            r is None ==> self.fresh(k@) is None,
    {
        match self.find_key(k) {
            Some(i) => {
                proof {
                    self.lemma_fresh_at(k@, i as int);
                    assert(self.spec_entries()[i as int] == entry_view(self.entries@[i as int]));
                }
                assert(self.spec_entries()[i as int] == entry_view(self.entries@[i as int]));
                assert(entry_sound(self.spec_entries()[i as int]));
                if self.entries[i].generation == self.generation {
                    Some(duplicate_job(&self.entries[i].job))
                } else {
                    None
                }
            },
            None => None,
        }
    }

    /// Caches `job` for `k` in the current frame, overwriting the entry that
    /// `k` had, if any; other keys keep their entries.
    pub fn store(&mut self, k: CacheKey, job: LayoutJob)
        requires
            old(self).wf(),
            k@.style matches StyleKeyModel::Log(t) ==> job@ == log_sections(t, k@.content),
        ensures
            final(self).wf(),
            final(self).spec_generation() == old(self).spec_generation(),
            final(self).fresh(k@) == Some(job@),
            forall|k2: KeyModel| k2 != k@ ==> final(self).fresh(k2) == old(self).fresh(k2),
    {
        let ghost old_entries = self.spec_entries();
        let ghost kv = k@;
        let e = CacheEntry { key: k, generation: self.generation, job };
        let ghost ev = entry_view(e);
        let ghost n: int;
        match self.find_key(&e.key) {
            Some(i) => {
                self.entries.set(i, e);
                proof {
                    n = i as int;
                    assert(self.spec_entries() =~= old_entries.update(i as int, ev));
                }
            },
            None => {
                self.entries.push(e);
                proof {
                    n = old_entries.len() as int;
                    assert(self.spec_entries() =~= old_entries.push(ev));
                }
            },
        }
        proof {
            assert(has_key_at(self.spec_entries(), kv, n));
            assert forall|i: int, j: int|
                0 <= i < j < self.spec_entries().len() implies #[trigger] self.spec_entries()[i].key
                    != #[trigger] self.spec_entries()[j].key by {
                if i != n && j != n {
                    assert(self.spec_entries()[i] == old_entries[i]);
                    assert(self.spec_entries()[j] == old_entries[j]);
                } else if i == n {
                    assert(self.spec_entries()[j] == old_entries[j]);
                    assert(!has_key_at(old_entries, kv, j) || j == n);
                } else {
                    assert(self.spec_entries()[i] == old_entries[i]);
                    assert(!has_key_at(old_entries, kv, i) || i == n);
                }
            }
            assert forall|i: int| 0 <= i < self.spec_entries().len() implies
                #[trigger] self.spec_entries()[i].generation <= self.spec_generation() by {
                if i != n {
                    assert(self.spec_entries()[i] == old_entries[i]);
                }
            }
            self.lemma_fresh_at(kv, n);
            assert forall|k2: KeyModel| k2 != kv implies self.fresh(k2) == old(self).fresh(k2) by {
                if exists|j: int| has_key_at(old_entries, k2, j) {
                    let j = choose|j: int| has_key_at(old_entries, k2, j);
                    old(self).lemma_fresh_at(k2, j);
                    assert(self.spec_entries()[j] == old_entries[j]);
                    self.lemma_fresh_at(k2, j);
                } else {
                    assert forall|j: int| !has_key_at(self.spec_entries(), k2, j) by {
                        if 0 <= j < self.spec_entries().len() && j != n {
                            assert(self.spec_entries()[j] == old_entries[j]);
                            assert(!has_key_at(old_entries, k2, j));
                        }
                    }
                }
            }
        }
    }
}

/// The key under which a console layout is memoized.
pub open spec fn log_key(producer: u64, theme: LogTheme, text: Seq<char>) -> KeyModel {
    KeyModel { producer, content: text, style: StyleKeyModel::Log(theme) }
}

/// What one memoized console layout request does, from cache `c0` to cache
/// `c1`, returning `job` and whether it was a cache hit.
pub open spec fn log_memo_step(
    c0: FrameCache,
    c1: FrameCache,
    producer: u64,
    theme: LogTheme,
    text: Seq<char>,
    job: Seq<(Seq<char>, TextFormat)>,
    hit: bool,
) -> bool {
    let k = log_key(producer, theme, text);
    &&& c1.wf()
    &&& c1.spec_generation() == c0.spec_generation()
    &&& hit <==> c0.fresh(k) is Some
    &&& c1.fresh(k) == Some(job)
    &&& c0.fresh(k) matches Some(j) ==> job == j && c1 == c0
    &&& c0.fresh(k) is None ==> job == log_sections(theme, text) && forall|k2: KeyModel|
        k2 != k ==> c1.fresh(k2) == c0.fresh(k2)
}

/// The console layout of `text` in `theme`, memoized per frame under the key
/// (`producer`, `text`, `theme`). Returns the layout and whether it came from
/// the cache: it does exactly when this frame already computed that key, and
/// then it is the cached artifact; otherwise it is computed and cached.
pub fn highlight_log_memo(cache: &mut FrameCache, producer: u64, theme: &LogTheme, text: &str) -> (r: (
    LayoutJob,
    bool,
))
    requires
        old(cache).wf(),
    ensures
        log_memo_step(*old(cache), *final(cache), producer, *theme, text@, r.0@, r.1),
        r.0@ == log_sections(*theme, text@),
{
    let key = CacheKey { producer, content: text.to_owned(), style: StyleKey::Log(*theme) };
    match cache.lookup(&key) {
        Some(j) => {
            assert(*cache == *old(cache));
            (j, true)
        },
        None => {
            let j = highlight_log(theme, text);
            let stored = duplicate_job(&j);
            cache.store(key, stored);
            (j, false)
        },
    }
}

/// Within one frame, asking twice for the same console layout gives the
/// artifact of the first request, from the cache, without computing it again.
pub proof fn lemma_memo_same_frame(
    c0: FrameCache,
    c1: FrameCache,
    c2: FrameCache,
    producer: u64,
    theme: LogTheme,
    text: Seq<char>,
    job1: Seq<(Seq<char>, TextFormat)>,
    hit1: bool,
    job2: Seq<(Seq<char>, TextFormat)>,
    hit2: bool,
)
    requires
        c0.wf(),
        log_memo_step(c0, c1, producer, theme, text, job1, hit1),
        log_memo_step(c1, c2, producer, theme, text, job2, hit2),
    ensures
        hit2,
        job2 == job1,
        c2 == c1,
{
}

/// After a new frame begins, no request is served from the cache: the next
/// request for any key computes its artifact again.
pub proof fn lemma_memo_new_frame(
    c0: FrameCache,
    c1: FrameCache,
    producer: u64,
    theme: LogTheme,
    text: Seq<char>,
    job: Seq<(Seq<char>, TextFormat)>,
    hit: bool,
)
    requires
        forall|k: KeyModel| c0.fresh(k) is None,
        log_memo_step(c0, c1, producer, theme, text, job, hit),
    ensures
        !hit,
        job == log_sections(theme, text),
{
}

} // verus!

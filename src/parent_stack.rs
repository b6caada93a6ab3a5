use vstd::prelude::*;
use crate::ids::EguiId;
use crate::types::GuiError;

verus! {

/// One active drawing surface, with the identity of the scope that opened it.
#[derive(Clone, Copy, Debug, PartialEq, Eq, Structural)]
pub struct ParentEntry {
    pub surface: u64,
    pub scope: EguiId,
}

/// The stack of active drawing surfaces of one GUI root during one pass.
/// Containers push their child surface before running nested content and pop
/// it afterwards; nested nodes draw onto the innermost entry.
pub struct ParentStack {
    entries: Vec<ParentEntry>,
}

impl View for ParentStack {
    type V = Seq<ParentEntry>;

    closed spec fn view(&self) -> Seq<ParentEntry> {
        self.entries@
    }
}

impl ParentStack {
    pub fn new() -> (s: ParentStack)
        ensures
            s@ == Seq::<ParentEntry>::empty(),
    {
        ParentStack { entries: Vec::new() }
    }

    pub fn depth(&self) -> (n: usize)
        ensures
            n == self@.len(),
    {
        self.entries.len()
    }

    pub fn is_empty(&self) -> (b: bool)
        ensures
            b == (self@.len() == 0),
    {
        self.entries.len() == 0
    }

    pub fn push(&mut self, scope: EguiId, surface: u64)
        ensures
            final(self)@ == old(self)@.push(ParentEntry { surface, scope }),
    {
        self.entries.push(ParentEntry { surface, scope });
    }

    /// Removes the top entry and returns it; `None` on an empty stack.
    pub fn pop(&mut self) -> (r: Option<ParentEntry>)
        ensures
            old(self)@.len() == 0 ==> r is None && final(self)@ == old(self)@,
            old(self)@.len() > 0 ==> r == Some(old(self)@.last()) && final(self)@
                == old(self)@.drop_last(),
    {
        self.entries.pop()
    }

    /// The innermost active surface, or `NoActiveSurface` on an empty stack.
    pub fn current(&self) -> (r: Result<ParentEntry, GuiError>)
        ensures
            self@.len() == 0 ==> r == Err::<ParentEntry, GuiError>(GuiError::NoActiveSurface),
            self@.len() > 0 ==> r == Ok::<ParentEntry, GuiError>(self@.last()),
    {
        let n = self.entries.len();
        if n == 0 {
            Err(GuiError::NoActiveSurface)
        } else {
            Ok(self.entries[n - 1])
        }
    }
}

} // verus!

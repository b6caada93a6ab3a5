use vstd::prelude::*;

verus! {

/// An enumeration type made known to the host: its name and its
/// four-character type code.
pub struct EnumTypeInfo {
    pub name: String,
    pub code: (u8, u8, u8, u8),
}

/// What a module registers with the host engine: node kind names, in
/// registration order, and enumeration types.
pub struct Registry {
    pub kinds: Vec<String>,
    pub enums: Vec<EnumTypeInfo>,
}

pub open spec fn names_view(v: Seq<String>) -> Seq<Seq<char>> {
    v.map_values(|s: String| s@)
}

pub open spec fn enums_view(v: Seq<EnumTypeInfo>) -> Seq<(Seq<char>, (u8, u8, u8, u8))> {
    v.map_values(|e: EnumTypeInfo| (e.name@, e.code))
}

impl Registry {
    pub fn new() -> (r: Registry)
        ensures
            r.kinds@.len() == 0,
            r.enums@.len() == 0,
    {
        Registry { kinds: Vec::new(), enums: Vec::new() }
    }

    /// Registers a node kind by name.
    pub fn add_kind(&mut self, name: &str)
        ensures
            names_view(final(self).kinds@) == names_view(old(self).kinds@).push(name@),
            enums_view(final(self).enums@) == enums_view(old(self).enums@),
    {
        self.kinds.push(name.to_owned());
        assert(names_view(self.kinds@) =~= names_view(old(self).kinds@).push(name@));
    }

    /// Registers an enumeration type.
    pub fn add_enum(&mut self, name: &str, code: (u8, u8, u8, u8))
        ensures
            names_view(final(self).kinds@) == names_view(old(self).kinds@),
            enums_view(final(self).enums@) == enums_view(old(self).enums@).push((name@, code)),
    {
        self.enums.push(EnumTypeInfo { name: name.to_owned(), code });
        assert(enums_view(self.enums@) =~= enums_view(old(self).enums@).push((name@, code)));
    }
}

} // verus!

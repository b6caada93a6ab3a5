use vstd::prelude::*;
use crate::registry::{enums_view, names_view, Registry};

verus! {

/// Registers the GUI root and the panel container.
pub fn registerShards(reg: &mut Registry)
    ensures
        names_view(final(reg).kinds@) == names_view(old(reg).kinds@) + seq!["GUI"@, "GUI.Panels"@],
        enums_view(final(reg).enums@) == enums_view(old(reg).enums@),
{
    reg.add_kind("GUI");
    reg.add_kind("GUI.Panels");
    assert(names_view(reg.kinds@) =~= names_view(old(reg).kinds@) + seq!["GUI"@, "GUI.Panels"@]);
}

} // verus!

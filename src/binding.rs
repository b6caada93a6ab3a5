use vstd::prelude::*;
use crate::types::{GuiError, VarType};

verus! {

/// One entry of a scope's table of exposed (or required) variables.
#[derive(Clone, Debug)]
pub struct ExposedInfo {
    pub name: String,
    pub exposed_type: VarType,
}

/// The mathematical view of an [`ExposedInfo`].
pub struct ExposedModel {
    pub name: Seq<char>,
    pub exposed_type: VarType,
}

impl View for ExposedInfo {
    type V = ExposedModel;

    open spec fn view(&self) -> ExposedModel {
        ExposedModel { name: self.name@, exposed_type: self.exposed_type }
    }
}

/// The view of a whole table.
pub open spec fn table_view(t: Seq<ExposedInfo>) -> Seq<ExposedModel> {
    t.map_values(|e: ExposedInfo| e@)
}

/// The index of the first entry of `t` named `name`, if any.
pub open spec fn first_named(t: Seq<ExposedModel>, name: Seq<char>) -> Option<int>
    decreases t.len(),
{
    if t.len() == 0 {
        None
    } else if t.last().name == name {
        match first_named(t.drop_last(), name) {
            Some(i) => Some(i),
            None => Some(t.len() - 1),
        }
    } else {
        first_named(t.drop_last(), name)
    }
}

/// Whether some entry of `t` is named `name`.
pub open spec fn is_visible(t: Seq<ExposedModel>, name: Seq<char>) -> bool {
    exists|i: int| 0 <= i < t.len() && #[trigger] t[i].name == name
}

/// What a node bound to variable `name` of type `ty` decides at compose time:
/// `Ok(true)` when it must expose the variable itself, `Ok(false)` when the
/// enclosing scope already owns a same-named variable of the same type, and
/// `TypeMismatch` when that variable has another type.
pub open spec fn exposure_decision(t: Seq<ExposedModel>, name: Seq<char>, ty: VarType) -> Result<
    bool,
    GuiError,
> {
    match first_named(t, name) {
        None => Ok(true),
        Some(i) => if t[i].exposed_type == ty {
            Ok(false)
        } else {
            Err(GuiError::TypeMismatch)
        },
    }
}

/// The table after the node has declared its exposure.
pub open spec fn table_after_exposure(t: Seq<ExposedModel>, name: Seq<char>, ty: VarType) -> Seq<
    ExposedModel,
> {
    match exposure_decision(t, name, ty) {
        Ok(true) => t.push(ExposedModel { name, exposed_type: ty }),
        _ => t,
    }
}

/// What a node that requires variable `name` of type `ty` finds in scope.
pub open spec fn requirement_outcome(t: Seq<ExposedModel>, name: Seq<char>, ty: VarType) -> Result<
    (),
    GuiError,
> {
    match first_named(t, name) {
        None => Err(GuiError::MissingDependency),
        Some(i) => if t[i].exposed_type == ty || ty == VarType::Any {
            Ok(())
        } else {
            Err(GuiError::TypeMismatch)
        },
    }
}

pub proof fn lemma_first_named(t: Seq<ExposedModel>, name: Seq<char>)
    ensures
        first_named(t, name) is None <==> !is_visible(t, name),
        first_named(t, name) matches Some(i) ==> 0 <= i < t.len() && t[i].name == name && forall|
            j: int,
        |
            0 <= j < i ==> #[trigger] t[j].name != name,
    decreases t.len(),
{
    if t.len() > 0 {
        let d = t.drop_last();
        lemma_first_named(d, name);
        assert forall|j: int| 0 <= j < d.len() implies #[trigger] d[j] == t[j] by {}
        match first_named(d, name) {
            Some(i) => {
                assert(first_named(t, name) == Some(i));
                assert(d[i] == t[i]);
                assert forall|j: int| 0 <= j < i implies #[trigger] t[j].name != name by {
                    assert(d[j] == t[j]);
                }
                assert(is_visible(t, name));
            },
            None => {
                if t.last().name == name {
                    assert(t[t.len() - 1].name == name);
                    assert forall|j: int| 0 <= j < t.len() - 1 implies #[trigger] t[j].name
                        != name by {
                        assert(d[j] == t[j]);
                        if d[j].name == name {
                            assert(is_visible(d, name));
                        }
                    }
                    assert(is_visible(t, name));
                } else {
                    if is_visible(t, name) {
                        let i = choose|i: int| 0 <= i < t.len() && #[trigger] t[i].name == name;
                        assert(d[i] == t[i]);
                        assert(is_visible(d, name));
                    }
                }
            },
        }
    }
}

/// Searches `table` for the first entry named `name`.
pub fn find_exposed(table: &Vec<ExposedInfo>, name: &str) -> (r: Option<usize>)
    ensures
        r is None <==> first_named(table_view(table@), name@) is None,
        r matches Some(i) ==> first_named(table_view(table@), name@) == Some(i as int),
        r matches Some(i) ==> i < table.len() && table@[i as int].name@ == name@,
{
    let ghost tv = table_view(table@);
    let key = name.to_owned();
    let mut i: usize = 0;
    while i < table.len()
        invariant
            i <= table.len(),
            tv == table_view(table@),
            key@ == name@,
            forall|j: int| 0 <= j < i ==> #[trigger] tv[j].name != name@,
        decreases table.len() - i,
    {
        let same = table[i].name == key;
        if same {
            proof {
                lemma_first_named(tv, name@);
                assert(tv[i as int].name == name@);
                if let Some(k) = first_named(tv, name@) {
                    assert(k == i);
                }
            }
            return Some(i);
        }
        i = i + 1;
    }
    proof {
        lemma_first_named(tv, name@);
        if let Some(k) = first_named(tv, name@) {
            assert(tv[k].name != name@);
        }
    }
    None
}

/// Reconciles a node bound to variable `name` of type `ty` with the variables
/// already visible in the enclosing scope: see [`exposure_decision`].
pub fn resolve_exposure(shared: &Vec<ExposedInfo>, name: &str, ty: VarType) -> (r: Result<
    bool,
    GuiError,
>)
    ensures
        r == exposure_decision(table_view(shared@), name@, ty),
{
    match find_exposed(shared, name) {
        None => Ok(true),
        Some(i) => {
            assert(table_view(shared@)[i as int] == shared@[i as int]@);
            if shared[i].exposed_type == ty {
                Ok(false)
            } else {
                Err(GuiError::TypeMismatch)
            }
        },
    }
}

/// Declares in `scope` that a node exposes variable `name` of type `ty`. An
/// entry is added only when no same-named variable is visible yet; a visible
/// one of another type is a `TypeMismatch` and leaves the scope unchanged.
pub fn declare_exposure(scope: &mut Vec<ExposedInfo>, name: &str, ty: VarType) -> (r: Result<
    bool,
    GuiError,
>)
    ensures
        r == exposure_decision(table_view(old(scope)@), name@, ty),
        table_view(final(scope)@) == table_after_exposure(table_view(old(scope)@), name@, ty),
{
    let r = resolve_exposure(scope, name, ty);
    if let Ok(true) = r {
        scope.push(ExposedInfo { name: name.to_owned(), exposed_type: ty });
        proof {
            assert(table_view(scope@) =~= table_view(old(scope)@).push(
                ExposedModel { name: name@, exposed_type: ty },
            ));
        }
    }
    r
}

/// Checks that variable `name` of type `ty` is visible in `visible`; a
/// required type of `Any` accepts a variable of any type.
pub fn check_required(visible: &Vec<ExposedInfo>, name: &str, ty: VarType) -> (r: Result<
    (),
    GuiError,
>)
    ensures
        r == requirement_outcome(table_view(visible@), name@, ty),
{
    match find_exposed(visible, name) {
        None => Err(GuiError::MissingDependency),
        Some(i) => {
            assert(table_view(visible@)[i as int] == visible@[i as int]@);
            if shared_type_matches(visible[i].exposed_type, ty) {
                Ok(())
            } else {
                Err(GuiError::TypeMismatch)
            }
        },
    }
}

fn shared_type_matches(found: VarType, wanted: VarType) -> (r: bool)
    ensures
        r == (found == wanted || wanted == VarType::Any),
{
    found == wanted || wanted == VarType::Any
}

/// Exposure is idempotent: once a node has declared variable `name` of type
/// `ty` in a scope, declaring it again succeeds without adding an entry, and
/// declaring it with another type fails with `TypeMismatch`.
pub proof fn lemma_exposure_idempotent(t: Seq<ExposedModel>, name: Seq<char>, ty: VarType, other: VarType)
    requires
        exposure_decision(t, name, ty) is Ok,
        other != ty,
    ensures
        ({
            let t1 = table_after_exposure(t, name, ty);
            &&& exposure_decision(t1, name, ty) == Ok::<bool, GuiError>(false)
            &&& table_after_exposure(t1, name, ty) == t1
            &&& exposure_decision(t1, name, other) == Err::<bool, GuiError>(GuiError::TypeMismatch)
        }),
{
    let t1 = table_after_exposure(t, name, ty);
    lemma_first_named(t, name);
    lemma_first_named(t1, name);
    if first_named(t, name) is None {
        let k = t.len() as int;
        assert(t1[k].name == name);
        assert(first_named(t1, name) == Some(k));
    } else {
        assert(t1 == t);
    }
}

/// A variable already present with a matching type is not exposed again,
/// and one present with another type is refused.
pub proof fn lemma_exposure_of_present(t: Seq<ExposedModel>, i: int, ty: VarType)
    requires
        0 <= i < t.len(),
        forall|j: int| 0 <= j < t.len() && j != i ==> #[trigger] t[j].name != t[i].name,
    ensures
        t[i].exposed_type == ty ==> exposure_decision(t, t[i].name, ty) == Ok::<bool, GuiError>(false)
            && table_after_exposure(t, t[i].name, ty) == t,
        t[i].exposed_type != ty ==> exposure_decision(t, t[i].name, ty) == Err::<bool, GuiError>(
            GuiError::TypeMismatch,
        ) && table_after_exposure(t, t[i].name, ty) == t,
{
    lemma_first_named(t, t[i].name);
}

/// The name of the variable that holds the stack of active surfaces.
pub open spec fn parents_var() -> Seq<char> {
    "UI.Parents"@
}

/// The name of the variable that holds a GUI root context.
pub open spec fn root_var() -> Seq<char> {
    "GUI.Root"@
}

pub fn parents_name() -> (r: String)
    ensures
        r@ == parents_var(),
{
    "UI.Parents".to_owned()
}

pub fn root_name() -> (r: String)
    ensures
        r@ == root_var(),
{
    "GUI.Root".to_owned()
}

/// The declaration by which a node requires an enclosing drawing surface.
pub fn require_parents() -> (e: ExposedInfo)
    ensures
        e@ == (ExposedModel { name: parents_var(), exposed_type: VarType::UiParents }),
{
    ExposedInfo { name: parents_name(), exposed_type: VarType::UiParents }
}

/// A copy of a table.
pub fn copy_table(t: &Vec<ExposedInfo>) -> (r: Vec<ExposedInfo>)
    ensures
        table_view(r@) == table_view(t@),
{
    let mut r: Vec<ExposedInfo> = Vec::new();
    let mut i: usize = 0;
    while i < t.len()
        invariant
            i <= t.len(),
            r@.len() == i,
            table_view(r@) == table_view(t@.take(i as int)),
        decreases t.len() - i,
    {
        let ghost prev = r@;
        r.push(ExposedInfo { name: t[i].name.clone(), exposed_type: t[i].exposed_type });
        assert forall|j: int| 0 <= j < i + 1 implies #[trigger] table_view(r@)[j] == table_view(
            t@.take(i + 1),
        )[j] by {
            if j < i {
                assert(r@[j] == prev[j]);
                assert(table_view(prev)[j] == table_view(t@.take(i as int))[j]);
                assert(t@.take(i as int)[j] == t@.take(i + 1)[j]);
            }
        }
        assert(table_view(r@) =~= table_view(t@.take(i + 1)));
        i = i + 1;
    }
    assert(t@.take(i as int) =~= t@);
    r
}

} // verus!

//! Compiling a cell definition, together with the dependency report a
//! language-specific static analyzer produced for it, into an operation
//! node with declared input and output signatures.

use vstd::prelude::*;
use crate::cells::{CodeCell, SupportedLanguage};
use crate::operation::{
    InputItemConfiguation, InputSignature, InputType, OperationNode, OutputItemConfiguation,
    OutputSignature, entry_keys,
};
use crate::text::{str_eq, clone_opt_string};

verus! {

/// A language-specific static analyzer's report on one cell: the names the
/// cell reads, the names it exposes, and the functions it makes invocable.
#[derive(Clone, Debug)]
pub struct DependencyReport {
    pub cell_depended_values: Vec<String>,
    pub cell_exposed_values: Vec<String>,
    pub triggerable_functions: Vec<String>,
}

/// The views of a list of names.
pub open spec fn name_views(names: Seq<String>) -> Seq<Seq<char>> {
    names.map_values(|n: String| n@)
}

/// Whether an entry list already holds the key.
#[verifier::loop_isolation(false)]
fn input_key_present(entries: &Vec<(String, InputItemConfiguation)>, name: &String) -> (r: bool)
    ensures
        r == entry_keys(entries@).contains(name@),
{
    let mut i: usize = 0;
    while i < entries.len()
        invariant
            0 <= i <= entries@.len(),
            forall|k: int| 0 <= k < i ==> entry_keys(entries@)[k] != name@,
        decreases entries@.len() - i,
    {
        if str_eq(entries[i].0.as_str(), name.as_str()) {
            proof {
                assert(entry_keys(entries@)[i as int] == name@);
            }
            return true;
        }
        i = i + 1;
    }
    proof {
        if entry_keys(entries@).contains(name@) {
            let j = choose|j: int|
                0 <= j < entry_keys(entries@).len() && entry_keys(entries@)[j] == name@;
            assert(entry_keys(entries@)[j] != name@);
        }
    }
    false
}

/// Whether an output entry list already holds the key.
#[verifier::loop_isolation(false)]
fn output_key_present(entries: &Vec<(String, OutputItemConfiguation)>, name: &String) -> (r: bool)
    ensures
        r == entry_keys(entries@).contains(name@),
{
    let mut i: usize = 0;
    while i < entries.len()
        invariant
            0 <= i <= entries@.len(),
            forall|k: int| 0 <= k < i ==> entry_keys(entries@)[k] != name@,
        decreases entries@.len() - i,
    {
        if str_eq(entries[i].0.as_str(), name.as_str()) {
            proof {
                assert(entry_keys(entries@)[i as int] == name@);
            }
            return true;
        }
        i = i + 1;
    }
    proof {
        if entry_keys(entries@).contains(name@) {
            let j = choose|j: int|
                0 <= j < entry_keys(entries@).len() && entry_keys(entries@)[j] == name@;
            assert(entry_keys(entries@)[j] != name@);
        }
    }
    false
}

/// One input entry per distinct depended name: a generic value, no default.
#[verifier::loop_isolation(false)]
fn build_input_globals(names: &Vec<String>) -> (r: Vec<(String, InputItemConfiguation)>)
    ensures
        entry_keys(r@).no_duplicates(),
        entry_keys(r@).to_set() == name_views(names@).to_set(),
        forall|i: int|
            0 <= i < r@.len() ==> (#[trigger] r@[i]).1.ty == Some(InputType::String)
                && r@[i].1.default is None,
{
    let mut r: Vec<(String, InputItemConfiguation)> = Vec::new();
    let mut i: usize = 0;
    proof {
        assert(entry_keys(r@).to_set() =~= name_views(names@.take(0)).to_set());
    }
    while i < names.len()
        invariant
            0 <= i <= names@.len(),
            entry_keys(r@).no_duplicates(),
            entry_keys(r@).to_set() == name_views(names@.take(i as int)).to_set(),
            forall|k: int|
                0 <= k < r@.len() ==> (#[trigger] r@[k]).1.ty == Some(InputType::String)
                    && r@[k].1.default is None,
        decreases names@.len() - i,
    {
        let name = &names[i];
        let ghost prev = r@;
        if !input_key_present(&r, name) {
            r.push(
                (name.clone(), InputItemConfiguation { ty: Some(InputType::String), default: None }),
            );
            proof {
                assert(entry_keys(r@) =~= entry_keys(prev).push(name@));
                crate::seq_util::lemma_push_to_set(entry_keys(prev), name@);
                assert forall|p: int, q: int|
                    0 <= p < q < entry_keys(r@).len() implies entry_keys(r@)[p] != entry_keys(
                    r@,
                )[q] by {
                    if q == entry_keys(r@).len() - 1 {
                        if entry_keys(r@)[p] == name@ {
                            assert(entry_keys(prev)[p] == name@);
                            assert(entry_keys(prev).contains(name@));
                        }
                    }
                }
            }
        } else {
            proof {
                assert(entry_keys(prev).to_set().insert(name@) =~= entry_keys(prev).to_set());
            }
        }
        proof {
            assert(name_views(names@.take(i as int + 1)) =~= name_views(names@.take(i as int)).push(
                names@[i as int]@,
            ));
            crate::seq_util::lemma_push_to_set(name_views(names@.take(i as int)), names@[i as int]@);
        }
        i = i + 1;
    }
    proof {
        assert(names@.take(names@.len() as int) =~= names@);
    }
    r
}

/// One output entry per distinct name, each tagged with the given type.
#[verifier::loop_isolation(false)]
fn build_output_entries(names: &Vec<String>, ty: InputType) -> (r: Vec<
    (String, OutputItemConfiguation),
>)
    ensures
        entry_keys(r@).no_duplicates(),
        entry_keys(r@).to_set() == name_views(names@).to_set(),
        forall|i: int| 0 <= i < r@.len() ==> (#[trigger] r@[i]).1.ty == Some(ty),
{
    let mut r: Vec<(String, OutputItemConfiguation)> = Vec::new();
    let mut i: usize = 0;
    proof {
        assert(entry_keys(r@).to_set() =~= name_views(names@.take(0)).to_set());
    }
    while i < names.len()
        invariant
            0 <= i <= names@.len(),
            entry_keys(r@).no_duplicates(),
            entry_keys(r@).to_set() == name_views(names@.take(i as int)).to_set(),
            forall|k: int| 0 <= k < r@.len() ==> (#[trigger] r@[k]).1.ty == Some(ty),
        decreases names@.len() - i,
    {
        let name = &names[i];
        let ghost prev = r@;
        if !output_key_present(&r, name) {
            r.push((name.clone(), OutputItemConfiguation { ty: Some(ty) }));
            proof {
                assert(entry_keys(r@) =~= entry_keys(prev).push(name@));
                crate::seq_util::lemma_push_to_set(entry_keys(prev), name@);
                assert forall|p: int, q: int|
                    0 <= p < q < entry_keys(r@).len() implies entry_keys(r@)[p] != entry_keys(
                    r@,
                )[q] by {
                    if q == entry_keys(r@).len() - 1 {
                        if entry_keys(r@)[p] == name@ {
                            assert(entry_keys(prev)[p] == name@);
                            assert(entry_keys(prev).contains(name@));
                        }
                    }
                }
            }
        } else {
            proof {
                assert(entry_keys(prev).to_set().insert(name@) =~= entry_keys(prev).to_set());
            }
        }
        proof {
            assert(name_views(names@.take(i as int + 1)) =~= name_views(names@.take(i as int)).push(
                names@[i as int]@,
            ));
            crate::seq_util::lemma_push_to_set(name_views(names@.take(i as int)), names@[i as int]@);
        }
        i = i + 1;
    }
    proof {
        assert(names@.take(names@.len() as int) =~= names@);
    }
    r
}

/// Compile a code cell and its dependency report into an operation node:
/// one input entry per depended name (a generic value, no default), one
/// output entry per exposed name, one invocable output entry per
/// triggerable function, and the arity equal to the number of distinct
/// depended names. A cell in a language with no analysis — Starlark — gets
/// empty signatures; its body is the identity passthrough the host supplies.
pub fn code_cell(cell: &CodeCell, report: &DependencyReport) -> (r: OperationNode)
    ensures
        r.name == cell.name,
        r.dependency_count == r.input_signature.globals@.len(),
        cell.language == SupportedLanguage::Starlark ==> r.input_signature.globals@.len() == 0
            && r.output_signature.globals@.len() == 0 && r.output_signature.functions@.len() == 0,
        cell.language != SupportedLanguage::Starlark ==> {
            &&& entry_keys(r.input_signature.globals@).no_duplicates()
            &&& entry_keys(r.input_signature.globals@).to_set() == name_views(
                report.cell_depended_values@,
            ).to_set()
            &&& forall|i: int|
                0 <= i < r.input_signature.globals@.len()
                    ==> (#[trigger] r.input_signature.globals@[i]).1.ty == Some(InputType::String)
                    && r.input_signature.globals@[i].1.default is None
            &&& entry_keys(r.output_signature.globals@).no_duplicates()
            &&& entry_keys(r.output_signature.globals@).to_set() == name_views(
                report.cell_exposed_values@,
            ).to_set()
            &&& forall|i: int|
                0 <= i < r.output_signature.globals@.len()
                    ==> (#[trigger] r.output_signature.globals@[i]).1.ty == Some(InputType::String)
            &&& entry_keys(r.output_signature.functions@).no_duplicates()
            &&& entry_keys(r.output_signature.functions@).to_set() == name_views(
                report.triggerable_functions@,
            ).to_set()
            &&& forall|i: int|
                0 <= i < r.output_signature.functions@.len()
                    ==> (#[trigger] r.output_signature.functions@[i]).1.ty == Some(
                    InputType::Function,
                )
        },
{
    match cell.language {
        SupportedLanguage::Starlark => OperationNode::new(
            clone_opt_string(&cell.name),
            InputSignature::new(),
            OutputSignature::new(),
        ),
        _ => {
            let input_signature = InputSignature {
                globals: build_input_globals(&report.cell_depended_values),
            };
            let output_signature = OutputSignature {
                globals: build_output_entries(&report.cell_exposed_values, InputType::String),
                functions: build_output_entries(&report.triggerable_functions, InputType::Function),
            };
            OperationNode::new(clone_opt_string(&cell.name), input_signature, output_signature)
        },
    }
}

} // verus!

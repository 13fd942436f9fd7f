//! The operation model: one executable unit with a fixed arity, declared
//! input/output signatures, and an opaque body that the host runs through an
//! [`ExecutionBackend`].

use vstd::prelude::*;

verus! {

/// Type tag for a declared input or output of a cell.
#[derive(Clone, Copy, PartialEq, Eq, Structural, Debug)]
pub enum InputType {
    String,
    Function,
}

/// Configuration of one declared input: an optional type tag and an optional
/// serialized default value.
#[derive(Clone, Debug)]
pub struct InputItemConfiguation {
    pub ty: Option<InputType>,
    pub default: Option<Vec<u8>>,
}

/// Configuration of one declared output: an optional type tag.
#[derive(Clone, PartialEq, Eq, Structural, Debug)]
pub struct OutputItemConfiguation {
    pub ty: Option<InputType>,
}

/// Declared dependencies of a cell: a name-keyed mapping, each entry carrying
/// an [`InputItemConfiguation`]. Keys are unique.
#[derive(Clone, Debug)]
pub struct InputSignature {
    pub globals: Vec<(String, InputItemConfiguation)>,
}

/// Declared exposures of a cell: value entries under `globals` and invocable
/// entries under `functions`. Keys are unique within each list.
#[derive(Clone, Debug)]
pub struct OutputSignature {
    pub globals: Vec<(String, OutputItemConfiguation)>,
    pub functions: Vec<(String, OutputItemConfiguation)>,
}

/// The keys of a name-keyed entry list.
pub open spec fn entry_keys<T>(entries: Seq<(String, T)>) -> Seq<Seq<char>> {
    entries.map_values(|e: (String, T)| e.0@)
}

impl InputSignature {
    /// An input signature with no declared dependencies.
    pub fn new() -> (r: InputSignature)
        ensures
            r.globals@ =~= Seq::<(String, InputItemConfiguation)>::empty(),
    {
        InputSignature { globals: Vec::new() }
    }
}

impl OutputSignature {
    /// An output signature with no declared exposures.
    pub fn new() -> (r: OutputSignature)
        ensures
            r.globals@ =~= Seq::<(String, OutputItemConfiguation)>::empty(),
            r.functions@ =~= Seq::<(String, OutputItemConfiguation)>::empty(),
    {
        OutputSignature { globals: Vec::new(), functions: Vec::new() }
    }
}

/// One executable unit of the graph. `dependency_count` is fixed at
/// construction and equals the number of positional argument slots the
/// operation's body expects; the body itself is opaque to the engine and is
/// supplied by the host as an [`ExecutionBackend`].
#[derive(Clone, Debug)]
pub struct OperationNode {
    pub name: Option<String>,
    pub input_signature: InputSignature,
    pub output_signature: OutputSignature,
    pub dependency_count: usize,
}

impl OperationNode {
    /// An operation built from its declared signatures; the arity is the
    /// number of declared input dependencies.
    pub fn new(
        name: Option<String>,
        input_signature: InputSignature,
        output_signature: OutputSignature,
    ) -> (r: OperationNode)
        ensures
            r.name == name,
            r.input_signature == input_signature,
            r.output_signature == output_signature,
            r.dependency_count == input_signature.globals@.len(),
    {
        let dependency_count = input_signature.globals.len();
        OperationNode { name, input_signature, output_signature, dependency_count }
    }

    /// An anonymous operation with the given arity and empty signatures.
    pub fn with_arity(dependency_count: usize) -> (r: OperationNode)
        ensures
            r.name is None,
            r.dependency_count == dependency_count,
            r.input_signature.globals@.len() == 0,
            r.output_signature.globals@.len() == 0,
            r.output_signature.functions@.len() == 0,
    {
        OperationNode {
            name: None,
            input_signature: InputSignature::new(),
            output_signature: OutputSignature::new(),
            dependency_count,
        }
    }
}

/// Why a body invocation failed, classified for the scheduler: a
/// recoverable failure leaves the operation eligible to run again on a
/// later tick with the same or refreshed inputs; a fatal failure marks the
/// operation failed and propagates a failure sentinel to its dependents,
/// without halting the rest of the graph. Each carries the reason.
#[derive(Clone, PartialEq, Eq, Debug)]
pub enum ExecutionFailure {
    Recoverable(String),
    Fatal(String),
}

/// The tagged outcome of running one operation's body: success with an
/// optional output buffer, or a classified failure.
#[derive(Clone, PartialEq, Eq, Debug)]
pub enum OperationResult {
    Success(Option<Vec<u8>>),
    Failure(ExecutionFailure),
}

/// The host side of the engine: given an operation's id and its assembled
/// argument list (one optional serialized buffer per slot), run the
/// operation's body and hand back its tagged outcome.
///
/// The engine imposes no purity requirement on bodies; nothing is assumed of
/// the returned outcome.
pub trait ExecutionBackend {
    fn invoke(&mut self, operation_id: usize, args: Vec<Option<Vec<u8>>>) -> OperationResult;
}

/// The identity-passthrough body: echoes its sole input, the minimal contract
/// a new language integration must satisfy before a real backend is wired in.
pub fn passthrough_body(args: &Vec<Option<Vec<u8>>>) -> (r: Option<Vec<u8>>)
    ensures
        args@.len() > 0 ==> r.deep_view() == args@[0].deep_view(),
        args@.len() == 0 ==> r is None,
{
    if args.len() > 0 {
        match &args[0] {
            Some(b) => Some(b.clone()),
            None => None,
        }
    } else {
        None
    }
}

} // verus!

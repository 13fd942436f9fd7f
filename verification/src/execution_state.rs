//! The immutable, versioned execution state: a value store, the set of ids
//! ever written, the operation table, and the dependency graph, together with
//! the mutation protocol and the stepping algorithm.

use vstd::prelude::*;
use crate::im_api::{
    store_entries, ever_entries, op_table, graph_entries, failure_table, store_new, store_get,
    store_insert, store_remove, store_clone, ever_new, ever_contains, ever_insert, ever_clone,
    ops_new, ops_get, ops_insert, ops_clone, graph_new, graph_get, graph_insert, graph_remove,
    graph_clone, graph_entries_vec, store_keys_vec, failures_new, failures_get, failures_insert,
    failures_clone,
};
use crate::operation::{OperationNode, ExecutionBackend, OperationResult, ExecutionFailure};
use crate::ids::ORDER_ONLY_DEPENDENCY;
use crate::seq_util::{
    lemma_take_full, lemma_push_to_set, dedup_pairs, copy_pairs, push_unique, id_vec_contains,
    pairs_unique,
};
use crate::graph_export::{digraph_nodes, digraph_edges, digraph_new, digraph_add_node, digraph_add_edge};

verus! {

/// What one tick will run and evict, computed by [`ExecutionState::step_plan`]
/// from the previous generation alone.
pub struct StepPlan {
    /// The operations that fire this tick, each with its assembled argument
    /// list: one optional buffer per slot, read from the previous generation.
    pub runnable: Vec<(usize, Vec<Option<Vec<u8>>>)>,
    /// Every id whose stored value was read over some edge this tick.
    pub marked_for_consumption: Vec<usize>,
}

/// The operation ids of a runnable list.
pub open spec fn runnable_ids(runnable: Seq<(usize, Vec<Option<Vec<u8>>>)>) -> Seq<usize> {
    runnable.map_values(|e: (usize, Vec<Option<Vec<u8>>>)| e.0)
}

/// Whether some listed outcome settles id `k`: a success or a fatal
/// failure stands under it. A recoverable failure settles nothing.
pub open spec fn has_settled_result(rs: Seq<(usize, OperationResult)>, k: usize) -> bool {
    exists|ix: int|
        0 <= ix < rs.len() && (#[trigger] rs[ix]).0 == k && !(rs[ix].1 matches
        OperationResult::Failure(ExecutionFailure::Recoverable(_)))
}

/// Whether some listed outcome is a fatal failure under id `k`.
pub open spec fn has_fatal_result(rs: Seq<(usize, OperationResult)>, k: usize) -> bool {
    exists|ix: int|
        0 <= ix < rs.len() && (#[trigger] rs[ix]).0 == k && rs[ix].1 matches
        OperationResult::Failure(ExecutionFailure::Fatal(_))
}

/// The value store after committing each listed outcome in order: a success
/// stores its buffer, a fatal failure stores the absent-buffer sentinel for
/// its dependents, a recoverable failure stores nothing.
pub open spec fn apply_result_values(
    m: Map<usize, Option<Seq<u8>>>,
    rs: Seq<(usize, OperationResult)>,
) -> Map<usize, Option<Seq<u8>>>
    decreases rs.len(),
{
    if rs.len() == 0 {
        m
    } else {
        let prev = apply_result_values(m, rs.drop_last());
        match rs.last().1 {
            OperationResult::Success(v) => prev.insert(rs.last().0, v.deep_view()),
            OperationResult::Failure(ExecutionFailure::Fatal(_)) => prev.insert(rs.last().0, None),
            OperationResult::Failure(ExecutionFailure::Recoverable(_)) => prev,
        }
    }
}

/// The ids the listed outcomes settle, in the order given.
pub open spec fn settled_ids(rs: Seq<(usize, OperationResult)>) -> Set<usize>
    decreases rs.len(),
{
    if rs.len() == 0 {
        Set::empty()
    } else {
        let prev = settled_ids(rs.drop_last());
        match rs.last().1 {
            OperationResult::Failure(ExecutionFailure::Recoverable(_)) => prev,
            _ => prev.insert(rs.last().0),
        }
    }
}

/// The failure table after recording each listed fatal failure's reason.
pub open spec fn apply_result_failures(
    f: Map<usize, Seq<char>>,
    rs: Seq<(usize, OperationResult)>,
) -> Map<usize, Seq<char>>
    decreases rs.len(),
{
    if rs.len() == 0 {
        f
    } else {
        let prev = apply_result_failures(f, rs.drop_last());
        match rs.last().1 {
            OperationResult::Failure(ExecutionFailure::Fatal(reason)) => prev.insert(
                rs.last().0,
                reason@,
            ),
            _ => prev,
        }
    }
}

/// Committing outcomes with pairwise distinct ids touches exactly the
/// settled ids: which keys the store and the failure table hold afterwards,
/// that untouched keys keep their values, and that a fatally failed id
/// holds the absent-buffer sentinel.
pub proof fn lemma_apply_results_facts(
    m: Map<usize, Option<Seq<u8>>>,
    f: Map<usize, Seq<char>>,
    rs: Seq<(usize, OperationResult)>,
)
    requires
        forall|a: int, b: int| 0 <= a < b < rs.len() ==> (#[trigger] rs[a]).0 != (#[trigger] rs[b]).0,
    ensures
        forall|k: usize| #[trigger] settled_ids(rs).contains(k) <==> has_settled_result(rs, k),
        forall|k: usize| #[trigger]
            apply_result_values(m, rs).contains_key(k) <==> m.contains_key(k) || has_settled_result(
                rs,
                k,
            ),
        forall|k: usize|
            m.contains_key(k) && !has_settled_result(rs, k) ==> #[trigger] apply_result_values(
                m,
                rs,
            )[k] == m[k],
        forall|k: usize|
            has_fatal_result(rs, k) ==> #[trigger] apply_result_values(m, rs)[k] is None,
        forall|k: usize| #[trigger]
            apply_result_failures(f, rs).contains_key(k) <==> f.contains_key(k) || has_fatal_result(
                rs,
                k,
            ),
        forall|k: usize|
            f.contains_key(k) && !has_fatal_result(rs, k) ==> #[trigger] apply_result_failures(
                f,
                rs,
            )[k] == f[k],
    decreases rs.len(),
{
    if rs.len() > 0 {
        let prev = rs.drop_last();
        let last = rs.last();
        assert forall|a: int, b: int|
            0 <= a < b < prev.len() implies (#[trigger] prev[a]).0 != (#[trigger] prev[b]).0 by {
            assert(prev[a] == rs[a]);
            assert(prev[b] == rs[b]);
        }
        lemma_apply_results_facts(m, f, prev);
        assert forall|k: usize|
            has_settled_result(prev, k) implies has_settled_result(rs, k) by {
            let ix = choose|ix: int|
                0 <= ix < prev.len() && (#[trigger] prev[ix]).0 == k && !(prev[ix].1 matches
                OperationResult::Failure(ExecutionFailure::Recoverable(_)));
            assert((#[trigger] rs[ix]).0 == k);
        }
        assert forall|k: usize|
            has_settled_result(rs, k) && k != last.0 implies has_settled_result(prev, k) by {
            let ix = choose|ix: int|
                0 <= ix < rs.len() && (#[trigger] rs[ix]).0 == k && !(rs[ix].1 matches
                OperationResult::Failure(ExecutionFailure::Recoverable(_)));
            assert(ix < rs.len() - 1);
            assert((#[trigger] prev[ix]).0 == k);
        }
        assert forall|k: usize|
            has_fatal_result(prev, k) implies has_fatal_result(rs, k) by {
            let ix = choose|ix: int|
                0 <= ix < prev.len() && (#[trigger] prev[ix]).0 == k && prev[ix].1 matches
                OperationResult::Failure(ExecutionFailure::Fatal(_));
            assert((#[trigger] rs[ix]).0 == k);
        }
        assert forall|k: usize|
            has_fatal_result(rs, k) && k != last.0 implies has_fatal_result(prev, k) by {
            let ix = choose|ix: int|
                0 <= ix < rs.len() && (#[trigger] rs[ix]).0 == k && rs[ix].1 matches
                OperationResult::Failure(ExecutionFailure::Fatal(_));
            assert(ix < rs.len() - 1);
            assert((#[trigger] prev[ix]).0 == k);
        }
        // The last entry's id has no earlier occurrence, so its settledness
        // is decided by the last entry alone.
        assert forall|ix: int|
            0 <= ix < prev.len() implies (#[trigger] prev[ix]).0 != last.0 by {
            assert(prev[ix] == rs[ix]);
            assert((#[trigger] rs[ix]).0 != rs[rs.len() - 1].0);
        }
        assert(!has_settled_result(prev, last.0)) by {
            if has_settled_result(prev, last.0) {
                let ix = choose|ix: int|
                    0 <= ix < prev.len() && (#[trigger] prev[ix]).0 == last.0 && !(prev[ix].1
                    matches OperationResult::Failure(ExecutionFailure::Recoverable(_)));
            }
        }
        assert(!has_fatal_result(prev, last.0)) by {
            if has_fatal_result(prev, last.0) {
                let ix = choose|ix: int|
                    0 <= ix < prev.len() && (#[trigger] prev[ix]).0 == last.0 && prev[ix].1 matches
                    OperationResult::Failure(ExecutionFailure::Fatal(_));
            }
        }
        match last.1 {
            OperationResult::Failure(ExecutionFailure::Recoverable(_)) => {
                assert forall|k: usize|
                    #[trigger] has_settled_result(rs, k) implies has_settled_result(prev, k) by {
                    let ix = choose|ix: int|
                        0 <= ix < rs.len() && (#[trigger] rs[ix]).0 == k && !(rs[ix].1 matches
                        OperationResult::Failure(ExecutionFailure::Recoverable(_)));
                    assert(ix < rs.len() - 1);
                    assert((#[trigger] prev[ix]).0 == k);
                }
                assert forall|k: usize|
                    #[trigger] has_fatal_result(rs, k) implies has_fatal_result(prev, k) by {
                    let ix = choose|ix: int|
                        0 <= ix < rs.len() && (#[trigger] rs[ix]).0 == k && rs[ix].1 matches
                        OperationResult::Failure(ExecutionFailure::Fatal(_));
                    assert(ix < rs.len() - 1);
                    assert((#[trigger] prev[ix]).0 == k);
                }
                assert(apply_result_failures(f, rs) == apply_result_failures(f, prev));
                assert(apply_result_values(m, rs) == apply_result_values(m, prev));
                assert(settled_ids(rs) == settled_ids(prev));
            },
            OperationResult::Success(_) => {
                assert(has_settled_result(rs, last.0)) by {
                    assert((#[trigger] rs[rs.len() - 1]).0 == last.0);
                }
                assert(!has_fatal_result(rs, last.0)) by {
                    if has_fatal_result(rs, last.0) {
                        let ix = choose|ix: int|
                            0 <= ix < rs.len() && (#[trigger] rs[ix]).0 == last.0 && rs[ix].1
                            matches OperationResult::Failure(ExecutionFailure::Fatal(_));
                        if ix < rs.len() - 1 {
                            assert((#[trigger] prev[ix]).0 == last.0);
                        }
                    }
                }
                assert forall|k: usize|
                    #[trigger] has_fatal_result(rs, k) implies has_fatal_result(prev, k) by {
                    let ix = choose|ix: int|
                        0 <= ix < rs.len() && (#[trigger] rs[ix]).0 == k && rs[ix].1 matches
                        OperationResult::Failure(ExecutionFailure::Fatal(_));
                    assert(ix < rs.len() - 1);
                    assert((#[trigger] prev[ix]).0 == k);
                }
                assert(apply_result_failures(f, rs) == apply_result_failures(f, prev));
                assert(apply_result_values(m, rs) == apply_result_values(m, prev).insert(
                    last.0,
                    (match last.1 {
                        OperationResult::Success(v) => v.deep_view(),
                        _ => None,
                    }),
                ));
                assert(settled_ids(rs) == settled_ids(prev).insert(last.0));
            },
            OperationResult::Failure(ExecutionFailure::Fatal(_)) => {
                assert(has_settled_result(rs, last.0)) by {
                    assert((#[trigger] rs[rs.len() - 1]).0 == last.0);
                }
                assert(has_fatal_result(rs, last.0)) by {
                    assert((#[trigger] rs[rs.len() - 1]).0 == last.0);
                }
                assert forall|k: usize|
                    #[trigger] has_fatal_result(rs, k) && k != last.0 implies has_fatal_result(
                    prev,
                    k,
                ) by {}
                assert(apply_result_failures(f, rs) == apply_result_failures(f, prev).insert(
                    last.0,
                    (match last.1 {
                        OperationResult::Failure(ExecutionFailure::Fatal(reason)) => reason@,
                        _ => Seq::empty(),
                    }),
                ));
                assert(apply_result_values(m, rs) == apply_result_values(m, prev).insert(
                    last.0,
                    None,
                ));
                assert(settled_ids(rs) == settled_ids(prev).insert(last.0));
            },
        }
        assert forall|k: usize| #[trigger]
            apply_result_failures(f, rs).contains_key(k) <==> (f.contains_key(k)
                || has_fatal_result(rs, k)) by {
            if k != last.0 {
                assert(apply_result_failures(f, prev).contains_key(k) == apply_result_failures(
                    f,
                    rs,
                ).contains_key(k));
            }
        }
        assert forall|k: usize|
            f.contains_key(k) && !has_fatal_result(rs, k) implies #[trigger] apply_result_failures(
            f,
            rs,
        )[k] == f[k] by {
            assert(!has_fatal_result(prev, k));
            if k == last.0 && (last.1 matches OperationResult::Failure(
                ExecutionFailure::Fatal(_),
            )) {
                assert((#[trigger] rs[rs.len() - 1]).0 == k);
                assert(false);
            }
        }
    }
}

/// One edit of the dependency graph. `Create` fully replaces any existing
/// edge set of `operation_id`; `Delete` removes its entry (the node and any
/// stored value are untouched). Applying either to a nonexistent id is not an
/// error.
pub enum DependencyGraphMutation {
    Create { operation_id: usize, depends_on: Vec<(usize, usize)> },
    Delete { operation_id: usize },
}

/// An immutable snapshot of the engine. Every mutator either takes the
/// snapshot by shared reference and returns a successor, or mutates a local
/// copy the caller owns; prior snapshots always remain valid.
pub struct ExecutionState {
    /// Version handle of this snapshot; carried on every snapshot and never
    /// advanced by the operations here.
    #[allow(dead_code)]
    id: (usize, usize),
    /// Stored optional output buffer per operation id.
    state: im::HashMap<usize, Option<Vec<u8>>>,
    /// The operations registered in this state.
    operation_by_id: im::HashMap<usize, OperationNode>,
    /// Ids whose value has ever been set, across the whole state chain.
    has_been_set: im::HashSet<usize>,
    /// For each operation id with an entry: the `(source, argument index)`
    /// edges it depends on, with set semantics (no duplicate pairs).
    pub(crate) dependency_graph: im::HashMap<usize, Vec<(usize, usize)>>,
    /// Ids whose body failed fatally, each with the reason.
    failed_operations: im::HashMap<usize, String>,
}

impl ExecutionState {
    /// The value store of this snapshot.
    pub closed spec fn values(self) -> Map<usize, Option<Seq<u8>>> {
        store_entries(self.state)
    }

    /// The ids ever written in this state chain.
    pub closed spec fn ever_set(self) -> Set<usize> {
        ever_entries(self.has_been_set)
    }

    /// The registered operations.
    pub closed spec fn ops(self) -> Map<usize, OperationNode> {
        op_table(self.operation_by_id)
    }

    /// The dependency graph, as stored: an edge list per id.
    pub closed spec fn graph(self) -> Map<usize, Seq<(usize, usize)>> {
        graph_entries(self.dependency_graph)
    }

    /// The fatally failed operations, each with its reason.
    pub closed spec fn failed(self) -> Map<usize, Seq<char>> {
        failure_table(self.failed_operations)
    }

    /// The dependency graph with set semantics: the edge set per id.
    pub open spec fn graph_sets(self) -> Map<usize, Set<(usize, usize)>> {
        self.graph().map_values(|edges: Seq<(usize, usize)>| edges.to_set())
    }

    /// Each stored edge list holds no duplicate pairs.
    pub open spec fn wf(self) -> bool {
        forall|k: usize|
            self.graph().contains_key(k) ==> (#[trigger] self.graph()[k]).no_duplicates()
    }

    /// A fresh, empty execution state.
    pub fn new() -> (r: ExecutionState)
        ensures
            r.values() == Map::<usize, Option<Seq<u8>>>::empty(),
            r.ever_set() == Set::<usize>::empty(),
            r.ops() == Map::<usize, OperationNode>::empty(),
            r.graph() == Map::<usize, Seq<(usize, usize)>>::empty(),
            r.failed() == Map::<usize, Seq<char>>::empty(),
            r.wf(),
    {
        let r = ExecutionState {
            id: (0, 0),
            state: store_new(),
            operation_by_id: ops_new(),
            has_been_set: ever_new(),
            dependency_graph: graph_new(),
            failed_operations: failures_new(),
        };
        proof {
            assert(r.values() =~= Map::<usize, Option<Seq<u8>>>::empty());
            assert(r.ever_set() =~= Set::<usize>::empty());
            assert(r.ops() =~= Map::<usize, OperationNode>::empty());
            assert(r.graph() =~= Map::<usize, Seq<(usize, usize)>>::empty());
            assert(r.failed() =~= Map::<usize, Seq<char>>::empty());
        }
        r
    }

    /// Store `value` under `operation_id` and mark the id as ever set.
    pub fn state_insert(&mut self, operation_id: usize, value: Option<Vec<u8>>)
        ensures
            final(self).values() == old(self).values().insert(operation_id, value.deep_view()),
            final(self).ever_set() == old(self).ever_set().insert(operation_id),
            final(self).ops() == old(self).ops(),
            final(self).graph() == old(self).graph(),
            final(self).failed() == old(self).failed(),
            old(self).wf() ==> final(self).wf(),
    {
        store_insert(&mut self.state, operation_id, value);
        ever_insert(&mut self.has_been_set, operation_id);
    }

    /// The entry stored under `operation_id`: `None` if the id has no entry,
    /// otherwise the stored optional buffer.
    pub fn state_get<'a>(&'a self, operation_id: &usize) -> (r: Option<&'a Option<Vec<u8>>>)
        ensures
            match r {
                Some(v) => self.values().contains_key(*operation_id) && v.deep_view()
                    == self.values()[*operation_id],
                None => !self.values().contains_key(*operation_id),
            },
    {
        store_get(&self.state, operation_id)
    }

    /// The buffer stored under `operation_id`, owned; `None` if the id has no
    /// entry. An entry must not hold an absent buffer.
    pub fn state_get_value(&self, operation_id: &usize) -> (r: Option<Vec<u8>>)
        requires
            self.values().contains_key(*operation_id) ==> self.values()[*operation_id] is Some,
        ensures
            match r {
                Some(b) => self.values().contains_key(*operation_id) && self.values()[*operation_id]
                    == Some(b@),
                None => !self.values().contains_key(*operation_id),
            },
    {
        match self.state_get(operation_id) {
            None => None,
            Some(entry) => match entry {
                Some(b) => Some(b.clone()),
                None => {
                    assert(false);
                    None
                },
            },
        }
    }

    /// Whether `operation_id` was ever written in this state chain.
    pub fn check_if_previously_set(&self, operation_id: &usize) -> (r: bool)
        ensures
            r == self.ever_set().contains(*operation_id),
    {
        ever_contains(&self.has_been_set, operation_id)
    }

    /// Remove every id in `marked_for_consumption` from the value store.
    pub fn state_consume_marked(&mut self, marked_for_consumption: Vec<usize>)
        ensures
            final(self).values() == old(self).values().remove_keys(
                marked_for_consumption@.to_set(),
            ),
            final(self).ever_set() == old(self).ever_set(),
            final(self).ops() == old(self).ops(),
            final(self).graph() == old(self).graph(),
            final(self).failed() == old(self).failed(),
            old(self).wf() ==> final(self).wf(),
    {
        let ghost all = marked_for_consumption@.to_set();
        let ghost orig = self.values();
        let mut i: usize = 0;
        while i < marked_for_consumption.len()
            invariant
                0 <= i <= marked_for_consumption@.len(),
                all == marked_for_consumption@.to_set(),
                orig == old(self).values(),
                store_entries(self.state) == orig.remove_keys(
                    marked_for_consumption@.take(i as int).to_set(),
                ),
                self.has_been_set == old(self).has_been_set,
                self.operation_by_id == old(self).operation_by_id,
                self.dependency_graph == old(self).dependency_graph,
                self.failed_operations == old(self).failed_operations,
            decreases marked_for_consumption@.len() - i,
        {
            let ghost prefix = marked_for_consumption@.take(i as int).to_set();
            store_remove(&mut self.state, &marked_for_consumption[i]);
            proof {
                let k = marked_for_consumption@[i as int];
                let longer = marked_for_consumption@.take(i as int + 1);
                assert(longer.to_set() =~= prefix.insert(k)) by {
                    assert forall|x: usize| longer.to_set().contains(x) implies prefix.insert(
                        k,
                    ).contains(x) by {
                        let j = choose|j: int| 0 <= j < longer.len() && longer[j] == x;
                        if j < i {
                            assert(marked_for_consumption@.take(i as int)[j] == x);
                        }
                    }
                    assert forall|x: usize| prefix.insert(k).contains(x) implies longer.to_set()
                        .contains(x) by {
                        if prefix.contains(x) {
                            let j = choose|j: int|
                                0 <= j < i && marked_for_consumption@.take(i as int)[j] == x;
                            assert(longer[j] == x);
                        } else {
                            assert(longer[i as int] == x);
                        }
                    }
                }
                assert(orig.remove_keys(prefix).remove(k) =~= orig.remove_keys(prefix.insert(k)));
            }
            i = i + 1;
        }
        proof {
            assert(marked_for_consumption@.take(marked_for_consumption@.len() as int)
                =~= marked_for_consumption@);
        }
    }

    /// Register an operation with the given arity under id `node`, in a new
    /// snapshot; this snapshot is unchanged.
    pub fn add_operation(&mut self, node: usize, args: usize) -> (r: ExecutionState)
        ensures
            r.values() == old(self).values(),
            r.ever_set() == old(self).ever_set(),
            r.graph() == old(self).graph(),
            r.failed() == old(self).failed(),
            r.ops().dom() == old(self).ops().dom().insert(node),
            r.ops()[node].dependency_count == args,
            r.ops()[node].name is None,
            r.ops()[node].input_signature.globals@.len() == 0,
            forall|k: usize|
                k != node && old(self).ops().contains_key(k) ==> #[trigger] r.ops()[k] == old(
                    self,
                ).ops()[k],
            *final(self) == *old(self),
            old(self).wf() ==> r.wf(),
    {
        let mut s = self.clone_snapshot();
        ops_insert(&mut s.operation_by_id, node, OperationNode::with_arity(args));
        s
    }

    /// Every id holding a value in this snapshot's store, each once, in an
    /// unspecified order; a read-only projection for external introspection.
    pub fn state_keys(&self) -> (r: Vec<usize>)
        ensures
            r@.no_duplicates(),
            forall|i: int| 0 <= i < r@.len() ==> self.values().contains_key(#[trigger] r@[i]),
            forall|k: usize|
                self.values().contains_key(k) ==> exists|i: int|
                    0 <= i < r@.len() && #[trigger] r@[i] == k,
    {
        store_keys_vec(&self.state)
    }

    /// The reason `operation_id` failed fatally, if a tick ever recorded
    /// one for it.
    pub fn failed_reason<'a>(&'a self, operation_id: &usize) -> (r: Option<&'a String>)
        ensures
            match r {
                Some(reason) => self.failed().contains_key(*operation_id) && reason@
                    == self.failed()[*operation_id],
                None => !self.failed().contains_key(*operation_id),
            },
    {
        failures_get(&self.failed_operations, operation_id)
    }

    /// The operation registered under `operation_id`, if any.
    pub fn operation_for<'a>(&'a self, operation_id: &usize) -> (r: Option<&'a OperationNode>)
        ensures
            match r {
                Some(node) => self.ops().contains_key(*operation_id) && *node == self.ops().index(
                    *operation_id,
                ),
                None => !self.ops().contains_key(*operation_id),
            },
    {
        ops_get(&self.operation_by_id, operation_id)
    }

    /// The stored edge list of `operation_id`, if it has an entry; a
    /// read-only projection for tests and external introspection.
    pub fn dependency_graph_entry(&self, operation_id: &usize) -> (r: Option<Vec<(usize, usize)>>)
        ensures
            match r {
                Some(v) => self.graph().contains_key(*operation_id) && v@ == self.graph().index(
                    *operation_id,
                ),
                None => !self.graph().contains_key(*operation_id),
            },
    {
        match graph_get(&self.dependency_graph, operation_id) {
            Some(v) => Some(copy_pairs(v)),
            None => None,
        }
    }

    /// What one `Create` or `Delete` does to the graph, with set semantics.
    pub open spec fn apply_mutation_spec(
        g: Map<usize, Set<(usize, usize)>>,
        m: DependencyGraphMutation,
    ) -> Map<usize, Set<(usize, usize)>> {
        match m {
            DependencyGraphMutation::Create { operation_id, depends_on } => g.insert(
                operation_id,
                depends_on@.to_set(),
            ),
            DependencyGraphMutation::Delete { operation_id } => g.remove(operation_id),
        }
    }

    /// What an ordered list of mutations does to the graph: each applied in
    /// turn, later ones over the result of earlier ones.
    pub open spec fn apply_mutations_spec(
        g: Map<usize, Set<(usize, usize)>>,
        muts: Seq<DependencyGraphMutation>,
    ) -> Map<usize, Set<(usize, usize)>>
        decreases muts.len(),
    {
        if muts.len() == 0 {
            g
        } else {
            Self::apply_mutation_spec(
                Self::apply_mutations_spec(g, muts.drop_last()),
                muts.last(),
            )
        }
    }

    /// Apply the mutations in order to this snapshot's dependency graph, in a
    /// new snapshot; `Create` overwrites an id's whole edge set, `Delete`
    /// removes its entry.
    pub fn apply_dependency_graph_mutations(&self, mutations: Vec<DependencyGraphMutation>) -> (r:
        ExecutionState)
        requires
            self.wf(),
        ensures
            r.values() == self.values(),
            r.ever_set() == self.ever_set(),
            r.ops() == self.ops(),
            r.failed() == self.failed(),
            r.graph_sets() == Self::apply_mutations_spec(self.graph_sets(), mutations@),
            r.wf(),
    {
        let mut s = self.clone_snapshot();
        let mut i: usize = 0;
        proof {
            assert(mutations@.take(0) =~= Seq::<DependencyGraphMutation>::empty());
            assert(s.graph_sets() =~= self.graph_sets());
        }
        while i < mutations.len()
            invariant
                0 <= i <= mutations@.len(),
                s.graph_sets() == Self::apply_mutations_spec(
                    self.graph_sets(),
                    mutations@.take(i as int),
                ),
                s.wf(),
                s.values() == self.values(),
                s.ever_set() == self.ever_set(),
                s.ops() == self.ops(),
                s.failed() == self.failed(),
            decreases mutations@.len() - i,
        {
            let ghost pre = s.graph_sets();
            match &mutations[i] {
                DependencyGraphMutation::Create { operation_id, depends_on } => {
                    let deduped = dedup_pairs(depends_on);
                    graph_insert(&mut s.dependency_graph, *operation_id, deduped);
                    proof {
                        assert(s.graph_sets() =~= pre.insert(*operation_id, depends_on@.to_set()));
                    }
                },
                DependencyGraphMutation::Delete { operation_id } => {
                    graph_remove(&mut s.dependency_graph, operation_id);
                    proof {
                        assert(s.graph_sets() =~= pre.remove(*operation_id));
                    }
                },
            }
            proof {
                assert(mutations@.take(i as int + 1).drop_last() =~= mutations@.take(i as int));
                assert(mutations@.take(i as int + 1).last() == mutations@[i as int]);
            }
            i = i + 1;
        }
        proof {
            lemma_take_full(mutations@);
        }
        s
    }

    /// The edge list of `n`: empty if `n` has no graph entry.
    pub open spec fn edges_of(self, n: usize) -> Seq<(usize, usize)> {
        if self.graph().contains_key(n) {
            self.graph()[n]
        } else {
            Seq::empty()
        }
    }

    /// The edges of `n`, as a set.
    pub open spec fn edge_set(self, n: usize) -> Set<(usize, usize)> {
        self.edges_of(n).to_set()
    }

    /// Whether `s` is the source of some edge of the graph.
    pub open spec fn is_graph_source(self, s: usize) -> bool {
        exists|n: usize, i: usize|
            self.graph().contains_key(n) && #[trigger] self.edge_set(n).contains((s, i))
    }

    /// Every id present in the dependency graph: ids with an entry and ids
    /// that some entry depends on.
    pub open spec fn graph_node_set(self) -> Set<usize> {
        self.graph().dom().union(Set::new(|s: usize| self.is_graph_source(s)))
    }

    /// Whether `s` holds a value in this generation's store.
    pub open spec fn valued(self, s: usize) -> bool {
        self.values().contains_key(s)
    }

    /// The declared arity of operation `n`.
    pub open spec fn arity(self, n: usize) -> usize {
        self.ops()[n].dependency_count
    }

    /// A tick may run: every graph node has a registered operation, and every
    /// edge's argument index is either the order-only sentinel or a valid
    /// slot of its target.
    pub open spec fn step_ready(self) -> bool {
        &&& self.wf()
        &&& forall|n: usize|
            self.graph_node_set().contains(n) ==> #[trigger] self.ops().contains_key(n)
        &&& forall|n: usize, e: (usize, usize)|
            self.graph().contains_key(n) && #[trigger] self.edge_set(n).contains(e) ==> e.1
                == ORDER_ONLY_DEPENDENCY || e.1 < self.arity(n)
    }

    /// Whether the tick examines `n` at all: zero-arity nodes that already
    /// produced output are skipped outright.
    pub open spec fn scans(self, n: usize) -> bool {
        self.graph_node_set().contains(n) && (self.arity(n) > 0 || !self.ever_set().contains(n))
    }

    /// Whether an edge fills a slot this tick: it targets a real slot and its
    /// source holds a value.
    pub open spec fn edge_fills(self, e: (usize, usize)) -> bool {
        e.1 != ORDER_ONLY_DEPENDENCY && self.valued(e.0)
    }

    /// How many edges of the list fill a slot this tick.
    pub open spec fn fill_count_rec(self, edges: Seq<(usize, usize)>) -> nat
        decreases edges.len(),
    {
        if edges.len() == 0 {
            0
        } else {
            self.fill_count_rec(edges.drop_last()) + if self.edge_fills(edges.last()) {
                1nat
            } else {
                0nat
            }
        }
    }

    /// How many of `n`'s edges fill a slot this tick.
    pub open spec fn fill_count(self, n: usize) -> nat {
        self.fill_count_rec(self.edges_of(n))
    }

    /// Whether `n` fires this tick: it is scanned and at least as many slot
    /// fills arrive as its arity requires.
    pub open spec fn fires(self, n: usize) -> bool {
        self.scans(n) && self.fill_count(n) >= self.arity(n)
    }

    /// The ids whose value is read over some edge of a scanned node this
    /// tick, whether or not that node fires.
    pub open spec fn consumed(self) -> Set<usize> {
        Set::new(
            |s: usize|
                exists|n: usize, i: usize|
                    self.scans(n) && #[trigger] self.edge_set(n).contains((s, i)) && self.valued(
                        s,
                    ),
        )
    }

    /// Whether some edge of `n` feeds `slot` from a valued source.
    pub open spec fn slot_filled(self, n: usize, slot: usize) -> bool {
        exists|src: usize| #[trigger] self.edge_set(n).contains((src, slot)) && self.valued(src)
    }

    /// What an assembled argument may hold: the value of one of the sources
    /// feeding the slot, or nothing if no valued edge feeds it.
    pub open spec fn arg_ok(self, n: usize, slot: usize, a: Option<Seq<u8>>) -> bool {
        if self.slot_filled(n, slot) {
            exists|src: usize|
                #[trigger] self.edge_set(n).contains((src, slot)) && self.valued(src) && a
                    == self.values()[src]
        } else {
            a is None
        }
    }

    /// A full argument list for `n`: one entry per slot, each as
    /// [`Self::arg_ok`] allows.
    pub open spec fn args_ok(self, n: usize, args: Seq<Option<Seq<u8>>>) -> bool {
        &&& args.len() == self.arity(n)
        &&& forall|slot: int|
            0 <= slot < args.len() ==> self.arg_ok(n, slot as usize, #[trigger] args[slot])
    }

    /// What a correct plan of one tick looks like: the runnable list holds
    /// exactly the firing nodes, once each, with correctly assembled
    /// arguments, and the marked list holds exactly the consumed ids.
    pub open spec fn plan_ok(self, plan: StepPlan) -> bool {
        &&& runnable_ids(plan.runnable@).no_duplicates()
        &&& forall|i: int|
            0 <= i < plan.runnable@.len() ==> self.fires(#[trigger] plan.runnable@[i].0)
                && self.args_ok(plan.runnable@[i].0, plan.runnable@[i].1.deep_view())
        &&& forall|n: usize| self.fires(n) ==> runnable_ids(plan.runnable@).contains(n)
        &&& plan.marked_for_consumption@.to_set() == self.consumed()
    }

    /// The ids consumed by scanning only the listed nodes.
    pub open spec fn consumed_within(self, nodes: Seq<usize>) -> Set<usize> {
        Set::new(
            |s: usize|
                exists|k: int, i: usize|
                    0 <= k < nodes.len() && self.scans(nodes[k]) && #[trigger] self.edge_set(
                        nodes[k],
                    ).contains((s, i)) && self.valued(s),
        )
    }

    /// The valued sources among the listed edges.
    pub open spec fn sources_valued_in(self, edges: Seq<(usize, usize)>) -> Set<usize> {
        Set::new(
            |s: usize|
                exists|j: int|
                    0 <= j < edges.len() && (#[trigger] edges[j]).0 == s && self.valued(s),
        )
    }

    /// [`Self::arg_ok`] restricted to the listed edges.
    pub open spec fn arg_ok_within(
        self,
        edges: Seq<(usize, usize)>,
        slot: usize,
        a: Option<Seq<u8>>,
    ) -> bool {
        if exists|j: int|
            0 <= j < edges.len() && (#[trigger] edges[j]).1 == slot && self.valued(edges[j].0) {
            exists|j: int|
                0 <= j < edges.len() && (#[trigger] edges[j]).1 == slot && self.valued(edges[j].0)
                    && a == self.values()[edges[j].0]
        } else {
            a is None
        }
    }

    /// Every id of the dependency graph, each once: ids with an entry and
    /// ids that some entry depends on.
    #[verifier::loop_isolation(false)]
    fn collect_graph_nodes(&self, entries: &Vec<(usize, Vec<(usize, usize)>)>) -> (nodes: Vec<
        usize,
    >)
        requires
            forall|i: int|
                0 <= i < entries@.len() ==> self.graph().contains_key(
                    (#[trigger] entries@[i]).0,
                ) && self.graph()[entries@[i].0] == entries@[i].1@,
            forall|k: usize|
                self.graph().contains_key(k) ==> exists|i: int|
                    0 <= i < entries@.len() && (#[trigger] entries@[i]).0 == k,
        ensures
            nodes@.no_duplicates(),
            nodes@.to_set() == self.graph_node_set(),
    {
        let mut nodes: Vec<usize> = Vec::new();
        let mut i: usize = 0;
        while i < entries.len()
            invariant
                0 <= i <= entries@.len(),
                nodes@.no_duplicates(),
                forall|x: usize| nodes@.contains(x) ==> self.graph().contains_key(x),
                forall|j: int| 0 <= j < i ==> nodes@.contains((#[trigger] entries@[j]).0),
            decreases entries@.len() - i,
        {
            let ghost prev = nodes@;
            push_unique(&mut nodes, entries[i].0);
            proof {
                assert forall|j: int| 0 <= j < i + 1 implies nodes@.contains(
                    (#[trigger] entries@[j]).0,
                ) by {
                    if j < i {
                        assert(prev.contains(entries@[j].0));
                        assert(nodes@.to_set().contains(entries@[j].0));
                    } else {
                        assert(nodes@.to_set().contains(entries@[i as int].0));
                    }
                }
                assert forall|x: usize| nodes@.contains(x) implies self.graph().contains_key(
                    x,
                ) by {
                    if x != entries@[i as int].0 {
                        assert(nodes@.to_set().contains(x));
                        assert(prev.to_set().contains(x));
                        assert(prev.contains(x));
                    }
                }
            }
            i = i + 1;
        }
        let mut t: usize = 0;
        while t < entries.len()
            invariant
                0 <= t <= entries@.len(),
                nodes@.no_duplicates(),
                forall|x: usize|
                    nodes@.contains(x) ==> self.graph().contains_key(x) || self.is_graph_source(x),
                forall|j: int| 0 <= j < entries@.len() ==> nodes@.contains((#[trigger] entries@[j]).0),
                forall|k: int, jj: int|
                    0 <= k < t && 0 <= jj < entries@[k].1@.len() ==> nodes@.contains(
                        (#[trigger] entries@[k].1@[jj]).0,
                    ),
            decreases entries@.len() - t,
        {
            let edges = &entries[t].1;
            let ghost key_t = entries@[t as int].0;
            let mut j: usize = 0;
            while j < edges.len()
                invariant
                    0 <= j <= edges@.len(),
                    nodes@.no_duplicates(),
                    forall|x: usize|
                        nodes@.contains(x) ==> self.graph().contains_key(x)
                            || self.is_graph_source(x),
                    forall|jx: int|
                        0 <= jx < entries@.len() ==> nodes@.contains((#[trigger] entries@[jx]).0),
                    forall|k: int, jj: int|
                        0 <= k < t && 0 <= jj < entries@[k].1@.len() ==> nodes@.contains(
                            (#[trigger] entries@[k].1@[jj]).0,
                        ),
                    forall|jj: int|
                        0 <= jj < j ==> nodes@.contains((#[trigger] entries@[t as int].1@[jj]).0),
                decreases edges@.len() - j,
            {
                let src = edges[j].0;
                let ghost prev = nodes@;
                proof {
                    let e = entries@[t as int].1@[j as int];
                    assert(self.graph().contains_key(key_t));
                    assert(self.edges_of(key_t) == entries@[t as int].1@);
                    assert(self.edges_of(key_t).contains(e));
                    assert(self.edge_set(key_t).contains((e.0, e.1)));
                    assert(self.is_graph_source(src));
                }
                push_unique(&mut nodes, src);
                proof {
                    assert forall|x: usize| nodes@.contains(x) implies self.graph().contains_key(x)
                        || self.is_graph_source(x) by {
                        if x != src {
                            assert(nodes@.to_set().contains(x));
                            assert(prev.to_set().contains(x));
                            assert(prev.contains(x));
                        }
                    }
                    assert forall|jx: int| 0 <= jx < entries@.len() implies nodes@.contains(
                        (#[trigger] entries@[jx]).0,
                    ) by {
                        assert(prev.contains(entries@[jx].0));
                        assert(nodes@.to_set().contains(entries@[jx].0));
                    }
                    assert forall|k: int, jj: int|
                        0 <= k < t && 0 <= jj < entries@[k].1@.len() implies nodes@.contains(
                        (#[trigger] entries@[k].1@[jj]).0,
                    ) by {
                        assert(prev.contains(entries@[k].1@[jj].0));
                        assert(nodes@.to_set().contains(entries@[k].1@[jj].0));
                    }
                    assert forall|jj: int| 0 <= jj < j + 1 implies nodes@.contains(
                        (#[trigger] entries@[t as int].1@[jj]).0,
                    ) by {
                        if jj < j {
                            assert(prev.contains(entries@[t as int].1@[jj].0));
                            assert(nodes@.to_set().contains(entries@[t as int].1@[jj].0));
                        } else {
                            assert(nodes@.to_set().contains(src));
                        }
                    }
                }
                j = j + 1;
            }
            t = t + 1;
        }
        proof {
            assert(nodes@.to_set() =~= self.graph_node_set()) by {
                assert forall|x: usize| nodes@.to_set().contains(x) implies self.graph_node_set()
                    .contains(x) by {}
                assert forall|x: usize| self.graph_node_set().contains(x) implies nodes@.to_set()
                    .contains(x) by {
                    if self.graph().dom().contains(x) {
                        let i = choose|i: int|
                            0 <= i < entries@.len() && (#[trigger] entries@[i]).0 == x;
                        assert(nodes@.contains(entries@[i].0));
                    } else {
                        let (n, ii): (usize, usize) = choose|n: usize, ii: usize|
                            self.graph().contains_key(n) && #[trigger] self.edge_set(n).contains(
                                (x, ii),
                            );
                        let k = choose|k: int|
                            0 <= k < entries@.len() && (#[trigger] entries@[k]).0 == n;
                        assert(entries@[k].1@ == self.graph()[n]);
                        assert(self.edges_of(n).contains((x, ii)));
                        let jj = choose|jj: int|
                            0 <= jj < entries@[k].1@.len() && entries@[k].1@[jj] == (x, ii);
                        assert(entries@[k].1@[jj].0 == x);
                        assert(nodes@.contains(entries@[k].1@[jj].0));
                    }
                }
            }
        }
        nodes
    }

    /// Decide one tick from this snapshot alone: which operations fire, with
    /// which argument lists read from this generation's store, and which
    /// source ids are marked for consumption — the latter regardless of
    /// whether the reading node ends up firing.
    #[verifier::loop_isolation(false)]
    #[verifier::rlimit(60)]
    pub fn step_plan(&self) -> (plan: StepPlan)
        requires
            self.step_ready(),
        ensures
            self.plan_ok(plan),
    {
        let entries = graph_entries_vec(&self.dependency_graph);
        let nodes = self.collect_graph_nodes(&entries);
        let mut runnable: Vec<(usize, Vec<Option<Vec<u8>>>)> = Vec::new();
        let mut marked: Vec<usize> = Vec::new();
        let mut t: usize = 0;
        proof {
            assert(marked@.to_set() =~= self.consumed_within(nodes@.take(0)));
        }
        while t < nodes.len()
            invariant
                0 <= t <= nodes@.len(),
                runnable_ids(runnable@).no_duplicates(),
                forall|i: int|
                    0 <= i < runnable@.len() ==> self.fires((#[trigger] runnable@[i]).0)
                        && self.args_ok(runnable@[i].0, runnable@[i].1.deep_view())
                        && nodes@.take(t as int).contains(runnable@[i].0),
                forall|k: int|
                    0 <= k < t && self.fires(nodes@[k]) ==> runnable_ids(runnable@).contains(
                        #[trigger] nodes@[k],
                    ),
                marked@.to_set() == self.consumed_within(nodes@.take(t as int)),
            decreases nodes@.len() - t,
        {
            let n = nodes[t];
            let ghost pre_marked_set = marked@.to_set();
            let ghost pre_runnable = runnable@;
            proof {
                assert(nodes@.contains(n));
                assert(nodes@.to_set().contains(n));
                assert(self.graph_node_set().contains(n));
                assert(self.ops().contains_key(n));
            }
            let arity = match ops_get(&self.operation_by_id, &n) {
                Some(op) => op.dependency_count,
                None => {
                    proof {
                        assert(false);
                    }
                    0
                },
            };
            proof {
                assert(arity == self.arity(n));
            }
            let skip = arity == 0 && self.check_if_previously_set(&n);
            if !skip {
                proof {
                    assert(self.scans(n));
                }
                let mut args: Vec<Option<Vec<u8>>> = Vec::new();
                let mut z: usize = 0;
                while z < arity
                    invariant
                        0 <= z <= arity,
                        args@.len() == z,
                        forall|q: int| 0 <= q < z ==> (#[trigger] args@[q]) is None,
                    decreases arity - z,
                {
                    args.push(None);
                    z = z + 1;
                }
                let mut remaining: usize = arity;
                let ghost e_seq = self.edges_of(n);
                match graph_get(&self.dependency_graph, &n) {
                    None => {
                        proof {
                            assert(e_seq =~= Seq::<(usize, usize)>::empty());
                        }
                    },
                    Some(edges) => {
                        proof {
                            assert(edges@ == e_seq);
                        }
                        let mut j: usize = 0;
                        proof {
                            assert(e_seq.take(0) =~= Seq::<(usize, usize)>::empty());
                            assert(self.sources_valued_in(e_seq.take(0)) =~= Set::<usize>::empty());
                            assert(pre_marked_set.union(Set::<usize>::empty()) =~= pre_marked_set);
                        }
                        while j < edges.len()
                            invariant
                                0 <= j <= e_seq.len(),
                                args@.len() == arity,
                                marked@.to_set() == pre_marked_set.union(
                                    self.sources_valued_in(e_seq.take(j as int)),
                                ),
                                remaining as nat == if self.fill_count_rec(e_seq.take(j as int))
                                    >= arity as nat {
                                    0nat
                                } else {
                                    (arity as nat - self.fill_count_rec(
                                        e_seq.take(j as int),
                                    )) as nat
                                },
                                forall|slot: int|
                                    0 <= slot < arity ==> self.arg_ok_within(
                                        e_seq.take(j as int),
                                        slot as usize,
                                        (#[trigger] args@[slot]).deep_view(),
                                    ),
                            decreases e_seq.len() - j,
                        {
                            let src = edges[j].0;
                            let idx = edges[j].1;
                            let ghost e = e_seq[j as int];
                            let ghost prefix = e_seq.take(j as int);
                            let ghost longer = e_seq.take(j as int + 1);
                            proof {
                                assert(e == (src, idx));
                                assert(e_seq.contains(e));
                                assert(self.edge_set(n).contains(e));
                                assert(idx == ORDER_ONLY_DEPENDENCY || idx < arity);
                                assert(longer.drop_last() =~= prefix);
                                assert(longer.last() == e);
                            }
                            match store_get(&self.state, &src) {
                                Some(val) => {
                                    proof {
                                        assert(self.valued(src));
                                    }
                                    let ghost marked_prev = marked@;
                                    marked.push(src);
                                    proof {
                                        lemma_push_to_set(marked_prev, src);
                                        assert(self.sources_valued_in(longer)
                                            =~= self.sources_valued_in(prefix).insert(src)) by {
                                            assert forall|s: usize|
                                                self.sources_valued_in(longer).contains(
                                                    s,
                                                ) implies self.sources_valued_in(prefix).insert(
                                                src,
                                            ).contains(s) by {
                                                let jj = choose|jj: int|
                                                    0 <= jj < longer.len() && (#[trigger] longer[jj]).0
                                                        == s && self.valued(s);
                                                if jj < j {
                                                    assert(prefix[jj].0 == s);
                                                }
                                            }
                                            assert forall|s: usize|
                                                self.sources_valued_in(prefix).insert(src).contains(
                                                    s,
                                                ) implies self.sources_valued_in(longer).contains(
                                                s,
                                            ) by {
                                                if self.sources_valued_in(prefix).contains(s) {
                                                    let jj = choose|jj: int|
                                                        0 <= jj < prefix.len() && (#[trigger] prefix[jj]).0
                                                            == s && self.valued(s);
                                                    assert(longer[jj].0 == s);
                                                } else {
                                                    assert(longer[j as int].0 == s);
                                                }
                                            }
                                        }
                                        assert(marked@.to_set() =~= pre_marked_set.union(
                                            self.sources_valued_in(longer),
                                        ));
                                    }
                                    if idx != ORDER_ONLY_DEPENDENCY {
                                        proof {
                                            assert(idx < arity);
                                            assert(self.edge_fills(e));
                                            assert(self.fill_count_rec(longer)
                                                == self.fill_count_rec(prefix) + 1);
                                        }
                                        let owned: Option<Vec<u8>> = match val {
                                            Some(b) => Some(b.clone()),
                                            None => None,
                                        };
                                        proof {
                                            assert(owned.deep_view() == self.values()[src]);
                                        }
                                        let ghost args_prev = args@;
                                        args[idx] = owned;
                                        if remaining > 0 {
                                            remaining = remaining - 1;
                                        }
                                        proof {
                                            assert forall|slot: int|
                                                0 <= slot < arity implies self.arg_ok_within(
                                                longer,
                                                slot as usize,
                                                (#[trigger] args@[slot]).deep_view(),
                                            ) by {
                                                if slot == idx {
                                                    assert((#[trigger] longer[j as int]).1 == slot
                                                        as usize && self.valued(longer[j as int].0)
                                                        && args@[slot].deep_view()
                                                        == self.values()[longer[j as int].0]);
                                                } else {
                                                    assert(args@[slot] == args_prev[slot]);
                                                    assert(self.arg_ok_within(
                                                        prefix,
                                                        slot as usize,
                                                        args_prev[slot].deep_view(),
                                                    ));
                                                    if exists|jj: int|
                                                        0 <= jj < longer.len()
                                                            && (#[trigger] longer[jj]).1 == slot
                                                            as usize && self.valued(
                                                            longer[jj].0,
                                                        ) {
                                                        let jj = choose|jj: int|
                                                            0 <= jj < longer.len()
                                                                && (#[trigger] longer[jj]).1 == slot
                                                                as usize && self.valued(
                                                                longer[jj].0,
                                                            );
                                                        assert(jj != j);
                                                        assert(prefix[jj] == longer[jj]);
                                                        let jw = choose|jw: int|
                                                            0 <= jw < prefix.len()
                                                                && (#[trigger] prefix[jw]).1 == slot
                                                                as usize && self.valued(
                                                                prefix[jw].0,
                                                            ) && args_prev[slot].deep_view()
                                                                == self.values()[prefix[jw].0];
                                                        assert(longer[jw] == prefix[jw]);
                                                    } else {
                                                        if exists|jj: int|
                                                            0 <= jj < prefix.len()
                                                                && (#[trigger] prefix[jj]).1 == slot
                                                                as usize && self.valued(
                                                                prefix[jj].0,
                                                            ) {
                                                            let jj = choose|jj: int|
                                                                0 <= jj < prefix.len()
                                                                    && (#[trigger] prefix[jj]).1
                                                                    == slot as usize && self.valued(
                                                                    prefix[jj].0,
                                                                );
                                                            assert(longer[jj] == prefix[jj]);
                                                            assert(false);
                                                        }
                                                    }
                                                }
                                            }
                                        }
                                    } else {
                                        proof {
                                            assert(!self.edge_fills(e));
                                            assert(self.fill_count_rec(longer)
                                                == self.fill_count_rec(prefix));
                                            assert forall|slot: int|
                                                0 <= slot < arity implies self.arg_ok_within(
                                                longer,
                                                slot as usize,
                                                (#[trigger] args@[slot]).deep_view(),
                                            ) by {
                                                assert(self.arg_ok_within(
                                                    prefix,
                                                    slot as usize,
                                                    args@[slot].deep_view(),
                                                ));
                                                assert(longer[j as int].1 == ORDER_ONLY_DEPENDENCY);
                                                assert(slot < arity <= usize::MAX);
                                                assert forall|jj: int|
                                                    0 <= jj < longer.len() && (#[trigger] longer[jj]).1
                                                        == slot as usize implies 0 <= jj < prefix.len()
                                                    && prefix[jj].1 == slot as usize by {
                                                    if jj == j {
                                                        assert(longer[jj].1
                                                            == ORDER_ONLY_DEPENDENCY);
                                                        assert(slot as usize
                                                            != ORDER_ONLY_DEPENDENCY);
                                                    }
                                                }
                                                assert forall|jj: int|
                                                    0 <= jj < prefix.len() implies longer[jj]
                                                    == prefix[jj] by {}
                                            }
                                        }
                                    }
                                },
                                None => {
                                    proof {
                                        assert(!self.valued(src));
                                        assert(!self.edge_fills(e));
                                        assert(self.fill_count_rec(longer)
                                            == self.fill_count_rec(prefix));
                                        assert(self.sources_valued_in(longer)
                                            =~= self.sources_valued_in(prefix)) by {
                                            assert forall|s: usize|
                                                self.sources_valued_in(longer).contains(
                                                    s,
                                                ) implies self.sources_valued_in(prefix).contains(
                                                s,
                                            ) by {
                                                let jj = choose|jj: int|
                                                    0 <= jj < longer.len() && (#[trigger] longer[jj]).0
                                                        == s && self.valued(s);
                                                assert(jj != j);
                                                assert(prefix[jj].0 == s);
                                            }
                                            assert forall|s: usize|
                                                self.sources_valued_in(prefix).contains(
                                                    s,
                                                ) implies self.sources_valued_in(longer).contains(
                                                s,
                                            ) by {
                                                let jj = choose|jj: int|
                                                    0 <= jj < prefix.len() && (#[trigger] prefix[jj]).0
                                                        == s && self.valued(s);
                                                assert(longer[jj].0 == s);
                                            }
                                        }
                                        assert forall|slot: int|
                                            0 <= slot < arity implies self.arg_ok_within(
                                            longer,
                                            slot as usize,
                                            (#[trigger] args@[slot]).deep_view(),
                                        ) by {
                                            assert(self.arg_ok_within(
                                                prefix,
                                                slot as usize,
                                                args@[slot].deep_view(),
                                            ));
                                            assert forall|jj: int|
                                                0 <= jj < longer.len() && (#[trigger] longer[jj]).1
                                                    == slot as usize && self.valued(
                                                    longer[jj].0,
                                                ) implies 0 <= jj < prefix.len() && prefix[jj].1
                                                == slot as usize && self.valued(prefix[jj].0) by {
                                                if jj == j {
                                                    assert(self.valued(src));
                                                }
                                            }
                                            assert forall|jj: int|
                                                0 <= jj < prefix.len() implies longer[jj]
                                                == prefix[jj] by {}
                                        }
                                    }
                                },
                            }
                            j = j + 1;
                        }
                        proof {
                            lemma_take_full(e_seq);
                        }
                    },
                }
                proof {
                    assert(self.fill_count(n) == self.fill_count_rec(e_seq));
                    assert((remaining == 0) == (self.fill_count(n) >= arity as nat));
                }
                if remaining == 0 {
                    proof {
                        assert(self.fires(n));
                        assert(self.args_ok(n, args.deep_view())) by {
                            assert(args.deep_view().len() == args@.len());
                            assert forall|slot: int| 0 <= slot < args@.len() implies self.arg_ok(
                                n,
                                slot as usize,
                                #[trigger] args.deep_view()[slot],
                            ) by {
                                assert(args.deep_view()[slot] == args@[slot].deep_view());
                                assert(self.arg_ok_within(
                                    e_seq,
                                    slot as usize,
                                    args@[slot].deep_view(),
                                ));
                                if self.slot_filled(n, slot as usize) {
                                    let src0 = choose|src0: usize|
                                        #[trigger] self.edge_set(n).contains((src0, slot as usize))
                                            && self.valued(src0);
                                    assert(e_seq.contains((src0, slot as usize)));
                                    let jx = choose|jx: int|
                                        0 <= jx < e_seq.len() && e_seq[jx] == (src0, slot as usize);
                                    assert((#[trigger] e_seq[jx]).1 == slot as usize && self.valued(
                                        e_seq[jx].0,
                                    ));
                                    let jw = choose|jw: int|
                                        0 <= jw < e_seq.len() && (#[trigger] e_seq[jw]).1 == slot
                                            as usize && self.valued(e_seq[jw].0) && args@[slot].deep_view()
                                            == self.values()[e_seq[jw].0];
                                    assert(e_seq.contains(e_seq[jw]));
                                    assert(self.edge_set(n).contains((e_seq[jw].0, slot as usize)));
                                } else {
                                    if exists|jj: int|
                                        0 <= jj < e_seq.len() && (#[trigger] e_seq[jj]).1 == slot
                                            as usize && self.valued(e_seq[jj].0) {
                                        let jj = choose|jj: int|
                                            0 <= jj < e_seq.len() && (#[trigger] e_seq[jj]).1 == slot
                                                as usize && self.valued(e_seq[jj].0);
                                        assert(e_seq.contains(e_seq[jj]));
                                        assert(self.edge_set(n).contains(
                                            (e_seq[jj].0, slot as usize),
                                        ));
                                        assert(false);
                                    }
                                }
                            }
                        }
                    }
                    runnable.push((n, args));
                    proof {
                        assert(runnable_ids(runnable@) =~= runnable_ids(pre_runnable).push(n));
                        assert forall|p: int, q: int|
                            0 <= p < q < runnable_ids(runnable@).len() implies runnable_ids(
                            runnable@,
                        )[p] != runnable_ids(runnable@)[q] by {
                            if q == runnable_ids(runnable@).len() - 1 {
                                if runnable_ids(runnable@)[p] == n {
                                    assert(pre_runnable[p].0 == n);
                                    assert(nodes@.take(t as int).contains(n));
                                    let kk = choose|kk: int|
                                        0 <= kk < t && nodes@.take(t as int)[kk] == n;
                                    assert(nodes@[kk] == n);
                                    assert(nodes@[t as int] == n);
                                }
                            }
                        }
                    }
                } else {
                    proof {
                        assert(!self.fires(n));
                    }
                }
            } else {
                proof {
                    assert(!self.scans(n));
                    assert(!self.fires(n));
                }
            }
            proof {
                let shorter = nodes@.take(t as int);
                let longer_nodes = nodes@.take(t as int + 1);
                assert(longer_nodes.drop_last() =~= shorter);
                assert(longer_nodes.last() == n);
                assert(self.consumed_within(longer_nodes) =~= marked@.to_set()) by {
                    assert forall|s: usize|
                        self.consumed_within(longer_nodes).contains(s) implies marked@.to_set()
                        .contains(s) by {
                        let (k, i): (int, usize) = choose|k: int, i: usize|
                            0 <= k < longer_nodes.len() && self.scans(longer_nodes[k])
                                && #[trigger] self.edge_set(longer_nodes[k]).contains((s, i))
                                && self.valued(s);
                        if k < t {
                            assert(shorter[k] == longer_nodes[k]);
                            assert(self.consumed_within(shorter).contains(s));
                        } else {
                            assert(longer_nodes[k] == n);
                            assert(self.scans(n));
                            assert(self.edges_of(n).contains((s, i)));
                            let jj = choose|jj: int|
                                0 <= jj < self.edges_of(n).len() && self.edges_of(n)[jj] == (s, i);
                            assert((#[trigger] self.edges_of(n)[jj]).0 == s);
                            assert(self.sources_valued_in(self.edges_of(n)).contains(s));
                        }
                    }
                    assert forall|s: usize|
                        marked@.to_set().contains(s) implies self.consumed_within(
                        longer_nodes,
                    ).contains(s) by {
                        if self.consumed_within(shorter).contains(s) {
                            let (k, i): (int, usize) = choose|k: int, i: usize|
                                0 <= k < shorter.len() && self.scans(shorter[k])
                                    && #[trigger] self.edge_set(shorter[k]).contains((s, i))
                                    && self.valued(s);
                            assert(longer_nodes[k] == shorter[k]);
                        } else {
                            let jj = choose|jj: int|
                                0 <= jj < self.edges_of(n).len() && (#[trigger] self.edges_of(
                                    n,
                                )[jj]).0 == s && self.valued(s);
                            let e2 = self.edges_of(n)[jj];
                            assert(self.edges_of(n).contains(e2));
                            assert(self.edge_set(n).contains((s, e2.1)));
                            assert(longer_nodes[t as int] == n);
                        }
                    }
                }
                assert forall|i: int| 0 <= i < runnable@.len() implies nodes@.take(
                    t as int + 1,
                ).contains((#[trigger] runnable@[i]).0) by {
                    if i < pre_runnable.len() {
                        assert(nodes@.take(t as int).contains(runnable@[i].0));
                        let kk = choose|kk: int|
                            0 <= kk < t && nodes@.take(t as int)[kk] == runnable@[i].0;
                        assert(nodes@.take(t as int + 1)[kk] == runnable@[i].0);
                    } else {
                        assert(runnable@[i].0 == n);
                        assert(nodes@.take(t as int + 1)[t as int] == n);
                    }
                }
                assert forall|k: int|
                    0 <= k < t + 1 && self.fires(nodes@[k]) implies runnable_ids(
                    runnable@,
                ).contains(#[trigger] nodes@[k]) by {
                    if k < t {
                        assert(runnable_ids(pre_runnable).contains(nodes@[k]));
                        let ii = choose|ii: int|
                            0 <= ii < runnable_ids(pre_runnable).len() && runnable_ids(
                                pre_runnable,
                            )[ii] == nodes@[k];
                        assert(runnable_ids(runnable@)[ii] == nodes@[k]);
                    } else {
                        assert(runnable_ids(runnable@)[runnable@.len() - 1] == n);
                    }
                }
            }
            t = t + 1;
        }
        proof {
            lemma_take_full(nodes@);
            assert(marked@.to_set() =~= self.consumed()) by {
                assert forall|s: usize| self.consumed_within(nodes@).contains(s) implies self.consumed()
                    .contains(s) by {}
                assert forall|s: usize| self.consumed().contains(s) implies self.consumed_within(
                    nodes@,
                ).contains(s) by {
                    let (nn, i): (usize, usize) = choose|nn: usize, i: usize|
                        self.scans(nn) && #[trigger] self.edge_set(nn).contains((s, i))
                            && self.valued(s);
                    assert(self.graph_node_set().contains(nn));
                    assert(nodes@.to_set().contains(nn));
                    assert(nodes@.contains(nn));
                    let k = choose|k: int| 0 <= k < nodes@.len() && nodes@[k] == nn;
                }
            }
            assert forall|n2: usize| self.fires(n2) implies runnable_ids(runnable@).contains(
                n2,
            ) by {
                assert(self.graph_node_set().contains(n2));
                assert(nodes@.to_set().contains(n2));
                assert(nodes@.contains(n2));
                let k = choose|k: int| 0 <= k < nodes@.len() && nodes@[k] == n2;
            }
        }
        StepPlan { runnable, marked_for_consumption: marked }
    }

    /// The operations that stall this tick: scanned and needing at least
    /// one input, but with too few slots filled from this generation to
    /// fire. A host can surface these as a distinct status instead of
    /// leaving them silently waiting forever.
    #[verifier::loop_isolation(false)]
    #[verifier::rlimit(60)]
    pub fn stalled_operations(&self) -> (r: Vec<usize>)
        requires
            self.step_ready(),
        ensures
            r@.no_duplicates(),
            forall|n: usize| #[trigger]
                r@.contains(n) <==> self.scans(n) && self.arity(n) >= 1 && !self.fires(n),
    {
        let entries = graph_entries_vec(&self.dependency_graph);
        let nodes = self.collect_graph_nodes(&entries);
        let mut stalled: Vec<usize> = Vec::new();
        let mut t: usize = 0;
        while t < nodes.len()
            invariant
                0 <= t <= nodes@.len(),
                stalled@.no_duplicates(),
                forall|n: usize| #[trigger]
                    stalled@.contains(n) <==> (exists|k: int|
                        0 <= k < t && #[trigger] nodes@[k] == n) && self.scans(n) && self.arity(n)
                        >= 1 && !self.fires(n),
            decreases nodes@.len() - t,
        {
            let n = nodes[t];
            let ghost prev_stalled = stalled@;
            proof {
                assert(nodes@.contains(n));
                assert(nodes@.to_set().contains(n));
                assert(self.graph_node_set().contains(n));
                assert(self.ops().contains_key(n));
            }
            let arity = match ops_get(&self.operation_by_id, &n) {
                Some(op) => op.dependency_count,
                None => {
                    proof {
                        assert(false);
                    }
                    0
                },
            };
            proof {
                assert(arity == self.arity(n));
            }
            let mut is_stalled = false;
            if arity > 0 {
                let mut remaining: usize = arity;
                let ghost e_seq = self.edges_of(n);
                match graph_get(&self.dependency_graph, &n) {
                    None => {
                        proof {
                            assert(e_seq =~= Seq::<(usize, usize)>::empty());
                        }
                    },
                    Some(edges) => {
                        proof {
                            assert(edges@ == e_seq);
                            assert(e_seq.take(0) =~= Seq::<(usize, usize)>::empty());
                        }
                        let mut j: usize = 0;
                        while j < edges.len()
                            invariant
                                0 <= j <= e_seq.len(),
                                remaining as nat == if self.fill_count_rec(e_seq.take(j as int))
                                    >= arity as nat {
                                    0nat
                                } else {
                                    (arity as nat - self.fill_count_rec(
                                        e_seq.take(j as int),
                                    )) as nat
                                },
                            decreases e_seq.len() - j,
                        {
                            let src = edges[j].0;
                            let idx = edges[j].1;
                            let ghost e = e_seq[j as int];
                            proof {
                                assert(e == (src, idx));
                                assert(e_seq.take(j as int + 1).drop_last() =~= e_seq.take(
                                    j as int,
                                ));
                                assert(e_seq.take(j as int + 1).last() == e);
                            }
                            match store_get(&self.state, &src) {
                                Some(_) => {
                                    if idx != ORDER_ONLY_DEPENDENCY {
                                        proof {
                                            assert(self.edge_fills(e));
                                        }
                                        if remaining > 0 {
                                            remaining = remaining - 1;
                                        }
                                    } else {
                                        proof {
                                            assert(!self.edge_fills(e));
                                        }
                                    }
                                },
                                None => {
                                    proof {
                                        assert(!self.edge_fills(e));
                                    }
                                },
                            }
                            j = j + 1;
                        }
                        proof {
                            lemma_take_full(e_seq);
                        }
                    },
                }
                proof {
                    assert(self.fill_count(n) == self.fill_count_rec(e_seq));
                    assert((remaining == 0) == (self.fill_count(n) >= arity as nat));
                    assert(self.scans(n));
                }
                if remaining != 0 {
                    is_stalled = true;
                    proof {
                        assert(!self.fires(n));
                    }
                }
            }
            if is_stalled {
                stalled.push(n);
                proof {
                    assert forall|p: int, q: int|
                        0 <= p < q < stalled@.len() implies stalled@[p] != stalled@[q] by {
                        if q == stalled@.len() - 1 {
                            if stalled@[p] == n {
                                assert(prev_stalled[p] == n);
                                assert(prev_stalled.contains(n));
                                let kk = choose|kk: int|
                                    0 <= kk < t && #[trigger] nodes@[kk] == n;
                                assert(nodes@[t as int] == n);
                            }
                        }
                    }
                }
            }
            proof {
                assert forall|n2: usize| #[trigger]
                    stalled@.contains(n2) implies (exists|k: int|
                    0 <= k < t + 1 && #[trigger] nodes@[k] == n2) && self.scans(n2) && self.arity(
                    n2,
                ) >= 1 && !self.fires(n2) by {
                    if prev_stalled.contains(n2) {
                        let kk = choose|kk: int| 0 <= kk < t && #[trigger] nodes@[kk] == n2;
                    } else {
                        let q = choose|q: int|
                            0 <= q < stalled@.len() && stalled@[q] == n2;
                        assert(stalled@[stalled@.len() - 1] == n);
                        assert(n2 == n);
                        assert(nodes@[t as int] == n2);
                    }
                }
                assert forall|n2: usize|
                    (exists|k: int| 0 <= k < t + 1 && #[trigger] nodes@[k] == n2) && self.scans(
                        n2,
                    ) && self.arity(n2) >= 1 && !self.fires(n2) implies #[trigger] stalled@.contains(
                    n2,
                ) by {
                    let kk = choose|kk: int| 0 <= kk < t + 1 && #[trigger] nodes@[kk] == n2;
                    if kk < t {
                        assert(prev_stalled.contains(n2));
                        let q = choose|q: int|
                            0 <= q < prev_stalled.len() && prev_stalled[q] == n2;
                        assert(stalled@[q] == n2);
                    } else {
                        assert(n2 == n);
                        assert(is_stalled);
                        assert(stalled@[stalled@.len() - 1] == n2);
                    }
                }
            }
            t = t + 1;
        }
        proof {
            assert forall|n: usize|
                self.scans(n) && self.arity(n) >= 1 && !self.fires(n) implies (exists|k: int|
                0 <= k < nodes@.len() && #[trigger] nodes@[k] == n) by {
                assert(self.graph_node_set().contains(n));
                assert(nodes@.to_set().contains(n));
                assert(nodes@.contains(n));
                let k = choose|k: int| 0 <= k < nodes@.len() && nodes@[k] == n;
            }
        }
        stalled
    }

    /// Whether a tick may run from this snapshot, decided executably so a
    /// host can test it before stepping: every stored edge list is
    /// duplicate-free, every node of the graph has a registered operation,
    /// and every edge's argument index is the order-only sentinel or a
    /// valid slot of its target.
    #[verifier::loop_isolation(false)]
    #[verifier::rlimit(60)]
    pub fn check_step_ready(&self) -> (r: bool)
        ensures
            r == self.step_ready(),
    {
        let entries = graph_entries_vec(&self.dependency_graph);
        let mut t: usize = 0;
        while t < entries.len()
            invariant
                0 <= t <= entries@.len(),
                forall|k: int| 0 <= k < t ==> (#[trigger] entries@[k]).1@.no_duplicates(),
            decreases entries@.len() - t,
        {
            if !pairs_unique(&entries[t].1) {
                proof {
                    assert(self.graph().contains_key(entries@[t as int].0));
                    assert(!self.graph()[entries@[t as int].0].no_duplicates());
                    assert(!self.wf());
                }
                return false;
            }
            t = t + 1;
        }
        proof {
            assert forall|k: usize|
                self.graph().contains_key(k) implies (#[trigger] self.graph().index(
                k,
            )).no_duplicates() by {
                let i = choose|i: int| 0 <= i < entries@.len() && (#[trigger] entries@[i]).0 == k;
            }
            assert(self.wf());
        }
        let nodes = self.collect_graph_nodes(&entries);
        let mut u: usize = 0;
        while u < nodes.len()
            invariant
                0 <= u <= nodes@.len(),
                forall|k: int| 0 <= k < u ==> self.ops().contains_key(#[trigger] nodes@[k]),
            decreases nodes@.len() - u,
        {
            match ops_get(&self.operation_by_id, &nodes[u]) {
                Some(_) => {},
                None => {
                    proof {
                        assert(nodes@.contains(nodes@[u as int]));
                        assert(nodes@.to_set().contains(nodes@[u as int]));
                        assert(self.graph_node_set().contains(nodes@[u as int]));
                        assert(!self.ops().contains_key(nodes@[u as int]));
                        assert(!self.step_ready());
                    }
                    return false;
                },
            }
            u = u + 1;
        }
        proof {
            assert forall|n: usize|
                self.graph_node_set().contains(n) implies #[trigger] self.ops().contains_key(
                n,
            ) by {
                assert(nodes@.to_set().contains(n));
                assert(nodes@.contains(n));
                let k = choose|k: int| 0 <= k < nodes@.len() && nodes@[k] == n;
            }
        }
        let mut t2: usize = 0;
        while t2 < entries.len()
            invariant
                0 <= t2 <= entries@.len(),
                forall|k: int, j: int|
                    0 <= k < t2 && 0 <= j < entries@[k].1@.len() ==> (#[trigger] entries@[k].1@.index(
                        j,
                    )).1 == ORDER_ONLY_DEPENDENCY || entries@[k].1@[j].1 < self.arity(
                        entries@[k].0,
                    ),
            decreases entries@.len() - t2,
        {
            let n = entries[t2].0;
            proof {
                assert(self.graph().contains_key(n));
                assert(self.graph().dom().contains(n));
                assert(self.graph_node_set().contains(n));
            }
            let arity = match ops_get(&self.operation_by_id, &n) {
                Some(op) => op.dependency_count,
                None => {
                    proof {
                        assert(false);
                    }
                    0
                },
            };
            proof {
                assert(arity == self.arity(n));
            }
            let deps = &entries[t2].1;
            let mut j: usize = 0;
            while j < deps.len()
                invariant
                    0 <= j <= deps@.len(),
                    forall|j2: int|
                        0 <= j2 < j ==> (#[trigger] deps@[j2]).1 == ORDER_ONLY_DEPENDENCY
                            || deps@[j2].1 < arity,
                decreases deps@.len() - j,
            {
                let idx = deps[j].1;
                if idx != ORDER_ONLY_DEPENDENCY && idx >= arity {
                    proof {
                        let e = deps@[j as int];
                        assert(self.edges_of(n).contains(e));
                        assert(self.edge_set(n).contains(e));
                        assert(!(e.1 == ORDER_ONLY_DEPENDENCY || e.1 < self.arity(n)));
                    }
                    return false;
                }
                j = j + 1;
            }
            t2 = t2 + 1;
        }
        proof {
            assert forall|n: usize, e: (usize, usize)|
                self.graph().contains_key(n) && #[trigger] self.edge_set(n).contains(e) implies e.1
                == ORDER_ONLY_DEPENDENCY || e.1 < self.arity(n) by {
                let i = choose|i: int| 0 <= i < entries@.len() && (#[trigger] entries@[i]).0 == n;
                assert(entries@[i].1@ == self.graph()[n]);
                assert(self.edges_of(n).contains(e));
                let j = choose|j: int|
                    0 <= j < entries@[i].1@.len() && entries@[i].1@[j] == e;
                assert((#[trigger] entries@[i].1@[j]).1 == e.1);
            }
        }
        true
    }

    /// Commit one tick's outcomes onto this snapshot, in a new snapshot:
    /// record every outcome in order — a success stores its buffer and marks
    /// the id ever set; a fatal failure stores the absent-buffer sentinel,
    /// marks the id ever set, and records the reason; a recoverable failure
    /// leaves the id untouched, eligible to run again — then evict every id
    /// marked for consumption, including ids an outcome just wrote.
    #[verifier::loop_isolation(false)]
    pub fn step_commit(
        &self,
        results: Vec<(usize, OperationResult)>,
        marked_for_consumption: Vec<usize>,
    ) -> (r: ExecutionState)
        ensures
            r.values() == apply_result_values(self.values(), results@).remove_keys(
                marked_for_consumption@.to_set(),
            ),
            r.ever_set() == self.ever_set().union(settled_ids(results@)),
            r.failed() == apply_result_failures(self.failed(), results@),
            r.ops() == self.ops(),
            r.graph() == self.graph(),
            self.wf() ==> r.wf(),
    {
        let mut s = self.clone_snapshot();
        let mut i: usize = 0;
        proof {
            assert(results@.take(0) =~= Seq::<(usize, OperationResult)>::empty());
            assert(s.values() =~= apply_result_values(self.values(), results@.take(0)));
            assert(s.ever_set() =~= self.ever_set().union(settled_ids(results@.take(0))));
            assert(s.failed() =~= apply_result_failures(self.failed(), results@.take(0)));
        }
        while i < results.len()
            invariant
                0 <= i <= results@.len(),
                s.values() == apply_result_values(self.values(), results@.take(i as int)),
                s.ever_set() == self.ever_set().union(settled_ids(results@.take(i as int))),
                s.failed() == apply_result_failures(self.failed(), results@.take(i as int)),
                s.ops() == self.ops(),
                s.graph() == self.graph(),
                self.wf() ==> s.wf(),
            decreases results@.len() - i,
        {
            let id = results[i].0;
            proof {
                assert(results@.take(i as int + 1).drop_last() =~= results@.take(i as int));
                assert(results@.take(i as int + 1).last() == results@[i as int]);
            }
            match &results[i].1 {
                OperationResult::Success(buffer) => {
                    let val: Option<Vec<u8>> = match buffer {
                        Some(b) => Some(b.clone()),
                        None => None,
                    };
                    proof {
                        assert(results@[i as int].1 matches OperationResult::Success(v)
                            && val.deep_view() == v.deep_view());
                    }
                    s.state_insert(id, val);
                    proof {
                        assert(s.ever_set() =~= self.ever_set().union(
                            settled_ids(results@.take(i as int + 1)),
                        ));
                    }
                },
                OperationResult::Failure(failure) => match failure {
                    ExecutionFailure::Fatal(reason) => {
                        s.state_insert(id, None);
                        proof {
                            assert(Option::<Vec<u8>>::None.deep_view() is None);
                            assert(s.ever_set() =~= self.ever_set().union(
                                settled_ids(results@.take(i as int + 1)),
                            ));
                        }
                        failures_insert(&mut s.failed_operations, id, reason.clone());
                        proof {
                            assert(results@[i as int].1 matches OperationResult::Failure(
                                ExecutionFailure::Fatal(why),
                            ) && why@ == reason@);
                        }
                    },
                    ExecutionFailure::Recoverable(_) => {
                    },
                },
            }
            i = i + 1;
        }
        proof {
            lemma_take_full(results@);
        }
        s.state_consume_marked(marked_for_consumption);
        s
    }

    /// The nodes that fire this tick.
    pub open spec fn fired_set(self) -> Set<usize> {
        Set::new(|n: usize| self.fires(n))
    }

    /// How one tick relates a snapshot to its successor when the firing
    /// nodes' outcomes partition into `succeeded`, `retried` (recoverable
    /// failures) and `failed_now` (fatal failures): operations and graph
    /// carry over; the ever-set grows by exactly the succeeded and fatally
    /// failed nodes, so a retried node stays eligible; the failure table
    /// gains exactly the fatally failed nodes; an id holds a value
    /// afterwards iff it held or settled one and was not consumed; untouched
    /// unconsumed values are unchanged; and an unconsumed fatally failed id
    /// holds the absent-buffer sentinel its dependents will read.
    pub open spec fn step_rel_with(
        self,
        post: ExecutionState,
        succeeded: Set<usize>,
        retried: Set<usize>,
        failed_now: Set<usize>,
    ) -> bool {
        &&& succeeded.disjoint(retried)
        &&& succeeded.disjoint(failed_now)
        &&& retried.disjoint(failed_now)
        &&& succeeded.union(retried).union(failed_now) == self.fired_set()
        &&& post.ops() == self.ops()
        &&& post.graph() == self.graph()
        &&& post.ever_set() == self.ever_set().union(succeeded).union(failed_now)
        &&& post.failed().dom() == self.failed().dom().union(failed_now)
        &&& forall|k: usize|
            self.failed().contains_key(k) && !failed_now.contains(k)
                ==> #[trigger] post.failed()[k] == self.failed()[k]
        &&& forall|k: usize|
            (#[trigger] post.values().contains_key(k)) == ((self.valued(k) || succeeded.contains(k)
                || failed_now.contains(k)) && !self.consumed().contains(k))
        &&& forall|k: usize|
            self.valued(k) && !succeeded.contains(k) && !failed_now.contains(k)
                && !self.consumed().contains(k) ==> #[trigger] post.values()[k] == self.values()[k]
        &&& forall|k: usize|
            failed_now.contains(k) && !self.consumed().contains(k)
                ==> #[trigger] post.values()[k] is None
    }

    /// How one tick relates a snapshot to its successor, whatever the
    /// bodies returned: some classification of the firing nodes' outcomes
    /// explains the change, as [`Self::step_rel_with`] details.
    pub open spec fn step_rel(self, post: ExecutionState) -> bool {
        exists|succeeded: Set<usize>, retried: Set<usize>, failed_now: Set<usize>|
            #[trigger] self.step_rel_with(post, succeeded, retried, failed_now)
    }

    /// One tick: plan which operations are ready from this generation, run
    /// each ready one through the backend, and commit the tagged outcomes
    /// and evictions as the next generation.
    #[verifier::loop_isolation(false)]
    #[verifier::rlimit(60)]
    pub fn step_execution<B: ExecutionBackend>(&self, backend: &mut B) -> (r: ExecutionState)
        requires
            self.step_ready(),
        ensures
            self.step_rel(r),
            r.wf(),
    {
        let plan = self.step_plan();
        let mut queue = plan.runnable;
        let ghost orig = queue@;
        let mut results: Vec<(usize, OperationResult)> = Vec::new();
        proof {
            assert(queue@ =~= orig.take(queue@.len() as int));
        }
        while queue.len() > 0
            invariant
                queue@.len() <= orig.len(),
                queue@ == orig.take(queue@.len() as int),
                results@.len() == orig.len() - queue@.len(),
                forall|ix: int|
                    0 <= ix < results@.len() ==> (#[trigger] results@[ix]).0 == orig[orig.len() - 1
                        - ix].0,
            decreases queue@.len(),
        {
            let ghost pre_len = queue@.len() as int;
            let ghost pre_results = results@;
            let entry = match queue.pop() {
                Some(e) => e,
                None => {
                    proof {
                        assert(false);
                    }
                    (0, Vec::new())
                },
            };
            proof {
                assert(entry == orig[pre_len - 1]);
                assert(queue@ =~= orig.take(pre_len - 1));
            }
            let (operation_id, args) = entry;
            let output = backend.invoke(operation_id, args);
            results.push((operation_id, output));
            proof {
                assert forall|ix: int|
                    0 <= ix < results@.len() implies (#[trigger] results@[ix]).0 == orig[orig.len()
                    - 1 - ix].0 by {
                    if ix < pre_results.len() {
                        assert(results@[ix] == pre_results[ix]);
                    } else {
                        assert(results@[ix] == (operation_id, output));
                    }
                }
            }
        }
        let ghost rs = results@;
        let ghost succeeded = Set::new(
            |n: usize|
                exists|ix: int| 0 <= ix < rs.len() && (#[trigger] rs[ix]).0 == n && rs[ix].1
                    is Success,
        );
        let ghost retried = Set::new(
            |n: usize|
                exists|ix: int|
                    0 <= ix < rs.len() && (#[trigger] rs[ix]).0 == n && rs[ix].1 matches
                    OperationResult::Failure(ExecutionFailure::Recoverable(_)),
        );
        let ghost failed_now = Set::new(
            |n: usize|
                exists|ix: int|
                    0 <= ix < rs.len() && (#[trigger] rs[ix]).0 == n && rs[ix].1 matches
                    OperationResult::Failure(ExecutionFailure::Fatal(_)),
        );
        proof {
            assert(rs.len() == orig.len());
            // Each id appears at most once among the outcomes.
            assert forall|a: int, b: int|
                0 <= a < b < rs.len() implies (#[trigger] rs[a]).0 != (#[trigger] rs[b]).0 by {
                assert(rs[a].0 == orig[orig.len() - 1 - a].0);
                assert(rs[b].0 == orig[orig.len() - 1 - b].0);
                assert(runnable_ids(orig)[orig.len() - 1 - a] == orig[orig.len() - 1 - a].0);
                assert(runnable_ids(orig)[orig.len() - 1 - b] == orig[orig.len() - 1 - b].0);
            }
            // The outcome ids are exactly the firing nodes.
            assert forall|n: usize|
                (exists|ix: int| 0 <= ix < rs.len() && (#[trigger] rs[ix]).0 == n) implies
                self.fired_set().contains(n) by {
                let ix = choose|ix: int| 0 <= ix < rs.len() && (#[trigger] rs[ix]).0 == n;
                assert((#[trigger] orig[orig.len() - 1 - ix]).0 == n);
                assert(self.fires(orig[orig.len() - 1 - ix].0));
            }
            assert forall|n: usize|
                self.fired_set().contains(n) implies (exists|ix: int|
                0 <= ix < rs.len() && (#[trigger] rs[ix]).0 == n) by {
                assert(runnable_ids(orig).contains(n));
                let i = choose|i: int|
                    0 <= i < runnable_ids(orig).len() && runnable_ids(orig)[i] == n;
                assert((#[trigger] orig[i]).0 == n);
                assert((#[trigger] rs[orig.len() - 1 - i]).0 == orig[i].0);
            }
            // Every outcome is one of the three kinds.
            assert forall|ix: int|
                0 <= ix < rs.len() implies (#[trigger] rs[ix]).1 is Success || rs[ix].1 matches
                OperationResult::Failure(ExecutionFailure::Fatal(_)) || rs[ix].1 matches
                OperationResult::Failure(ExecutionFailure::Recoverable(_)) by {
                match rs[ix].1 {
                    OperationResult::Success(_) => {},
                    OperationResult::Failure(ExecutionFailure::Fatal(_)) => {},
                    OperationResult::Failure(ExecutionFailure::Recoverable(_)) => {},
                }
            }
            assert(succeeded.union(retried).union(failed_now) =~= self.fired_set());
            // Distinct ids make the classification a partition.
            assert(succeeded.disjoint(retried)) by {
                assert forall|n: usize| !(succeeded.contains(n) && retried.contains(n)) by {
                    if succeeded.contains(n) && retried.contains(n) {
                        let ix1 = choose|ix: int|
                            0 <= ix < rs.len() && (#[trigger] rs[ix]).0 == n && rs[ix].1
                                is Success;
                        let ix2 = choose|ix: int|
                            0 <= ix < rs.len() && (#[trigger] rs[ix]).0 == n && rs[ix].1 matches
                            OperationResult::Failure(ExecutionFailure::Recoverable(_));
                        assert(ix1 == ix2);
                    }
                }
            }
            assert(succeeded.disjoint(failed_now)) by {
                assert forall|n: usize| !(succeeded.contains(n) && failed_now.contains(n)) by {
                    if succeeded.contains(n) && failed_now.contains(n) {
                        let ix1 = choose|ix: int|
                            0 <= ix < rs.len() && (#[trigger] rs[ix]).0 == n && rs[ix].1
                                is Success;
                        let ix2 = choose|ix: int|
                            0 <= ix < rs.len() && (#[trigger] rs[ix]).0 == n && rs[ix].1 matches
                            OperationResult::Failure(ExecutionFailure::Fatal(_));
                        assert(ix1 == ix2);
                    }
                }
            }
            assert(retried.disjoint(failed_now)) by {
                assert forall|n: usize| !(retried.contains(n) && failed_now.contains(n)) by {
                    if retried.contains(n) && failed_now.contains(n) {
                        let ix1 = choose|ix: int|
                            0 <= ix < rs.len() && (#[trigger] rs[ix]).0 == n && rs[ix].1 matches
                            OperationResult::Failure(ExecutionFailure::Recoverable(_));
                        let ix2 = choose|ix: int|
                            0 <= ix < rs.len() && (#[trigger] rs[ix]).0 == n && rs[ix].1 matches
                            OperationResult::Failure(ExecutionFailure::Fatal(_));
                        assert(ix1 == ix2);
                    }
                }
            }
        }
        let committed = self.step_commit(results, plan.marked_for_consumption);
        proof {
            lemma_apply_results_facts(self.values(), self.failed(), rs);
            // Settled ids are the succeeded and fatally failed nodes.
            assert forall|k: usize|
                has_settled_result(rs, k) implies succeeded.contains(k) || failed_now.contains(
                k,
            ) by {
                let ix = choose|ix: int|
                    0 <= ix < rs.len() && (#[trigger] rs[ix]).0 == k && !(rs[ix].1 matches
                    OperationResult::Failure(ExecutionFailure::Recoverable(_)));
                match rs[ix].1 {
                    OperationResult::Success(_) => {},
                    OperationResult::Failure(ExecutionFailure::Fatal(_)) => {},
                    OperationResult::Failure(ExecutionFailure::Recoverable(_)) => {},
                }
            }
            assert forall|k: usize|
                succeeded.contains(k) || failed_now.contains(k) implies has_settled_result(
                rs,
                k,
            ) by {
                if succeeded.contains(k) {
                    let ix = choose|ix: int|
                        0 <= ix < rs.len() && (#[trigger] rs[ix]).0 == k && rs[ix].1 is Success;
                } else {
                    let ix = choose|ix: int|
                        0 <= ix < rs.len() && (#[trigger] rs[ix]).0 == k && rs[ix].1 matches
                        OperationResult::Failure(ExecutionFailure::Fatal(_));
                }
            }
            assert(committed.ever_set() =~= self.ever_set().union(succeeded).union(failed_now))
                by {
                assert forall|k: usize| #[trigger] settled_ids(rs).contains(k) implies succeeded
                    .contains(k) || failed_now.contains(k) by {}
            }
            assert(committed.failed().dom() =~= self.failed().dom().union(failed_now)) by {
                assert forall|k: usize| committed.failed().dom().contains(k) implies self.failed()
                    .dom().contains(k) || failed_now.contains(k) by {
                    if has_fatal_result(rs, k) {
                        let ix = choose|ix: int|
                            0 <= ix < rs.len() && (#[trigger] rs[ix]).0 == k && rs[ix].1 matches
                            OperationResult::Failure(ExecutionFailure::Fatal(_));
                    }
                }
                assert forall|k: usize|
                    self.failed().dom().contains(k) || failed_now.contains(
                    k,
                ) implies committed.failed().dom().contains(k) by {
                    if failed_now.contains(k) {
                        let ix = choose|ix: int|
                            0 <= ix < rs.len() && (#[trigger] rs[ix]).0 == k && rs[ix].1 matches
                            OperationResult::Failure(ExecutionFailure::Fatal(_));
                        assert(has_fatal_result(rs, k));
                    }
                }
            }
            assert forall|k: usize|
                self.failed().contains_key(k) && !failed_now.contains(k)
                    implies #[trigger] committed.failed()[k] == self.failed()[k] by {
                if has_fatal_result(rs, k) {
                    let ix = choose|ix: int|
                        0 <= ix < rs.len() && (#[trigger] rs[ix]).0 == k && rs[ix].1 matches
                        OperationResult::Failure(ExecutionFailure::Fatal(_));
                }
            }
            assert forall|k: usize|
                (#[trigger] committed.values().contains_key(k)) == ((self.valued(k)
                    || succeeded.contains(k) || failed_now.contains(k))
                    && !self.consumed().contains(k)) by {}
            assert forall|k: usize|
                self.valued(k) && !succeeded.contains(k) && !failed_now.contains(k)
                    && !self.consumed().contains(k) implies #[trigger] committed.values()[k]
                == self.values()[k] by {}
            assert forall|k: usize|
                failed_now.contains(k) && !self.consumed().contains(k)
                    implies #[trigger] committed.values()[k] is None by {
                let ix = choose|ix: int|
                    0 <= ix < rs.len() && (#[trigger] rs[ix]).0 == k && rs[ix].1 matches
                    OperationResult::Failure(ExecutionFailure::Fatal(_));
                assert(has_fatal_result(rs, k));
                assert(apply_result_values(self.values(), rs)[k] is None);
            }
            assert(self.step_rel_with(committed, succeeded, retried, failed_now));
        }
        committed
    }

    /// A new snapshot equal to this one, sharing structure with it.
    fn clone_snapshot(&self) -> (r: ExecutionState)
        ensures
            r.values() == self.values(),
            r.ever_set() == self.ever_set(),
            r.ops() == self.ops(),
            r.graph() == self.graph(),
            r.failed() == self.failed(),
            r.id == self.id,
    {
        ExecutionState {
            id: self.id,
            state: store_clone(&self.state),
            operation_by_id: ops_clone(&self.operation_by_id),
            has_been_set: ever_clone(&self.has_been_set),
            dependency_graph: graph_clone(&self.dependency_graph),
            failed_operations: failures_clone(&self.failed_operations),
        }
    }
}

/// Law: storing a buffer under an id and then reading that id yields exactly
/// the stored buffer.
pub proof fn lemma_insert_then_get(
    pre: ExecutionState,
    post: ExecutionState,
    operation_id: usize,
    value: Option<Seq<u8>>,
)
    requires
        post.values() == pre.values().insert(operation_id, value),
    ensures
        post.values().contains_key(operation_id),
        post.values()[operation_id] == value,
{
}

/// Law: applying a `Create` for an id and then a `Delete` of the same id
/// leaves a graph with no entry for that id — the delete removes cleanly.
pub proof fn lemma_create_then_delete_removes(
    g: Map<usize, Set<(usize, usize)>>,
    create: DependencyGraphMutation,
    delete: DependencyGraphMutation,
    operation_id: usize,
)
    requires
        create matches DependencyGraphMutation::Create { operation_id: c, .. } && c
            == operation_id,
        delete matches DependencyGraphMutation::Delete { operation_id: d } && d == operation_id,
    ensures
        !ExecutionState::apply_mutations_spec(g, seq![create, delete]).contains_key(operation_id),
{
    let muts = seq![create, delete];
    assert(muts.drop_last() =~= seq![create]);
    assert(seq![create].drop_last() =~= Seq::<DependencyGraphMutation>::empty());
}

/// Law: two `Create` mutations for the same id applied in order leave the
/// graph holding exactly the second one's edges — a replacement, not a union.
pub proof fn lemma_create_twice_replaces(
    g: Map<usize, Set<(usize, usize)>>,
    first: DependencyGraphMutation,
    second: DependencyGraphMutation,
    operation_id: usize,
    second_edges: Seq<(usize, usize)>,
)
    requires
        first matches DependencyGraphMutation::Create { operation_id: a, .. } && a
            == operation_id,
        second matches DependencyGraphMutation::Create { operation_id: b, depends_on: d } && b
            == operation_id && d@ == second_edges,
    ensures
        ExecutionState::apply_mutations_spec(g, seq![first, second]).contains_key(operation_id),
        ExecutionState::apply_mutations_spec(g, seq![first, second])[operation_id]
            == second_edges.to_set(),
{
    let muts = seq![first, second];
    assert(muts.drop_last() =~= seq![first]);
    assert(seq![first].drop_last() =~= Seq::<DependencyGraphMutation>::empty());
}

/// Along a chain of ticks the operation table is unchanged and the ever-set
/// only grows.
pub proof fn lemma_chain_invariants(states: Seq<ExecutionState>, i: int, j: int)
    requires
        forall|k: int| 0 <= k < states.len() - 1 ==> states[k].step_rel(#[trigger] states[k + 1]),
        0 <= i <= j < states.len(),
    ensures
        states[j].ops() == states[i].ops(),
        states[i].ever_set().subset_of(states[j].ever_set()),
    decreases j - i,
{
    if i < j {
        assert(states[i].step_rel(states[i + 1]));
        let (s1, r1, f1): (Set<usize>, Set<usize>, Set<usize>) = choose|
            s1: Set<usize>,
            r1: Set<usize>,
            f1: Set<usize>,
        | #[trigger] states[i].step_rel_with(states[i + 1], s1, r1, f1);
        lemma_chain_invariants(states, i + 1, j);
    }
}

/// Law: a zero-arity operation fires at most once across any chain of
/// ticks, regardless of how many ticks follow its first success: once a
/// tick records its outcome — a success or a fatal failure, every outcome
/// but a recoverable failure, which leaves it eligible to retry — it never
/// fires again.
pub proof fn lemma_zero_arity_fires_at_most_once(
    states: Seq<ExecutionState>,
    n: usize,
    i: int,
    j: int,
)
    requires
        forall|k: int| 0 <= k < states.len() - 1 ==> states[k].step_rel(#[trigger] states[k + 1]),
        0 <= i < j < states.len(),
        states[i].fires(n),
        states[i].arity(n) == 0,
        states[i + 1].ever_set().contains(n),
    ensures
        !states[j].fires(n),
{
    lemma_chain_invariants(states, i + 1, j);
    assert(states[j].ever_set().contains(n));
    lemma_chain_invariants(states, i, j);
    assert(states[j].arity(n) == 0);
    assert(!states[j].scans(n));
}

/// A firing node whose outcome is not a recoverable failure is recorded in
/// the successor's ever-set; a recoverable failure leaves it unrecorded.
pub proof fn lemma_settled_outcome_recorded(
    pre: ExecutionState,
    post: ExecutionState,
    succeeded: Set<usize>,
    retried: Set<usize>,
    failed_now: Set<usize>,
    n: usize,
)
    requires
        pre.step_rel_with(post, succeeded, retried, failed_now),
        pre.fires(n),
        !retried.contains(n),
    ensures
        post.ever_set().contains(n),
{
    assert(pre.fired_set().contains(n));
    assert(succeeded.union(retried).union(failed_now).contains(n));
}

/// Law: an id read over any edge of a scanned node is consumed this tick,
/// whether or not that node reaches a fireable state.
pub proof fn lemma_read_implies_consumed(s: ExecutionState, n: usize, src: usize, slot: usize)
    requires
        s.scans(n),
        s.edge_set(n).contains((src, slot)),
        s.valued(src),
    ensures
        s.consumed().contains(src),
{
}

/// Law: a consumed id is absent from the resulting generation's store, even
/// if the id was re-produced this very tick.
pub proof fn lemma_consumed_evicted(pre: ExecutionState, post: ExecutionState, src: usize)
    requires
        pre.step_rel(post),
        pre.consumed().contains(src),
    ensures
        !post.values().contains_key(src),
{
    let (s1, r1, f1): (Set<usize>, Set<usize>, Set<usize>) = choose|
        s1: Set<usize>,
        r1: Set<usize>,
        f1: Set<usize>,
    | #[trigger] pre.step_rel_with(post, s1, r1, f1);
}

/// The slots that some edge of the list fills this tick.
pub open spec fn filled_slot_set(s: ExecutionState, edges: Seq<(usize, usize)>) -> Set<int> {
    Set::new(
        |slot: int|
            exists|j: int|
                0 <= j < edges.len() && (#[trigger] edges[j]).1 as int == slot && edges[j].1
                    != ORDER_ONLY_DEPENDENCY && s.valued(edges[j].0),
    )
}

/// With no duplicate edges and each real slot fed by at most one edge, the
/// fill count is exactly the number of filled slots.
proof fn lemma_fill_count_is_card(s: ExecutionState, edges: Seq<(usize, usize)>)
    requires
        edges.no_duplicates(),
        forall|j1: int, j2: int|
            0 <= j1 < edges.len() && 0 <= j2 < edges.len() && (#[trigger] edges[j1]).1
                == (#[trigger] edges[j2]).1 && edges[j1].1 != ORDER_ONLY_DEPENDENCY ==> j1 == j2,
    ensures
        filled_slot_set(s, edges).finite(),
        s.fill_count_rec(edges) == filled_slot_set(s, edges).len(),
    decreases edges.len(),
{
    if edges.len() == 0 {
        assert(filled_slot_set(s, edges) =~= Set::<int>::empty());
    } else {
        let prev = edges.drop_last();
        let e = edges.last();
        assert forall|j1: int, j2: int|
            0 <= j1 < prev.len() && 0 <= j2 < prev.len() && (#[trigger] prev[j1]).1
                == (#[trigger] prev[j2]).1 && prev[j1].1 != ORDER_ONLY_DEPENDENCY implies j1
            == j2 by {
            assert(edges[j1] == prev[j1]);
            assert(edges[j2] == prev[j2]);
        }
        lemma_fill_count_is_card(s, prev);
        if s.edge_fills(e) {
            assert(filled_slot_set(s, edges) =~= filled_slot_set(s, prev).insert(e.1 as int)) by {
                assert forall|slot: int|
                    filled_slot_set(s, edges).contains(slot) implies filled_slot_set(
                    s,
                    prev,
                ).insert(e.1 as int).contains(slot) by {
                    let j = choose|j: int|
                        0 <= j < edges.len() && (#[trigger] edges[j]).1 as int == slot && edges[j].1
                            != ORDER_ONLY_DEPENDENCY && s.valued(edges[j].0);
                    if j < edges.len() - 1 {
                        assert(prev[j] == edges[j]);
                    }
                }
                assert forall|slot: int|
                    filled_slot_set(s, prev).insert(e.1 as int).contains(
                        slot,
                    ) implies filled_slot_set(s, edges).contains(slot) by {
                    if filled_slot_set(s, prev).contains(slot) {
                        let j = choose|j: int|
                            0 <= j < prev.len() && (#[trigger] prev[j]).1 as int == slot
                                && prev[j].1 != ORDER_ONLY_DEPENDENCY && s.valued(prev[j].0);
                        assert(edges[j] == prev[j]);
                        assert((#[trigger] edges[j]).1 as int == slot && edges[j].1
                            != ORDER_ONLY_DEPENDENCY && s.valued(edges[j].0));
                    } else {
                        assert((#[trigger] edges[edges.len() - 1]).1 as int == slot
                            && edges[edges.len() - 1].1 != ORDER_ONLY_DEPENDENCY && s.valued(
                            edges[edges.len() - 1].0,
                        ));
                    }
                }
            }
            assert(!filled_slot_set(s, prev).contains(e.1 as int)) by {
                if filled_slot_set(s, prev).contains(e.1 as int) {
                    let j = choose|j: int|
                        0 <= j < prev.len() && (#[trigger] prev[j]).1 as int == e.1 as int
                            && prev[j].1 != ORDER_ONLY_DEPENDENCY && s.valued(prev[j].0);
                    assert(edges[j] == prev[j]);
                    assert(edges[j].1 == e.1);
                    assert((edges[edges.len() - 1]).1 == e.1);
                    assert(j == edges.len() - 1);
                }
            }
        } else {
            assert(filled_slot_set(s, edges) =~= filled_slot_set(s, prev)) by {
                assert forall|slot: int|
                    filled_slot_set(s, edges).contains(slot) implies filled_slot_set(
                    s,
                    prev,
                ).contains(slot) by {
                    let j = choose|j: int|
                        0 <= j < edges.len() && (#[trigger] edges[j]).1 as int == slot && edges[j].1
                            != ORDER_ONLY_DEPENDENCY && s.valued(edges[j].0);
                    assert(j != edges.len() - 1);
                    assert(prev[j] == edges[j]);
                    assert((#[trigger] prev[j]).1 as int == slot && prev[j].1
                        != ORDER_ONLY_DEPENDENCY && s.valued(prev[j].0));
                }
                assert forall|slot: int|
                    filled_slot_set(s, prev).contains(slot) implies filled_slot_set(
                    s,
                    edges,
                ).contains(slot) by {
                    let j = choose|j: int|
                        0 <= j < prev.len() && (#[trigger] prev[j]).1 as int == slot && prev[j].1
                            != ORDER_ONLY_DEPENDENCY && s.valued(prev[j].0);
                    assert(edges[j] == prev[j]);
                    assert((#[trigger] edges[j]).1 as int == slot && edges[j].1
                        != ORDER_ONLY_DEPENDENCY && s.valued(edges[j].0));
                }
            }
        }
    }
}

/// Law: an operation with nonzero arity, each of whose slots is fed by at
/// most one edge, fires exactly on the ticks where all of its slots are
/// filled from the immediately preceding generation.
pub proof fn lemma_fires_iff_all_slots_filled(s: ExecutionState, n: usize)
    requires
        s.step_ready(),
        s.graph_node_set().contains(n),
        s.arity(n) >= 1,
        forall|e1: (usize, usize), e2: (usize, usize)|
            #[trigger] s.edge_set(n).contains(e1) && #[trigger] s.edge_set(n).contains(e2) && e1.1
                == e2.1 && e1.1 != ORDER_ONLY_DEPENDENCY ==> e1 == e2,
    ensures
        s.fires(n) <==> (forall|slot: usize| slot < s.arity(n) ==> s.slot_filled(n, slot)),
{
    let edges = s.edges_of(n);
    let arity = s.arity(n) as int;
    assert(edges.no_duplicates()) by {
        if s.graph().contains_key(n) {
            assert(s.graph()[n].no_duplicates());
        }
    }
    assert forall|j1: int, j2: int|
        0 <= j1 < edges.len() && 0 <= j2 < edges.len() && (#[trigger] edges[j1]).1
            == (#[trigger] edges[j2]).1 && edges[j1].1 != ORDER_ONLY_DEPENDENCY implies j1
        == j2 by {
        assert(edges.contains(edges[j1]));
        assert(edges.contains(edges[j2]));
        assert(s.edge_set(n).contains(edges[j1]));
        assert(s.edge_set(n).contains(edges[j2]));
        assert(edges[j1] == edges[j2]);
        if j1 != j2 {
            assert(false);
        }
    }
    lemma_fill_count_is_card(s, edges);
    let filled = filled_slot_set(s, edges);
    let range = vstd::set_lib::set_int_range(0, arity);
    vstd::set_lib::lemma_int_range(0, arity);
    assert(filled.subset_of(range)) by {
        assert forall|slot: int| filled.contains(slot) implies range.contains(slot) by {
            let j = choose|j: int|
                0 <= j < edges.len() && (#[trigger] edges[j]).1 as int == slot && edges[j].1
                    != ORDER_ONLY_DEPENDENCY && s.valued(edges[j].0);
            assert(edges.contains(edges[j]));
            assert(s.edge_set(n).contains(edges[j]));
            assert(s.graph().contains_key(n));
            assert(edges[j].1 < s.arity(n));
        }
    }
    vstd::set_lib::lemma_len_subset(filled, range);
    assert(s.scans(n));
    if forall|slot: usize| slot < s.arity(n) ==> s.slot_filled(n, slot) {
        assert(range.subset_of(filled)) by {
            assert forall|slot: int| range.contains(slot) implies filled.contains(slot) by {
                assert(s.slot_filled(n, slot as usize));
                let src = choose|src: usize|
                    #[trigger] s.edge_set(n).contains((src, slot as usize)) && s.valued(src);
                assert(edges.contains((src, slot as usize)));
                let j = choose|j: int| 0 <= j < edges.len() && edges[j] == (src, slot as usize);
                assert((#[trigger] edges[j]).1 as int == slot && edges[j].1
                    != ORDER_ONLY_DEPENDENCY && s.valued(edges[j].0));
            }
        }
        assert(filled =~= range);
        assert(s.fill_count(n) >= s.arity(n));
        assert(s.fires(n));
    } else {
        let slot0 = choose|slot: usize| slot < s.arity(n) && !s.slot_filled(n, slot);
        assert(!filled.contains(slot0 as int)) by {
            if filled.contains(slot0 as int) {
                let j = choose|j: int|
                    0 <= j < edges.len() && (#[trigger] edges[j]).1 as int == slot0 as int
                        && edges[j].1 != ORDER_ONLY_DEPENDENCY && s.valued(edges[j].0);
                assert(edges.contains(edges[j]));
                assert(s.edge_set(n).contains((edges[j].0, slot0)));
                assert(s.slot_filled(n, slot0));
            }
        }
        assert(filled.subset_of(range.remove(slot0 as int))) by {
            assert forall|slot: int| filled.contains(slot) implies range.remove(
                slot0 as int,
            ).contains(slot) by {}
        }
        vstd::set_lib::lemma_len_subset(filled, range.remove(slot0 as int));
        assert(range.contains(slot0 as int));
        assert(range.remove(slot0 as int).len() == range.len() - 1);
        assert(s.fill_count(n) < s.arity(n));
        assert(!s.fires(n));
    }
}

/// Whether one of the first `t` listed entries has key `x`.
pub open spec fn entries_have_key(
    entries: Seq<(usize, Vec<(usize, usize)>)>,
    t: int,
    x: usize,
) -> bool {
    exists|k: int| 0 <= k < t && (#[trigger] entries[k]).0 == x
}

/// Whether one of the first `t` listed entries names `x` as a source.
pub open spec fn entries_have_source(
    entries: Seq<(usize, Vec<(usize, usize)>)>,
    t: int,
    x: usize,
) -> bool {
    exists|k: int, j: int|
        0 <= k < t && 0 <= j < entries[k].1@.len() && (#[trigger] entries[k].1@[j]).0 == x
}

/// Whether one of the first `t` listed entries yields the dependency edge
/// `p`: its key is `p.1` and some edge of it has source `p.0`.
pub open spec fn entries_have_edge(
    entries: Seq<(usize, Vec<(usize, usize)>)>,
    t: int,
    p: (usize, usize),
) -> bool {
    exists|k: int, j: int|
        0 <= k < t && entries[k].0 == p.1 && 0 <= j < entries[k].1@.len() && (#[trigger] entries[k].1@[j]).0
            == p.0
}

impl ExecutionState {
    /// The argument slots with which `n` depends on `src`.
    pub open spec fn slots_from(self, src: usize, n: usize) -> Set<usize> {
        Set::new(|i: usize| self.edge_set(n).contains((src, i)))
    }

    /// What the exported graph must hold: exactly the graph's nodes, one
    /// edge per dependency pair, each weighted with exactly the slots it
    /// fills, in some order without repetition.
    pub open spec fn export_ok(
        self,
        g: petgraph::graphmap::DiGraphMap<usize, Vec<usize>>,
    ) -> bool {
        &&& digraph_nodes(g) == self.graph_node_set()
        &&& forall|p: (usize, usize)| #[trigger]
            digraph_edges(g).contains_key(p) <==> exists|i: usize|
                self.edge_set(p.1).contains((p.0, i))
        &&& forall|p: (usize, usize)|
            #[trigger] digraph_edges(g).contains_key(p) ==> digraph_edges(g)[p].no_duplicates()
                && digraph_edges(g)[p].to_set() == self.slots_from(p.0, p.1)
    }

    /// Materialize the dependency graph as a directed multigraph: one node
    /// per operation id present, one weighted edge from each dependency to
    /// its dependent carrying the argument slots it fills.
    #[verifier::loop_isolation(false)]
    #[verifier::rlimit(100)]
    pub fn get_dependency_graph(&self) -> (g: petgraph::graphmap::DiGraphMap<usize, Vec<usize>>)
        requires
            self.wf(),
        ensures
            self.export_ok(g),
    {
        let entries = graph_entries_vec(&self.dependency_graph);
        let mut g = digraph_new();
        let mut t: usize = 0;
        while t < entries.len()
            invariant
                0 <= t <= entries@.len(),
                forall|x: usize|
                    #[trigger] digraph_nodes(g).contains(x) <==> entries_have_key(
                        entries@,
                        t as int,
                        x,
                    ) || entries_have_source(entries@, t as int, x),
                forall|p: (usize, usize)| #[trigger]
                    digraph_edges(g).contains_key(p) <==> entries_have_edge(entries@, t as int, p),
                forall|p: (usize, usize)|
                    #[trigger] digraph_edges(g).contains_key(p) ==> digraph_edges(
                        g,
                    )[p].no_duplicates() && digraph_edges(g)[p].to_set() == self.slots_from(
                        p.0,
                        p.1,
                    ),
            decreases entries@.len() - t,
        {
            let n = entries[t].0;
            let ghost pre_nodes = digraph_nodes(g);
            let ghost pre_edges = digraph_edges(g);
            digraph_add_node(&mut g, n);
            let deps = &entries[t].1;
            proof {
                assert(self.graph().contains_key(n));
                assert(deps@ == self.graph()[n]);
                assert(deps@ == self.edges_of(n));
                assert(deps@.no_duplicates());
            }
            let mut handled: Vec<usize> = Vec::new();
            let mut j: usize = 0;
            while j < deps.len()
                invariant
                    0 <= j <= deps@.len(),
                    handled@.no_duplicates(),
                    forall|s: usize|
                        #[trigger] handled@.contains(s) <==> exists|j2: int|
                            0 <= j2 < j && (#[trigger] deps@[j2]).0 == s,
                    forall|x: usize|
                        #[trigger] digraph_nodes(g).contains(x) <==> pre_nodes.contains(x) || x
                            == n || handled@.contains(x),
                    forall|p: (usize, usize)| #[trigger]
                        digraph_edges(g).contains_key(p) <==> pre_edges.contains_key(p) || (p.1
                            == n && handled@.contains(p.0)),
                    forall|p: (usize, usize)|
                        #[trigger] digraph_edges(g).contains_key(p) ==> digraph_edges(
                            g,
                        )[p].no_duplicates() && digraph_edges(g)[p].to_set() == self.slots_from(
                            p.0,
                            p.1,
                        ),
                decreases deps@.len() - j,
            {
                let src = deps[j].0;
                if !id_vec_contains(&handled, src) {
                    let mut weight: Vec<usize> = Vec::new();
                    let mut k: usize = 0;
                    while k < deps.len()
                        invariant
                            0 <= k <= deps@.len(),
                            weight@.no_duplicates(),
                            forall|q: int|
                                #![trigger weight@[q]]
                                0 <= q < weight@.len() ==> exists|k2: int|
                                    0 <= k2 < k && (#[trigger] deps@[k2]) == (src, weight@[q]),
                            forall|k2: int|
                                0 <= k2 < k && (#[trigger] deps@[k2]).0 == src ==> weight@.contains(
                                    deps@[k2].1,
                                ),
                        decreases deps@.len() - k,
                    {
                        if deps[k].0 == src {
                            let ghost wprev = weight@;
                            weight.push(deps[k].1);
                            proof {
                                assert forall|p2: int, q2: int|
                                    0 <= p2 < q2 < weight@.len() implies weight@[p2]
                                    != weight@[q2] by {
                                    if q2 == weight@.len() - 1 {
                                        if weight@[p2] == deps@[k as int].1 {
                                            assert(wprev[p2] == deps@[k as int].1);
                                            let k2 = choose|k2: int|
                                                0 <= k2 < k && (#[trigger] deps@[k2]) == (
                                                src,
                                                wprev[p2],
                                                );
                                            assert(deps@[k2] == deps@[k as int]);
                                        }
                                    }
                                }
                                assert forall|k2: int|
                                    0 <= k2 < k + 1 && (#[trigger] deps@[k2]).0
                                        == src implies weight@.contains(deps@[k2].1) by {
                                    if k2 < k {
                                        assert(wprev.contains(deps@[k2].1));
                                        let q = choose|q: int|
                                            0 <= q < wprev.len() && wprev[q] == deps@[k2].1;
                                        assert(weight@[q] == deps@[k2].1);
                                    } else {
                                        assert(weight@[weight@.len() - 1] == deps@[k2].1);
                                    }
                                }
                            }
                        } else {
                            proof {
                                assert forall|k2: int|
                                    0 <= k2 < k + 1 && (#[trigger] deps@[k2]).0
                                        == src implies weight@.contains(deps@[k2].1) by {}
                            }
                        }
                        k = k + 1;
                    }
                    proof {
                        assert(weight@.to_set() =~= self.slots_from(src, n)) by {
                            assert forall|i2: usize|
                                weight@.to_set().contains(i2) implies self.slots_from(
                                src,
                                n,
                            ).contains(i2) by {
                                let q = choose|q: int| 0 <= q < weight@.len() && weight@[q] == i2;
                                let k2 = choose|k2: int|
                                    0 <= k2 < deps@.len() && (#[trigger] deps@[k2]) == (src, i2);
                                assert(deps@.contains((src, i2)));
                            }
                            assert forall|i2: usize|
                                self.slots_from(src, n).contains(i2) implies weight@.to_set()
                                .contains(i2) by {
                                assert(self.edge_set(n).contains((src, i2)));
                                assert(deps@.to_set().contains((src, i2)));
                                let k2 = choose|k2: int|
                                    0 <= k2 < deps@.len() && deps@[k2] == (src, i2);
                                assert((#[trigger] deps@[k2]).0 == src);
                                assert(weight@.contains(i2));
                            }
                        }
                        if pre_edges.contains_key((src, n)) {
                            let (k2, j2): (int, int) = choose|k2: int, j2: int|
                                0 <= k2 < t && entries@[k2].0 == n && 0 <= j2
                                    < entries@[k2].1@.len() && (#[trigger] entries@[k2].1@[j2]).0
                                    == src;
                            assert(entries@[k2].0 != entries@[t as int].0);
                            assert(false);
                        }
                        assert(!digraph_edges(g).contains_key((src, n)));
                    }
                    let old_weight = digraph_add_edge(&mut g, src, n, weight);
                    let ghost hprev = handled@;
                    handled.push(src);
                    proof {
                        assert forall|p2: int, q2: int|
                            0 <= p2 < q2 < handled@.len() implies handled@[p2] != handled@[q2] by {
                            if q2 == handled@.len() - 1 {
                                if handled@[p2] == src {
                                    assert(hprev[p2] == src);
                                    assert(hprev.contains(src));
                                }
                            }
                        }
                        assert forall|s: usize| #[trigger]
                            handled@.contains(s) implies (exists|j2: int|
                            0 <= j2 < j + 1 && (#[trigger] deps@[j2]).0 == s) by {
                            let q = choose|q: int| 0 <= q < handled@.len() && handled@[q] == s;
                            if q < hprev.len() {
                                assert(hprev[q] == s);
                                assert(hprev.contains(s));
                                let j2 = choose|j2: int|
                                    0 <= j2 < j && (#[trigger] deps@[j2]).0 == s;
                            } else {
                                assert((#[trigger] deps@[j as int]).0 == s);
                            }
                        }
                        assert forall|s: usize|
                            (exists|j2: int|
                                0 <= j2 < j + 1 && (#[trigger] deps@[j2]).0
                                    == s) implies handled@.contains(s) by {
                            let j2 = choose|j2: int|
                                0 <= j2 < j + 1 && (#[trigger] deps@[j2]).0 == s;
                            if j2 < j {
                                assert(hprev.contains(s));
                                let q = choose|q: int| 0 <= q < hprev.len() && hprev[q] == s;
                                assert(handled@[q] == s);
                            } else {
                                assert(handled@[handled@.len() - 1] == src);
                            }
                        }
                    }
                } else {
                    proof {
                        assert forall|s: usize| #[trigger]
                            handled@.contains(s) implies (exists|j2: int|
                            0 <= j2 < j + 1 && (#[trigger] deps@[j2]).0 == s) by {
                            let j2 = choose|j2: int|
                                0 <= j2 < j && (#[trigger] deps@[j2]).0 == s;
                        }
                        assert forall|s: usize|
                            (exists|j2: int|
                                0 <= j2 < j + 1 && (#[trigger] deps@[j2]).0
                                    == s) implies handled@.contains(s) by {
                            let j2 = choose|j2: int|
                                0 <= j2 < j + 1 && (#[trigger] deps@[j2]).0 == s;
                            if j2 == j {
                                assert(handled@.contains(src));
                            }
                        }
                    }
                }
                j = j + 1;
            }
            proof {
                assert forall|x: usize| #[trigger]
                    digraph_nodes(g).contains(x) implies entries_have_key(entries@, t as int + 1, x)
                    || entries_have_source(entries@, t as int + 1, x) by {
                    if pre_nodes.contains(x) {
                        if entries_have_key(entries@, t as int, x) {
                            let k = choose|k: int|
                                0 <= k < t && (#[trigger] entries@[k]).0 == x;
                            assert((entries@[k]).0 == x);
                        } else {
                            let (k, j2): (int, int) = choose|k: int, j2: int|
                                0 <= k < t && 0 <= j2 < entries@[k].1@.len()
                                    && (#[trigger] entries@[k].1@[j2]).0 == x;
                            assert((entries@[k].1@[j2]).0 == x);
                        }
                    } else if x == n {
                        assert((entries@[t as int]).0 == x);
                    } else {
                        let j2 = choose|j2: int|
                            0 <= j2 < deps@.len() && (#[trigger] deps@[j2]).0 == x;
                        assert((entries@[t as int].1@[j2]).0 == x);
                    }
                }
                assert forall|x: usize|
                    entries_have_key(entries@, t as int + 1, x) || entries_have_source(
                        entries@,
                        t as int + 1,
                        x,
                    ) implies #[trigger] digraph_nodes(g).contains(x) by {
                    if entries_have_key(entries@, t as int + 1, x) {
                        let k = choose|k: int|
                            0 <= k < t + 1 && (#[trigger] entries@[k]).0 == x;
                        if k < t {
                            assert(entries_have_key(entries@, t as int, x));
                            assert(pre_nodes.contains(x));
                        }
                    } else {
                        let (k, j2): (int, int) = choose|k: int, j2: int|
                            0 <= k < t + 1 && 0 <= j2 < entries@[k].1@.len()
                                && (#[trigger] entries@[k].1@[j2]).0 == x;
                        if k < t {
                            assert(entries_have_source(entries@, t as int, x));
                            assert(pre_nodes.contains(x));
                        } else {
                            assert((deps@[j2]).0 == x);
                            assert(handled@.contains(x));
                        }
                    }
                }
                assert forall|p: (usize, usize)| #[trigger]
                    digraph_edges(g).contains_key(p) implies entries_have_edge(
                    entries@,
                    t as int + 1,
                    p,
                ) by {
                    if pre_edges.contains_key(p) {
                        let (k, j2): (int, int) = choose|k: int, j2: int|
                            0 <= k < t && entries@[k].0 == p.1 && 0 <= j2 < entries@[k].1@.len()
                                && (#[trigger] entries@[k].1@[j2]).0 == p.0;
                        assert((entries@[k].1@[j2]).0 == p.0);
                    } else {
                        let j2 = choose|j2: int|
                            0 <= j2 < deps@.len() && (#[trigger] deps@[j2]).0 == p.0;
                        assert((entries@[t as int].1@[j2]).0 == p.0);
                        assert(entries@[t as int].0 == p.1);
                    }
                }
                assert forall|p: (usize, usize)|
                    entries_have_edge(entries@, t as int + 1, p) implies #[trigger] digraph_edges(
                    g,
                ).contains_key(p) by {
                    let (k, j2): (int, int) = choose|k: int, j2: int|
                        0 <= k < t + 1 && entries@[k].0 == p.1 && 0 <= j2 < entries@[k].1@.len()
                            && (#[trigger] entries@[k].1@[j2]).0 == p.0;
                    if k < t {
                        assert(entries_have_edge(entries@, t as int, p));
                        assert(pre_edges.contains_key(p));
                    } else {
                        assert((deps@[j2]).0 == p.0);
                        assert(handled@.contains(p.0));
                        assert(p.1 == n);
                    }
                }
            }
            t = t + 1;
        }
        proof {
            assert(digraph_nodes(g) =~= self.graph_node_set()) by {
                assert forall|x: usize|
                    digraph_nodes(g).contains(x) implies self.graph_node_set().contains(x) by {
                    if entries_have_key(entries@, entries@.len() as int, x) {
                        let k = choose|k: int|
                            0 <= k < entries@.len() && (#[trigger] entries@[k]).0 == x;
                        assert(self.graph().contains_key(x));
                    } else {
                        let (k, j2): (int, int) = choose|k: int, j2: int|
                            0 <= k < entries@.len() && 0 <= j2 < entries@[k].1@.len()
                                && (#[trigger] entries@[k].1@[j2]).0 == x;
                        let key = entries@[k].0;
                        assert(self.graph().contains_key(key));
                        let e = entries@[k].1@[j2];
                        assert(self.edges_of(key).contains(e));
                        assert(self.edge_set(key).contains((e.0, e.1)));
                        assert(self.is_graph_source(x));
                    }
                }
                assert forall|x: usize|
                    self.graph_node_set().contains(x) implies digraph_nodes(g).contains(x) by {
                    if self.graph().dom().contains(x) {
                        let k = choose|k: int|
                            0 <= k < entries@.len() && (#[trigger] entries@[k]).0 == x;
                        assert(entries_have_key(entries@, entries@.len() as int, x));
                    } else {
                        let (nn, ii): (usize, usize) = choose|nn: usize, ii: usize|
                            self.graph().contains_key(nn) && #[trigger] self.edge_set(nn).contains(
                                (x, ii),
                            );
                        let k = choose|k: int|
                            0 <= k < entries@.len() && (#[trigger] entries@[k]).0 == nn;
                        assert(entries@[k].1@ == self.graph()[nn]);
                        assert(self.edges_of(nn).contains((x, ii)));
                        let j2 = choose|j2: int|
                            0 <= j2 < entries@[k].1@.len() && entries@[k].1@[j2] == (x, ii);
                        assert((entries@[k].1@[j2]).0 == x);
                        assert(entries_have_source(entries@, entries@.len() as int, x));
                    }
                }
            }
            assert forall|p: (usize, usize)| #[trigger]
                digraph_edges(g).contains_key(p) implies (exists|i: usize|
                self.edge_set(p.1).contains((p.0, i))) by {
                let (k, j2): (int, int) = choose|k: int, j2: int|
                    0 <= k < entries@.len() && entries@[k].0 == p.1 && 0 <= j2
                        < entries@[k].1@.len() && (#[trigger] entries@[k].1@[j2]).0 == p.0;
                let e = entries@[k].1@[j2];
                assert(self.graph().contains_key(p.1));
                assert(self.edges_of(p.1).contains(e));
                assert(self.edge_set(p.1).contains((p.0, e.1)));
            }
            assert forall|p: (usize, usize)|
                (exists|i: usize|
                    self.edge_set(p.1).contains((p.0, i))) implies #[trigger] digraph_edges(
                g,
            ).contains_key(p) by {
                let i = choose|i: usize| self.edge_set(p.1).contains((p.0, i));
                assert(self.graph().contains_key(p.1)) by {
                    if !self.graph().contains_key(p.1) {
                        assert(self.edges_of(p.1) =~= Seq::<(usize, usize)>::empty());
                    }
                }
                let k = choose|k: int|
                    0 <= k < entries@.len() && (#[trigger] entries@[k]).0 == p.1;
                assert(entries@[k].1@ == self.graph()[p.1]);
                assert(self.edges_of(p.1).contains((p.0, i)));
                let j2 = choose|j2: int|
                    0 <= j2 < entries@[k].1@.len() && entries@[k].1@[j2] == (p.0, i);
                assert((entries@[k].1@[j2]).0 == p.0);
                assert(entries_have_edge(entries@, entries@.len() as int, p));
            }
        }
        g
    }
}

} // verus!

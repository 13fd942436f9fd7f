//! Trusted interface to the persistent (copy-on-write, structurally shared)
//! hash maps and sets of the `im` crate, which back every snapshot of the
//! execution state. Each wrapper relies on one method of `im`, and the
//! uninterpreted functions below name what each collection holds.

use vstd::prelude::*;
use crate::operation::OperationNode;

verus! {

#[verifier::external_type_specification]
#[verifier::external_body]
#[verifier::reject_recursive_types(K)]
#[verifier::reject_recursive_types(V)]
#[verifier::reject_recursive_types(S)]
pub struct ExImHashMap<K, V, S>(im::HashMap<K, V, S>);

#[verifier::external_type_specification]
#[verifier::external_body]
#[verifier::reject_recursive_types(A)]
#[verifier::reject_recursive_types(S)]
pub struct ExImHashSet<A, S>(im::HashSet<A, S>);

/// What a value store holds: each present operation id mapped to its stored
/// optional buffer.
pub uninterp spec fn store_entries(m: im::HashMap<usize, Option<Vec<u8>>>) -> Map<
    usize,
    Option<Seq<u8>>,
>;

/// What an ever-set holds: the ids that were ever written.
pub uninterp spec fn ever_entries(s: im::HashSet<usize>) -> Set<usize>;

/// What an operation table holds: each registered id mapped to its node.
pub uninterp spec fn op_table(m: im::HashMap<usize, OperationNode>) -> Map<usize, OperationNode>;

/// What a dependency-graph map holds: each operation id with an entry mapped
/// to the list of `(source, argument index)` edges it depends on.
pub uninterp spec fn graph_entries(m: im::HashMap<usize, Vec<(usize, usize)>>) -> Map<
    usize,
    Seq<(usize, usize)>,
>;

/// Relies on `im::HashMap::new`: an empty map.
#[verifier::external_body]
pub fn store_new() -> (r: im::HashMap<usize, Option<Vec<u8>>>)
    ensures
        forall|k: usize| !(#[trigger] store_entries(r).contains_key(k)),
{
    im::HashMap::new()
}

/// Relies on `im::HashMap::get`: the value stored under the key, if any.
#[verifier::external_body]
pub fn store_get<'a>(m: &'a im::HashMap<usize, Option<Vec<u8>>>, k: &usize) -> (r: Option<
    &'a Option<Vec<u8>>,
>)
    ensures
        match r {
            Some(v) => store_entries(*m).contains_key(*k) && v.deep_view() == store_entries(*m)[*k],
            None => !store_entries(*m).contains_key(*k),
        },
{
    m.get(k)
}

/// Relies on `im::HashMap::insert`: maps the key to the value, leaving other
/// keys unchanged.
#[verifier::external_body]
pub fn store_insert(m: &mut im::HashMap<usize, Option<Vec<u8>>>, k: usize, v: Option<Vec<u8>>)
    ensures
        store_entries(*final(m)) == store_entries(*old(m)).insert(k, v.deep_view()),
{
    m.insert(k, v);
}

/// Relies on `im::HashMap::remove`: removes the key, leaving other keys
/// unchanged.
#[verifier::external_body]
pub fn store_remove(m: &mut im::HashMap<usize, Option<Vec<u8>>>, k: &usize)
    ensures
        store_entries(*final(m)) == store_entries(*old(m)).remove(*k),
{
    m.remove(k);
}

/// Relies on `im::HashMap::clone`: an equal map, sharing structure with the
/// one cloned.
#[verifier::external_body]
pub fn store_clone(m: &im::HashMap<usize, Option<Vec<u8>>>) -> (r: im::HashMap<
    usize,
    Option<Vec<u8>>,
>)
    ensures
        store_entries(r) == store_entries(*m),
{
    m.clone()
}

/// Relies on `im::HashSet::new`: an empty set.
#[verifier::external_body]
pub fn ever_new() -> (r: im::HashSet<usize>)
    ensures
        forall|k: usize| !(#[trigger] ever_entries(r).contains(k)),
{
    im::HashSet::new()
}

/// Relies on `im::HashSet::contains`: membership in the set.
#[verifier::external_body]
pub fn ever_contains(s: &im::HashSet<usize>, k: &usize) -> (r: bool)
    ensures
        r == ever_entries(*s).contains(*k),
{
    s.contains(k)
}

/// Relies on `im::HashSet::insert`: adds the element, leaving the rest
/// unchanged.
#[verifier::external_body]
pub fn ever_insert(s: &mut im::HashSet<usize>, k: usize)
    ensures
        ever_entries(*final(s)) == ever_entries(*old(s)).insert(k),
{
    s.insert(k);
}

/// Relies on `im::HashSet::clone`: an equal set, sharing structure with the
/// one cloned.
#[verifier::external_body]
pub fn ever_clone(s: &im::HashSet<usize>) -> (r: im::HashSet<usize>)
    ensures
        ever_entries(r) == ever_entries(*s),
{
    s.clone()
}

/// Relies on `im::HashMap::new`: an empty map.
#[verifier::external_body]
pub fn ops_new() -> (r: im::HashMap<usize, OperationNode>)
    ensures
        forall|k: usize| !(#[trigger] op_table(r).contains_key(k)),
{
    im::HashMap::new()
}

/// Relies on `im::HashMap::get`: the node registered under the id, if any.
#[verifier::external_body]
pub fn ops_get<'a>(m: &'a im::HashMap<usize, OperationNode>, k: &usize) -> (r: Option<
    &'a OperationNode,
>)
    ensures
        match r {
            Some(node) => op_table(*m).contains_key(*k) && *node == op_table(*m)[*k],
            None => !op_table(*m).contains_key(*k),
        },
{
    m.get(k)
}

/// Relies on `im::HashMap::insert`: maps the id to the node, leaving other
/// ids unchanged.
#[verifier::external_body]
pub fn ops_insert(m: &mut im::HashMap<usize, OperationNode>, k: usize, v: OperationNode)
    ensures
        op_table(*final(m)) == op_table(*old(m)).insert(k, v),
{
    m.insert(k, v);
}

/// Relies on `im::HashMap::clone`: an equal map, sharing structure with the
/// one cloned.
#[verifier::external_body]
pub fn ops_clone(m: &im::HashMap<usize, OperationNode>) -> (r: im::HashMap<usize, OperationNode>)
    ensures
        op_table(r) == op_table(*m),
{
    m.clone()
}

/// Relies on `im::HashMap::new`: an empty map.
#[verifier::external_body]
pub fn graph_new() -> (r: im::HashMap<usize, Vec<(usize, usize)>>)
    ensures
        forall|k: usize| !(#[trigger] graph_entries(r).contains_key(k)),
{
    im::HashMap::new()
}

/// Relies on `im::HashMap::get`: the edge list stored under the id, if any.
#[verifier::external_body]
pub fn graph_get<'a>(m: &'a im::HashMap<usize, Vec<(usize, usize)>>, k: &usize) -> (r: Option<
    &'a Vec<(usize, usize)>,
>)
    ensures
        match r {
            Some(v) => graph_entries(*m).contains_key(*k) && v@ == graph_entries(*m)[*k],
            None => !graph_entries(*m).contains_key(*k),
        },
{
    m.get(k)
}

/// Relies on `im::HashMap::insert`: maps the id to the edge list, leaving
/// other ids unchanged.
#[verifier::external_body]
pub fn graph_insert(m: &mut im::HashMap<usize, Vec<(usize, usize)>>, k: usize, v: Vec<
    (usize, usize),
>)
    ensures
        graph_entries(*final(m)) == graph_entries(*old(m)).insert(k, v@),
{
    m.insert(k, v);
}

/// Relies on `im::HashMap::remove`: removes the id's entry, leaving other ids
/// unchanged.
#[verifier::external_body]
pub fn graph_remove(m: &mut im::HashMap<usize, Vec<(usize, usize)>>, k: &usize)
    ensures
        graph_entries(*final(m)) == graph_entries(*old(m)).remove(*k),
{
    m.remove(k);
}

/// Relies on `im::HashMap::clone`: an equal map, sharing structure with the
/// one cloned.
#[verifier::external_body]
pub fn graph_clone(m: &im::HashMap<usize, Vec<(usize, usize)>>) -> (r: im::HashMap<
    usize,
    Vec<(usize, usize)>,
>)
    ensures
        graph_entries(r) == graph_entries(*m),
{
    m.clone()
}

/// What a failure table holds: each fatally failed operation id mapped to
/// the reason it failed.
pub uninterp spec fn failure_table(m: im::HashMap<usize, String>) -> Map<usize, Seq<char>>;

/// Relies on `im::HashMap::new`: an empty map.
#[verifier::external_body]
pub fn failures_new() -> (r: im::HashMap<usize, String>)
    ensures
        forall|k: usize| !(#[trigger] failure_table(r).contains_key(k)),
{
    im::HashMap::new()
}

/// Relies on `im::HashMap::get`: the reason stored under the id, if any.
#[verifier::external_body]
pub fn failures_get<'a>(m: &'a im::HashMap<usize, String>, k: &usize) -> (r: Option<&'a String>)
    ensures
        match r {
            Some(reason) => failure_table(*m).contains_key(*k) && reason@ == failure_table(*m)[*k],
            None => !failure_table(*m).contains_key(*k),
        },
{
    m.get(k)
}

/// Relies on `im::HashMap::insert`: maps the id to the reason, leaving
/// other ids unchanged.
#[verifier::external_body]
pub fn failures_insert(m: &mut im::HashMap<usize, String>, k: usize, reason: String)
    ensures
        failure_table(*final(m)) == failure_table(*old(m)).insert(k, reason@),
{
    m.insert(k, reason);
}

/// Relies on `im::HashMap::clone`: an equal map, sharing structure with the
/// one cloned.
#[verifier::external_body]
pub fn failures_clone(m: &im::HashMap<usize, String>) -> (r: im::HashMap<usize, String>)
    ensures
        failure_table(r) == failure_table(*m),
{
    m.clone()
}

/// Relies on `im::HashMap::keys`: every key of the map, each once, in an
/// unspecified order.
#[verifier::external_body]
pub fn store_keys_vec(m: &im::HashMap<usize, Option<Vec<u8>>>) -> (r: Vec<usize>)
    ensures
        r@.no_duplicates(),
        forall|i: int| 0 <= i < r@.len() ==> store_entries(*m).contains_key(#[trigger] r@[i]),
        forall|k: usize|
            store_entries(*m).contains_key(k) ==> exists|i: int|
                0 <= i < r@.len() && #[trigger] r@[i] == k,
{
    m.keys().copied().collect()
}

/// Relies on `im::HashMap::iter`: every entry of the map, each key once, in
/// an unspecified order.
#[verifier::external_body]
pub fn graph_entries_vec(m: &im::HashMap<usize, Vec<(usize, usize)>>) -> (r: Vec<
    (usize, Vec<(usize, usize)>),
>)
    ensures
        forall|i: int, j: int|
            0 <= i < j < r@.len() ==> (#[trigger] r@[i]).0 != (#[trigger] r@[j]).0,
        forall|i: int|
            0 <= i < r@.len() ==> graph_entries(*m).contains_key(#[trigger] r@[i].0)
                && graph_entries(*m)[r@[i].0] == r@[i].1@,
        forall|k: usize|
            graph_entries(*m).contains_key(k) ==> exists|i: int|
                0 <= i < r@.len() && (#[trigger] r@[i]).0 == k,
{
    m.iter().map(|e| (*e.0, e.1.clone())).collect()
}

} // verus!

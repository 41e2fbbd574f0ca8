//! The Fx-hashed maps that the half-edge builder keeps, behind wrappers
//! whose contracts speak of each map's contents.
//!
//! Each map type has one name for what it holds (a `Map` of plain
//! values); every wrapper states what the std `HashMap` method does to
//! that content.  `FxBuildHasher` hashes deterministically, so a map
//! behaves as a map keyed by equality of its (integer) keys.
use rustc_hash::FxBuildHasher;
use rustc_hash::FxHashMap;
use std::collections::BTreeSet;
use vstd::prelude::*;

verus! {

/// A vertex position rounded to integer units.
pub type VertexKey = (i64, i64, i64);

/// A directed edge between two vertex ids.
pub type EdgeKey = (i32, i32);

/// Vertex ids by rounded position.
pub type VertexIds = FxHashMap<VertexKey, i32>;

/// The contents of a `VertexIds` map.
pub type VertexIdsView = Map<VertexKey, i32>;

/// Half-edge indices by (from, to) vertex ids.
pub type EdgeLists = FxHashMap<EdgeKey, Vec<usize>>;

/// The contents of an `EdgeLists` map.
pub type EdgeListsView = Map<EdgeKey, Seq<usize>>;

/// Outgoing half-edge sets by vertex id.
pub type OutgoingSets = FxHashMap<i32, BTreeSet<usize>>;

/// The contents of an `OutgoingSets` map.
pub type OutgoingSetsView = Map<i32, Set<usize>>;

/// Incoming half-edge lists by vertex id.
pub type IncomingLists = FxHashMap<i32, Vec<usize>>;

/// The contents of an `IncomingLists` map.
pub type IncomingListsView = Map<i32, Seq<usize>>;

/// Group index by half-edge index.
pub type GroupOf = FxHashMap<usize, usize>;

/// The contents of a `GroupOf` map.
pub type GroupOfView = Map<usize, usize>;

/// `rustc_hash::FxBuildHasher`, the hasher builder of every `FxHashMap`.
#[verifier::external_type_specification]
#[verifier::external_body]
pub struct ExFxBuildHasher(FxBuildHasher);

// ─── vertex ids ──────────────────────────────────────────────────────
/// What a `VertexIds` map holds.
pub uninterp spec fn vertex_ids_contents(m: VertexIds) -> VertexIdsView;

/// `HashMap::default`: an empty map.
#[verifier::external_body]
pub(crate) fn vertex_ids_new() -> (m: VertexIds)
    ensures
        vertex_ids_contents(m) == VertexIdsView::empty(),
{
    FxHashMap::default()
}

/// `HashMap::contains_key`: whether the key is in the map.
#[verifier::external_body]
pub(crate) fn vertex_ids_contains(m: &VertexIds, k: &VertexKey) -> (b: bool)
    ensures
        b == vertex_ids_contents(*m).contains_key(*k),
{
    m.contains_key(k)
}

/// `HashMap::insert`: the key now maps to the value (its old value, if
/// any, is dropped).
#[verifier::external_body]
pub(crate) fn vertex_ids_insert(m: &mut VertexIds, k: VertexKey, v: i32)
    ensures
        vertex_ids_contents(*final(m)) == vertex_ids_contents(*old(m)).insert(k, v),
{
    m.insert(k, v);
}

/// `HashMap`'s `Index` (`m[&k]`): the value of a key that is present; it
/// panics on a missing key, which `requires` leaves out.
#[verifier::external_body]
pub(crate) fn vertex_ids_get(m: &VertexIds, k: &VertexKey) -> (v: i32)
    requires
        vertex_ids_contents(*m).contains_key(*k),
    ensures
        v == vertex_ids_contents(*m)[*k],
{
    m[k]
}

// ─── edge lists ──────────────────────────────────────────────────────
/// What an `EdgeLists` map holds.
pub uninterp spec fn edge_lists_contents(m: EdgeLists) -> EdgeListsView;

/// `HashMap::default`: an empty map.
#[verifier::external_body]
pub(crate) fn edge_lists_new() -> (m: EdgeLists)
    ensures
        edge_lists_contents(m) == EdgeListsView::empty(),
{
    FxHashMap::default()
}

/// `HashMap::remove`: takes the key's list out of the map.
#[verifier::external_body]
pub(crate) fn edge_lists_remove(m: &mut EdgeLists, k: &EdgeKey) -> (r: Option<Vec<usize>>)
    ensures
        edge_lists_contents(*final(m)) == edge_lists_contents(*old(m)).remove(*k),
        match r {
            Some(l) => edge_lists_contents(*old(m)).contains_key(*k) && l@ == edge_lists_contents(
                *old(m),
            )[*k],
            None => !edge_lists_contents(*old(m)).contains_key(*k),
        },
{
    m.remove(k)
}

/// `HashMap::insert`: the key now maps to the list.
#[verifier::external_body]
pub(crate) fn edge_lists_insert(m: &mut EdgeLists, k: EdgeKey, l: Vec<usize>)
    ensures
        edge_lists_contents(*final(m)) == edge_lists_contents(*old(m)).insert(k, l@),
{
    m.insert(k, l);
}

/// `HashMap::get`: the key's list, if the key is present.
#[verifier::external_body]
pub(crate) fn edge_lists_get<'a>(m: &'a EdgeLists, k: &EdgeKey) -> (r: Option<&'a Vec<usize>>)
    ensures
        match r {
            Some(l) => edge_lists_contents(*m).contains_key(*k) && l@ == edge_lists_contents(
                *m,
            )[*k],
            None => !edge_lists_contents(*m).contains_key(*k),
        },
{
    m.get(k)
}

// ─── outgoing sets ───────────────────────────────────────────────────
/// What an `OutgoingSets` map holds.
pub uninterp spec fn outgoing_sets_contents(m: OutgoingSets) -> OutgoingSetsView;

/// `HashMap::default`: an empty map.
#[verifier::external_body]
pub(crate) fn outgoing_sets_new() -> (m: OutgoingSets)
    ensures
        outgoing_sets_contents(m) == OutgoingSetsView::empty(),
{
    FxHashMap::default()
}

/// `HashMap::insert`: the key now maps to the set.
#[verifier::external_body]
pub(crate) fn outgoing_sets_insert(m: &mut OutgoingSets, k: i32, s: BTreeSet<usize>)
    ensures
        outgoing_sets_contents(*final(m)) == outgoing_sets_contents(*old(m)).insert(k, s@),
{
    m.insert(k, s);
}

/// `HashMap::get`: the key's set, if the key is present.
#[verifier::external_body]
pub(crate) fn outgoing_sets_get<'a>(m: &'a OutgoingSets, k: &i32) -> (r: Option<&'a BTreeSet<usize>>)
    ensures
        match r {
            Some(s) => outgoing_sets_contents(*m).contains_key(*k) && s@ == outgoing_sets_contents(
                *m,
            )[*k],
            None => !outgoing_sets_contents(*m).contains_key(*k),
        },
{
    m.get(k)
}

/// `HashMap::keys`, collected: every key once, in the map's own
/// iteration order, which nothing here states.
#[verifier::external_body]
pub(crate) fn outgoing_sets_keys(m: &OutgoingSets) -> (ks: Vec<i32>)
    ensures
        ks@.to_set() == outgoing_sets_contents(*m).dom(),
        ks@.no_duplicates(),
{
    m.keys().copied().collect()
}

// ─── incoming lists ──────────────────────────────────────────────────
/// What an `IncomingLists` map holds.
pub uninterp spec fn incoming_lists_contents(m: IncomingLists) -> IncomingListsView;

/// `HashMap::default`: an empty map.
#[verifier::external_body]
pub(crate) fn incoming_lists_new() -> (m: IncomingLists)
    ensures
        incoming_lists_contents(m) == IncomingListsView::empty(),
{
    FxHashMap::default()
}

/// `HashMap::remove`: takes the key's list out of the map.
#[verifier::external_body]
pub(crate) fn incoming_lists_remove(m: &mut IncomingLists, k: &i32) -> (r: Option<Vec<usize>>)
    ensures
        incoming_lists_contents(*final(m)) == incoming_lists_contents(*old(m)).remove(*k),
        match r {
            Some(l) => incoming_lists_contents(*old(m)).contains_key(*k) && l@
                == incoming_lists_contents(*old(m))[*k],
            None => !incoming_lists_contents(*old(m)).contains_key(*k),
        },
{
    m.remove(k)
}

/// `HashMap::insert`: the key now maps to the list.
#[verifier::external_body]
pub(crate) fn incoming_lists_insert(m: &mut IncomingLists, k: i32, l: Vec<usize>)
    ensures
        incoming_lists_contents(*final(m)) == incoming_lists_contents(*old(m)).insert(k, l@),
{
    m.insert(k, l);
}

/// `HashMap::get`: the key's list, if the key is present.
#[verifier::external_body]
pub(crate) fn incoming_lists_get<'a>(m: &'a IncomingLists, k: &i32) -> (r: Option<&'a Vec<usize>>)
    ensures
        match r {
            Some(l) => incoming_lists_contents(*m).contains_key(*k) && l@
                == incoming_lists_contents(*m)[*k],
            None => !incoming_lists_contents(*m).contains_key(*k),
        },
{
    m.get(k)
}

// ─── group of a half-edge ────────────────────────────────────────────
/// What a `GroupOf` map holds.
pub uninterp spec fn group_of_contents(m: GroupOf) -> GroupOfView;

/// `HashMap::default`: an empty map.
#[verifier::external_body]
pub(crate) fn group_of_new() -> (m: GroupOf)
    ensures
        group_of_contents(m) == GroupOfView::empty(),
{
    FxHashMap::default()
}

/// `HashMap::insert`: the key now maps to the value.
#[verifier::external_body]
pub(crate) fn group_of_insert(m: &mut GroupOf, k: usize, v: usize)
    ensures
        group_of_contents(*final(m)) == group_of_contents(*old(m)).insert(k, v),
{
    m.insert(k, v);
}

/// `HashMap::get`, copied: the key's value, if the key is present.
#[verifier::external_body]
pub(crate) fn group_of_get(m: &GroupOf, k: &usize) -> (r: Option<usize>)
    ensures
        match r {
            Some(v) => group_of_contents(*m).contains_key(*k) && v == group_of_contents(*m)[*k],
            None => !group_of_contents(*m).contains_key(*k),
        },
{
    m.get(k).copied()
}

} // verus!

//! The published lifecycle table: an eventually consistent map with one
//! writer and any number of readers, who never wait for the writer and see
//! what was published last.
//!
//! Everything in this file is trusted: the contracts say what the map of the
//! `evmap` crate does, and nothing here is proved.
use vstd::prelude::*;
use vstd::multiset::Multiset;
use std::hash::BuildHasher;
use std::hash::Hash;

verus! {

/// What the table holds of one lifecycle under the key of its id: ECU id,
/// start time, end time, message count, whether only control requests were
/// seen, and the device timestamp of the last record.
pub type Entry = (u32, u64, u64, u32, bool, u32);

/// The write side of the map, which `evmap` calls its `WriteHandle`. There
/// is one for each map; it also reads what the readers see.
///
/// The type of the handle is bound by `evmap::ShallowCopy`, a trait that the
/// verifier does not know, so the handle cannot be declared to it and is
/// held here out of its sight. What it holds is named by
/// [`staged_entries`] and [`published_entries`].
#[verifier::external_body]
pub struct LifecycleTable {
    handle: evmap::WriteHandle<u32, Entry>,
}

/// `evmap::ReadHandle`: a read side of the map. Nothing is said of what it
/// holds: a reader sees what was published when it looks.
#[verifier::external_type_specification]
#[verifier::external_body]
#[verifier::reject_recursive_types(K)]
#[verifier::reject_recursive_types(V)]
#[verifier::reject_recursive_types(M)]
#[verifier::reject_recursive_types(S)]
pub struct ExReadHandle<K, V, M, S>(evmap::ReadHandle<K, V, M, S>) where
    K: Eq + Hash,
    S: BuildHasher;

/// The value bags of the map with every staged write applied.
pub uninterp spec fn staged_entries(table: LifecycleTable) -> Map<u32, Multiset<Entry>>;

/// The value bags of the map as its readers see them.
pub uninterp spec fn published_entries(table: LifecycleTable) -> Map<u32, Multiset<Entry>>;

/// `evmap::new`: the write handle of a new map, which has no keys, neither
/// for its readers nor among its staged writes.
#[verifier::external_body]
pub(crate) fn new_table() -> (table: LifecycleTable)
    ensures
        staged_entries(table).dom() == Set::<u32>::empty(),
        published_entries(table).dom() == Set::<u32>::empty(),
{
    LifecycleTable { handle: evmap::new().1 }
}

/// `WriteHandle::update`: the bag of `id` becomes the one value `entry`; the
/// readers see nothing of it yet.
#[verifier::external_body]
pub(crate) fn stage_entry(table: &mut LifecycleTable, id: u32, entry: Entry)
    ensures
        staged_entries(*final(table)) == staged_entries(*old(table)).insert(
            id,
            Multiset::singleton(entry),
        ),
        published_entries(*final(table)) == published_entries(*old(table)),
{
    table.handle.update(id, entry);
}

/// `WriteHandle::refresh`: the readers see every write staged so far. The call
/// waits until no reader is in the middle of a read.
#[verifier::external_body]
pub(crate) fn publish(table: &mut LifecycleTable)
    ensures
        staged_entries(*final(table)) == staged_entries(*old(table)),
        published_entries(*final(table)) == staged_entries(*old(table)),
{
    table.handle.refresh();
}

/// `ReadHandle::map_into`, through the write handle: every key that the
/// readers see, once, with the values of its bag in some order. The order of
/// the keys is that of a hash map and not stated.
#[verifier::external_body]
pub(crate) fn published_bags(table: &LifecycleTable) -> (bags: Vec<(u32, Vec<Entry>)>)
    ensures
        forall|i: int, j: int|
            0 <= i < j < bags@.len() ==> (#[trigger] bags@[i]).0 != (#[trigger] bags@[j]).0,
        forall|i: int|
            0 <= i < bags@.len() ==> published_entries(*table).dom().contains(
                (#[trigger] bags@[i]).0,
            ) && published_entries(*table)[bags@[i].0] == bags@[i].1@.to_multiset(),
        forall|id: u32|
            published_entries(*table).dom().contains(id) ==> exists|i: int|
                0 <= i < bags@.len() && (#[trigger] bags@[i]).0 == id,
{
    table.handle.map_into(|id, bag| (*id, bag.iter().copied().collect()))
}

/// `ReadHandle::clone`, through the write handle: one more reader of the map.
#[verifier::external_body]
pub(crate) fn new_reader(table: &LifecycleTable) -> (reader: evmap::ReadHandle<u32, Entry>)
{
    evmap::ReadHandle::clone(&table.handle)
}

} // verus!

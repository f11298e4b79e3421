//! The filter before the sink: an inclusive range of indices and a set of
//! lifecycles, of which the empty set lets every lifecycle pass.
use vstd::prelude::*;
use std::collections::BTreeSet;
use crate::record::lemma_views_push;
use crate::record::views;
use crate::record::RecordView;
use crate::record::TraceRecord;

verus! {

broadcast use vstd::std_specs::btree::group_btree_axioms;

/// Whether a record passes: its index lies in `first..=last`, and `ids` is
/// empty or holds the lifecycle of the record.
pub open spec fn passes(r: RecordView, first: u32, last: u32, ids: Set<u32>) -> bool {
    &&& first <= r.index <= last
    &&& ids.is_empty() || (r.lifecycle_id is Some && ids.contains(r.lifecycle_id.unwrap()))
}

/// The records of `s` that pass, in their order.
pub open spec fn kept(s: Seq<RecordView>, first: u32, last: u32, ids: Set<u32>) -> Seq<RecordView>
    decreases s.len(),
{
    if s.len() == 0 {
        s
    } else if passes(s.last(), first, last, ids) {
        kept(s.drop_last(), first, last, ids).push(s.last())
    } else {
        kept(s.drop_last(), first, last, ids)
    }
}

/// Every record that is kept passes.
pub proof fn lemma_kept_pass(s: Seq<RecordView>, first: u32, last: u32, ids: Set<u32>)
    ensures
        forall|i: int|
            0 <= i < kept(s, first, last, ids).len() ==> passes(
                #[trigger] kept(s, first, last, ids)[i],
                first,
                last,
                ids,
            ),
    decreases s.len(),
{
    if s.len() > 0 {
        let shorter = kept(s.drop_last(), first, last, ids);
        lemma_kept_pass(s.drop_last(), first, last, ids);
        assert forall|i: int| 0 <= i < kept(s, first, last, ids).len() implies passes(
            #[trigger] kept(s, first, last, ids)[i],
            first,
            last,
            ids,
        ) by {
            if i < shorter.len() {
                assert(kept(s, first, last, ids)[i] == shorter[i]);
            }
        }
    }
}

/// Where every record passes, all are kept.
pub proof fn lemma_kept_all(s: Seq<RecordView>, first: u32, last: u32, ids: Set<u32>)
    requires
        forall|i: int| 0 <= i < s.len() ==> passes(#[trigger] s[i], first, last, ids),
    ensures
        kept(s, first, last, ids) == s,
    decreases s.len(),
{
    if s.len() > 0 {
        let shorter = s.drop_last();
        assert(forall|i: int| 0 <= i < shorter.len() ==> shorter[i] == s[i]);
        lemma_kept_all(shorter, first, last, ids);
        assert(shorter.push(s.last()) =~= s);
    }
}

/// Filtering twice with the same range and the same lifecycles gives what
/// filtering once gives.
pub proof fn lemma_filter_idempotent(s: Seq<RecordView>, first: u32, last: u32, ids: Set<u32>)
    ensures
        kept(kept(s, first, last, ids), first, last, ids) == kept(s, first, last, ids),
{
    lemma_kept_pass(s, first, last, ids);
    lemma_kept_all(kept(s, first, last, ids), first, last, ids);
}

/// The filter of the sink.
pub struct Filter {
    first: u32,
    last: u32,
    lifecycles: BTreeSet<u32>,
}

impl Filter {
    /// The lowest index that passes.
    pub closed spec fn first(&self) -> u32 {
        self.first
    }

    /// The highest index that passes.
    pub closed spec fn last(&self) -> u32 {
        self.last
    }

    /// The lifecycles that pass; if there is none, all do.
    pub closed spec fn lifecycles(&self) -> Set<u32> {
        self.lifecycles@
    }

    /// Whether the record passes this filter.
    pub open spec fn lets_pass(&self, r: RecordView) -> bool {
        passes(r, self.first(), self.last(), self.lifecycles())
    }

    /// The filter that lets every record pass.
    pub fn all() -> (filter: Filter)
        ensures
            filter.first() == 0,
            filter.last() == u32::MAX,
            filter.lifecycles() == Set::<u32>::empty(),
    {
        Filter { first: 0, last: u32::MAX, lifecycles: BTreeSet::new() }
    }

    /// The filter for the indices `first..=last` and the lifecycles `ids`.
    pub fn new(first: u32, last: u32, ids: &Vec<u32>) -> (filter: Filter)
        ensures
            filter.first() == first,
            filter.last() == last,
            filter.lifecycles() == ids@.to_set(),
    {
        let mut lifecycles: BTreeSet<u32> = BTreeSet::new();
        let mut i: usize = 0;
        assert(lifecycles@ =~= ids@.take(0).to_set());
        while i < ids.len()
            invariant
                i <= ids@.len(),
                lifecycles@ == ids@.take(i as int).to_set(),
            decreases ids@.len() - i,
        {
            lifecycles.insert(ids[i]);
            proof {
                let before = ids@.take(i as int);
                let after = ids@.take(i + 1);
                assert(after =~= before.push(ids@[i as int]));
                before.lemma_push_to_set_commute(ids@[i as int]);
            }
            i = i + 1;
        }
        assert(ids@.take(i as int) =~= ids@);
        Filter { first, last, lifecycles }
    }

    /// Whether `record` passes.
    pub fn accepts(&self, record: &TraceRecord) -> (pass: bool)
        ensures
            pass == self.lets_pass(record@),
    {
        if record.index < self.first || record.index > self.last {
            return false;
        }
        if self.lifecycles.is_empty() {
            return true;
        }
        match record.lifecycle_id {
            Some(id) => self.lifecycles.contains(&id),
            None => false,
        }
    }

    /// The records that pass, in their order.
    pub fn apply(&self, records: Vec<TraceRecord>) -> (out: Vec<TraceRecord>)
        ensures
            views(out@) == kept(views(records@), self.first(), self.last(), self.lifecycles()),
    {
        let mut out: Vec<TraceRecord> = Vec::new();
        let ghost input = views(records@);
        assert(views(out@) =~= kept(input.take(0), self.first, self.last, self.lifecycles@));
        for record in iter: records
            invariant
                input == views(iter.seq()),
                views(out@) == kept(
                    input.take(iter.index() as int),
                    self.first,
                    self.last,
                    self.lifecycles@,
                ),
        {
            let ghost i = iter.index() as int;
            assert(input.take(i + 1).drop_last() =~= input.take(i));
            assert(input.take(i + 1).last() == record@);
            if self.accepts(&record) {
                proof {
                    lemma_views_push(out@, record);
                }
                out.push(record);
            }
        }
        assert(input.take(input.len() as int) =~= input);
        out
    }
}

} // verus!

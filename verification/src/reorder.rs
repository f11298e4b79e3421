//! The reorder buffer: brings records back into the order of their reception
//! times, holding back no more than a window of time and a number of
//! lifecycles.
use vstd::prelude::*;
use vstd::seq_lib::seq_to_set_is_finite;
use vstd::set_lib::lemma_len_subset;
use crate::record::views;
use crate::record::RecordView;
use crate::record::TraceRecord;

verus! {

/// No record stands before one with an earlier reception time.
pub open spec fn time_sorted(s: Seq<RecordView>) -> bool {
    forall|i: int, j: int|
        0 <= i <= j < s.len() ==> (#[trigger] s[i]).reception_time <= (
        #[trigger] s[j]).reception_time
}

/// Where a record of time `t` goes into `s`: behind the last record that is
/// not later than `t`, so that records of equal time keep their order of
/// arrival.
pub open spec fn slot(s: Seq<RecordView>, t: u64) -> int
    decreases s.len(),
{
    if s.len() == 0 {
        0
    } else if s.last().reception_time <= t {
        s.len() as int
    } else {
        slot(s.drop_last(), t)
    }
}

/// The buffer `s` with the record `r` put in its place.
pub open spec fn placed(s: Seq<RecordView>, r: RecordView) -> Seq<RecordView> {
    s.insert(slot(s, r.reception_time), r)
}

/// The lifecycles of the records of `s`, each once.
pub open spec fn lifecycle_ids(s: Seq<RecordView>) -> Set<Option<u32>> {
    s.map_values(|r: RecordView| r.lifecycle_id).to_set()
}

/// Whether the earliest record of `s` has to leave: the latest record is at
/// least `window` later, or `s` holds records of more than `cap` lifecycles.
pub open spec fn due(s: Seq<RecordView>, window: u64, cap: usize) -> bool {
    s.len() > 0 && (s.last().reception_time - s[0].reception_time >= window || lifecycle_ids(
        s,
    ).len() > cap)
}

/// How many records leave `s` from its front until the earliest one that is
/// left may stay.
pub open spec fn release_count(s: Seq<RecordView>, window: u64, cap: usize) -> nat
    decreases s.len(),
{
    if due(s, window, cap) {
        1 + release_count(s.skip(1), window, cap)
    } else {
        0
    }
}

/// The slot lies within the buffer, behind a record that is not later than
/// `t` and before records that are all later.
pub proof fn lemma_slot(s: Seq<RecordView>, t: u64)
    ensures
        0 <= slot(s, t) <= s.len(),
        forall|i: int| slot(s, t) <= i < s.len() ==> (#[trigger] s[i]).reception_time > t,
        slot(s, t) > 0 ==> s[slot(s, t) - 1].reception_time <= t,
    decreases s.len(),
{
    if s.len() > 0 && s.last().reception_time > t {
        let shorter = s.drop_last();
        lemma_slot(shorter, t);
        assert(forall|i: int| 0 <= i < shorter.len() ==> shorter[i] == s[i]);
    }
}

/// Putting a record in its place keeps a sorted buffer sorted.
pub proof fn lemma_placed_sorted(s: Seq<RecordView>, r: RecordView)
    requires
        time_sorted(s),
    ensures
        time_sorted(placed(s, r)),
{
    lemma_slot(s, r.reception_time);
    let p = slot(s, r.reception_time);
    let m = placed(s, r);
    assert forall|i: int, j: int| 0 <= i <= j < m.len() implies (#[trigger] m[i]).reception_time <= (
    #[trigger] m[j]).reception_time by {
        if i < p {
            assert(m[i] == s[i]);
            assert(s[i].reception_time <= s[p - 1].reception_time);
        } else if i > p {
            assert(m[i] == s[i - 1]);
        }
        if j < p {
            assert(m[j] == s[j]);
        } else if j > p {
            assert(m[j] == s[j - 1]);
        }
    }
}

/// Whether two records are of the same lifecycle, or both of none.
fn same_lifecycle(a: Option<u32>, b: Option<u32>) -> (same: bool)
    ensures
        same == (a == b),
{
    match (a, b) {
        (Some(x), Some(y)) => x == y,
        (None, None) => true,
        _ => false,
    }
}

/// Whether `id` is among the lifecycles seen.
fn holds(seen: &Vec<Option<u32>>, id: Option<u32>) -> (found: bool)
    ensures
        found == seen@.contains(id),
{
    let mut i: usize = 0;
    while i < seen.len()
        invariant
            i <= seen@.len(),
            forall|j: int| 0 <= j < i ==> seen@[j] != id,
        decreases seen@.len() - i,
    {
        if same_lifecycle(seen[i], id) {
            return true;
        }
        i = i + 1;
    }
    false
}

/// Number of lifecycles among the records of `buffer` from position `from` on.
pub fn distinct_lifecycles(buffer: &Vec<TraceRecord>, from: usize) -> (n: usize)
    requires
        from <= buffer@.len(),
    ensures
        n == lifecycle_ids(views(buffer@).skip(from as int)).len(),
{
    let ghost all = views(buffer@).skip(from as int).map_values(|r: RecordView| r.lifecycle_id);
    let mut seen: Vec<Option<u32>> = Vec::new();
    let mut i: usize = from;
    assert(seen@.to_set() =~= all.take(0).to_set());
    while i < buffer.len()
        invariant
            from <= i <= buffer@.len(),
            all == views(buffer@).skip(from as int).map_values(|r: RecordView| r.lifecycle_id),
            seen@.no_duplicates(),
            seen@.to_set() == all.take(i - from).to_set(),
        decreases buffer@.len() - i,
    {
        let id: Option<u32> = buffer[i].lifecycle_id;
        proof {
            let before = all.take(i - from);
            let after = all.take(i - from + 1);
            assert(all[i - from] == id);
            assert(after =~= before.push(id));
            before.lemma_push_to_set_commute(id);
        }
        if !holds(&seen, id) {
            proof {
                seen@.lemma_push_to_set_commute(id);
            }
            seen.push(id);
        } else {
            assert(seen@.to_set().insert(id) =~= seen@.to_set());
        }
        i = i + 1;
    }
    proof {
        assert(all.take(i - from) =~= all);
        seen@.unique_seq_to_set();
    }
    seen.len()
}

/// The bounded reorder buffer.
pub struct ReorderBuffer {
    window: u64,
    max_lifecycles: usize,
    buffer: Vec<TraceRecord>,
}

impl ReorderBuffer {
    /// The records that are held back, earliest first.
    pub closed spec fn held(&self) -> Seq<RecordView> {
        views(self.buffer@)
    }

    /// The span of reception time, in microseconds, that the buffer covers.
    pub closed spec fn window(&self) -> u64 {
        self.window
    }

    /// The number of lifecycles that the buffer holds records of at most.
    pub closed spec fn max_lifecycles(&self) -> usize {
        self.max_lifecycles
    }

    /// The records that are held back are in the order of their times.
    pub open spec fn wf(&self) -> bool {
        time_sorted(self.held())
    }

    /// An empty buffer.
    pub fn new(window: u64, max_lifecycles: usize) -> (buffer: ReorderBuffer)
        ensures
            buffer.wf(),
            buffer.held() == Seq::<RecordView>::empty(),
            buffer.window() == window,
            buffer.max_lifecycles() == max_lifecycles,
    {
        let buffer = ReorderBuffer { window, max_lifecycles, buffer: Vec::new() };
        assert(buffer.held() =~= Seq::<RecordView>::empty());
        buffer
    }

    /// Number of records that are held back.
    pub fn len(&self) -> (n: usize)
        ensures
            n == self.held().len(),
    {
        self.buffer.len()
    }

    /// Looks for the place of a record of time `t`, from the latest back.
    fn find_slot(&self, t: u64) -> (at: usize)
        ensures
            at == slot(self.held(), t),
            at <= self.buffer@.len(),
    {
        let mut i: usize = self.buffer.len();
        assert(self.held().take(i as int) =~= self.held());
        while i > 0 && self.buffer[i - 1].reception_time > t
            invariant
                i <= self.buffer@.len(),
                slot(self.held(), t) == slot(self.held().take(i as int), t),
            decreases i,
        {
            assert(self.held().take(i as int).drop_last() =~= self.held().take(i - 1));
            i = i - 1;
        }
        i
    }

    /// Whether the record at `from` has to leave, were it the earliest.
    fn is_due(&self, from: usize) -> (b: bool)
        requires
            self.wf(),
            from <= self.buffer@.len(),
        ensures
            b == due(self.held().skip(from as int), self.window, self.max_lifecycles),
    {
        let n: usize = self.buffer.len();
        if from == n {
            return false;
        }
        let earliest: u64 = self.buffer[from].reception_time;
        let latest: u64 = self.buffer[n - 1].reception_time;
        assert(self.held()[from as int].reception_time <= self.held()[n - 1].reception_time);
        if latest - earliest >= self.window {
            return true;
        }
        distinct_lifecycles(&self.buffer, from) > self.max_lifecycles
    }

    /// Takes one record in and hands out the records that may wait no longer,
    /// earliest first.
    ///
    /// The record is put in its place by reception time. Then the earliest
    /// record leaves as long as the latest one is at least a window later, or
    /// the buffer holds records of more lifecycles than it may.
    pub fn push(&mut self, record: TraceRecord) -> (released: Vec<TraceRecord>)
        requires
            old(self).wf(),
        ensures
            final(self).wf(),
            final(self).window() == old(self).window(),
            final(self).max_lifecycles() == old(self).max_lifecycles(),
            views(released@) == placed(old(self).held(), record@).take(
                release_count(
                    placed(old(self).held(), record@),
                    old(self).window(),
                    old(self).max_lifecycles(),
                ) as int,
            ),
            final(self).held() == placed(old(self).held(), record@).skip(
                release_count(
                    placed(old(self).held(), record@),
                    old(self).window(),
                    old(self).max_lifecycles(),
                ) as int,
            ),
            !due(final(self).held(), final(self).window(), final(self).max_lifecycles()),
    {
        let ghost merged = placed(self.held(), record@);
        proof {
            lemma_placed_sorted(self.held(), record@);
        }
        let at: usize = self.find_slot(record.reception_time);
        self.buffer.insert(at, record);
        assert(self.held() =~= merged);
        let mut k: usize = 0;
        assert(merged.skip(0) =~= merged);
        while self.is_due(k)
            invariant
                self.wf(),
                self.held() == merged,
                k <= merged.len(),
                merged.len() == self.buffer.len(),
                release_count(merged, self.window, self.max_lifecycles) == k + release_count(
                    merged.skip(k as int),
                    self.window,
                    self.max_lifecycles,
                ),
            decreases merged.len() - k,
        {
            assert(merged.skip(k as int).len() > 0);
            assert(merged.skip(k as int).skip(1) =~= merged.skip(k + 1));
            k = k + 1;
        }
        let mut rest: Vec<TraceRecord> = self.buffer.split_off(k);
        std::mem::swap(&mut self.buffer, &mut rest);
        assert(views(rest@) =~= merged.take(k as int));
        assert(self.held() =~= merged.skip(k as int));
        rest
    }

    /// Hands out all records that are held back, earliest first.
    pub fn flush(&mut self) -> (released: Vec<TraceRecord>)
        requires
            old(self).wf(),
        ensures
            final(self).wf(),
            final(self).window() == old(self).window(),
            final(self).max_lifecycles() == old(self).max_lifecycles(),
            views(released@) == old(self).held(),
            final(self).held() == Seq::<RecordView>::empty(),
    {
        let mut released: Vec<TraceRecord> = Vec::new();
        std::mem::swap(&mut self.buffer, &mut released);
        assert(self.held() =~= Seq::<RecordView>::empty());
        released
    }
}

/// All that the buffer hands out for the records `input`, taken in one after
/// the other while it holds `held`, and at the end what it still holds.
pub open spec fn run(input: Seq<RecordView>, held: Seq<RecordView>, window: u64, cap: usize) -> Seq<
    RecordView,
>
    decreases input.len(),
{
    if input.len() == 0 {
        held
    } else {
        let merged = placed(held, input[0]);
        let k = release_count(merged, window, cap) as int;
        merged.take(k) + run(input.drop_first(), merged.skip(k), window, cap)
    }
}

/// Brings `records` into the order of their reception times as far as a
/// buffer of the given window and number of lifecycles can.
pub fn reorder(records: Vec<TraceRecord>, window: u64, max_lifecycles: usize) -> (out: Vec<
    TraceRecord,
>)
    ensures
        views(out@) == run(views(records@), Seq::<RecordView>::empty(), window, max_lifecycles),
{
    let mut buffer = ReorderBuffer::new(window, max_lifecycles);
    let mut out: Vec<TraceRecord> = Vec::new();
    let ghost input = views(records@);
    let ghost whole = run(input, Seq::<RecordView>::empty(), window, max_lifecycles);
    assert(input.skip(0) =~= input);
    assert(views(out@) + whole =~= whole);
    for record in iter: records
        invariant
            input == views(iter.seq()),
            buffer.wf(),
            buffer.window() == window,
            buffer.max_lifecycles() == max_lifecycles,
            whole == views(out@) + run(
                input.skip(iter.index() as int),
                buffer.held(),
                window,
                max_lifecycles,
            ),
    {
        let ghost before = views(out@);
        let ghost i = iter.index() as int;
        assert(input.skip(i)[0] == record@);
        assert(input.skip(i).drop_first() =~= input.skip(i + 1));
        let mut released = buffer.push(record);
        let ghost now = views(released@);
        out.append(&mut released);
        assert(views(out@) =~= before + now);
        assert(before + (now + run(input.skip(i + 1), buffer.held(), window, max_lifecycles)) =~= (
        before + now) + run(input.skip(i + 1), buffer.held(), window, max_lifecycles));
    }
    let ghost before = views(out@);
    let mut released = buffer.flush();
    let ghost now = views(released@);
    out.append(&mut released);
    assert(views(out@) =~= before + now);
    out
}

/// Every record of `input` comes less than a window before every record
/// that arrived earlier, be it held in the buffer or earlier in `input`.
pub open spec fn in_window(held: Seq<RecordView>, input: Seq<RecordView>, window: u64) -> bool {
    &&& forall|b: int, j: int|
        0 <= b < held.len() && 0 <= j < input.len() ==> (#[trigger] input[j]).reception_time
            + window > (#[trigger] held[b]).reception_time
    &&& forall|i: int, j: int|
        0 <= i < j < input.len() ==> (#[trigger] input[j]).reception_time + window > (
        #[trigger] input[i]).reception_time
}

/// Every record of `a` stands before every record of `b` in time.
pub open spec fn all_before(a: Seq<RecordView>, b: Seq<RecordView>) -> bool {
    forall|i: int, j: int|
        0 <= i < a.len() && 0 <= j < b.len() ==> (#[trigger] a[i]).reception_time <= (
        #[trigger] b[j]).reception_time
}

/// Records that are all among those of `b` are of no more lifecycles than `b`.
proof fn lemma_fewer_lifecycles(a: Seq<RecordView>, b: Seq<RecordView>)
    requires
        forall|i: int| 0 <= i < a.len() ==> b.contains(#[trigger] a[i]),
    ensures
        lifecycle_ids(a).len() <= lifecycle_ids(b).len(),
{
    let ia = a.map_values(|r: RecordView| r.lifecycle_id);
    let ib = b.map_values(|r: RecordView| r.lifecycle_id);
    assert forall|x: Option<u32>| ia.to_set().contains(x) implies ib.to_set().contains(x) by {
        let k = choose|k: int| 0 <= k < ia.len() && ia[k] == x;
        assert(b.contains(a[k]));
        let j = choose|j: int| 0 <= j < b.len() && b[j] == a[k];
        assert(ib[j] == x);
    }
    seq_to_set_is_finite(ib);
    lemma_len_subset(ia.to_set(), ib.to_set());
}

/// After the release the buffer is within its bounds: its records span less
/// than the window and are of no more lifecycles than it may hold.
pub proof fn lemma_release_count(s: Seq<RecordView>, window: u64, cap: usize)
    ensures
        release_count(s, window, cap) <= s.len(),
        !due(s.skip(release_count(s, window, cap) as int), window, cap),
    decreases s.len(),
{
    if due(s, window, cap) {
        lemma_release_count(s.skip(1), window, cap);
        let k = release_count(s, window, cap) as int;
        assert(s.skip(1).skip(k - 1) =~= s.skip(k));
    } else {
        assert(s.skip(0) =~= s);
    }
}

/// Every record that is released was due when it was the earliest.
proof fn lemma_released_was_due(s: Seq<RecordView>, window: u64, cap: usize, i: int)
    requires
        0 <= i < release_count(s, window, cap),
    ensures
        i < s.len(),
        due(s.skip(i), window, cap),
    decreases i,
{
    lemma_release_count(s, window, cap);
    if i == 0 {
        assert(s.skip(0) =~= s);
    } else {
        lemma_released_was_due(s.skip(1), window, cap, i - 1);
        assert(s.skip(1).skip(i - 1) =~= s.skip(i));
    }
}

/// A buffer with a record put in holds that record and what it held.
proof fn lemma_placed_elements(s: Seq<RecordView>, r: RecordView)
    ensures
        placed(s, r).len() == s.len() + 1,
        forall|i: int|
            0 <= i < placed(s, r).len() ==> (#[trigger] placed(s, r)[i]) == r || s.contains(
                placed(s, r)[i],
            ),
{
    lemma_slot(s, r.reception_time);
    let p = slot(s, r.reception_time);
    let m = placed(s, r);
    assert forall|i: int| 0 <= i < m.len() implies (#[trigger] m[i]) == r || s.contains(m[i]) by {
        if i < p {
            assert(m[i] == s[i]);
        } else if i > p {
            assert(m[i] == s[i - 1]);
        }
    }
}

/// Whatever the buffer hands out was held or came in.
proof fn lemma_run_elements(input: Seq<RecordView>, held: Seq<RecordView>, window: u64, cap: usize)
    ensures
        forall|i: int|
            0 <= i < run(input, held, window, cap).len() ==> held.contains(
                #[trigger] run(input, held, window, cap)[i],
            ) || input.contains(run(input, held, window, cap)[i]),
    decreases input.len(),
{
    let out = run(input, held, window, cap);
    if input.len() == 0 {
    } else {
        let merged = placed(held, input[0]);
        let k = release_count(merged, window, cap) as int;
        let rest = input.drop_first();
        let later = run(rest, merged.skip(k), window, cap);
        lemma_release_count(merged, window, cap);
        lemma_placed_elements(held, input[0]);
        lemma_run_elements(rest, merged.skip(k), window, cap);
        assert forall|i: int| 0 <= i < out.len() implies held.contains(#[trigger] out[i])
            || input.contains(out[i]) by {
            let x = out[i];
            if i < k {
                assert(x == merged[i]);
            } else {
                assert(x == later[i - k]);
                if merged.skip(k).contains(x) {
                    let j = choose|j: int| 0 <= j < merged.skip(k).len() && merged.skip(k)[j] == x;
                    assert(x == merged[j + k]);
                } else {
                    let j = choose|j: int| 0 <= j < rest.len() && rest[j] == x;
                    assert(input[j + 1] == x);
                }
            }
            if x == input[0] {
                assert(input.contains(x));
            }
        }
    }
}

/// With records that arrive within the window and are of no more lifecycles
/// than the buffer may hold, all that the buffer hands out is in the order of
/// the reception times: no record comes out before an earlier one.
pub proof fn lemma_run_sorted(
    input: Seq<RecordView>,
    held: Seq<RecordView>,
    window: u64,
    cap: usize,
)
    requires
        time_sorted(held),
        in_window(held, input, window),
        lifecycle_ids(held + input).len() <= cap,
    ensures
        time_sorted(run(input, held, window, cap)),
    decreases input.len(),
{
    let out = run(input, held, window, cap);
    if input.len() > 0 {
        let r = input[0];
        let merged = placed(held, r);
        let k = release_count(merged, window, cap) as int;
        let rest = input.drop_first();
        let kept = merged.skip(k);
        let later = run(rest, kept, window, cap);
        lemma_release_count(merged, window, cap);
        lemma_placed_sorted(held, r);
        lemma_placed_elements(held, r);
        assert(forall|j: int| 0 <= j < rest.len() ==> rest[j] == input[j + 1]);
        assert(in_window(kept, rest, window)) by {
            assert forall|b: int, j: int|
                0 <= b < kept.len() && 0 <= j < rest.len() implies (
            #[trigger] rest[j]).reception_time + window > (#[trigger] kept[b]).reception_time by {
                let m = merged[b + k];
                assert(kept[b] == m);
                if m == r {
                    assert(input[j + 1].reception_time + window > input[0].reception_time);
                } else {
                    let h = choose|h: int| 0 <= h < held.len() && held[h] == m;
                    assert(input[j + 1].reception_time + window > held[h].reception_time);
                }
            }
        }
        assert(lifecycle_ids(kept + rest).len() <= cap) by {
            let both = held + input;
            assert forall|i: int| 0 <= i < (kept + rest).len() implies both.contains(
                #[trigger] (kept + rest)[i],
            ) by {
                let x = (kept + rest)[i];
                if i < kept.len() {
                    assert(x == merged[i + k]);
                    if x == r {
                        assert(both[held.len() as int] == x);
                    } else {
                        let h = choose|h: int| 0 <= h < held.len() && held[h] == x;
                        assert(both[h] == x);
                    }
                } else {
                    assert(x == input[i - kept.len() + 1]);
                    assert(both[held.len() + (i - kept.len() + 1)] == x);
                }
            }
            lemma_fewer_lifecycles(kept + rest, both);
        }
        lemma_run_sorted(rest, kept, window, cap);
        lemma_run_elements(rest, kept, window, cap);
        let first = merged.take(k);
        assert(all_before(first, later)) by {
            assert forall|i: int, j: int|
                0 <= i < first.len() && 0 <= j < later.len() implies (
            #[trigger] first[i]).reception_time <= (#[trigger] later[j]).reception_time by {
                let e = merged[i];
                let y = later[j];
                assert(first[i] == e);
                if kept.contains(y) {
                    let b = choose|b: int| 0 <= b < kept.len() && kept[b] == y;
                    assert(y == merged[b + k]);
                } else {
                    let q = choose|q: int| 0 <= q < rest.len() && rest[q] == y;
                    lemma_released_was_due(merged, window, cap, i);
                    let tail = merged.skip(i);
                    assert(tail.last() == merged.last());
                    assert(tail[0] == e);
                    assert(lifecycle_ids(tail).len() <= cap) by {
                        let both = held + input;
                        assert forall|n: int| 0 <= n < tail.len() implies both.contains(
                            #[trigger] tail[n],
                        ) by {
                            let x = tail[n];
                            assert(x == merged[n + i]);
                            if x == r {
                                assert(both[held.len() as int] == x);
                            } else {
                                let h = choose|h: int| 0 <= h < held.len() && held[h] == x;
                                assert(both[h] == x);
                            }
                        }
                        lemma_fewer_lifecycles(tail, both);
                    }
                    let latest = merged.last();
                    assert(latest.reception_time - e.reception_time >= window);
                    if latest == r {
                        assert(input[q + 1].reception_time + window > input[0].reception_time);
                    } else {
                        let h = choose|h: int| 0 <= h < held.len() && held[h] == latest;
                        assert(input[q + 1].reception_time + window > held[h].reception_time);
                    }
                }
            }
        }
        assert forall|i: int, j: int| 0 <= i <= j < out.len() implies (
        #[trigger] out[i]).reception_time <= (#[trigger] out[j]).reception_time by {
            if j < k {
                assert(out[i] == merged[i] && out[j] == merged[j]);
            } else if i < k {
                assert(out[i] == first[i] && out[j] == later[j - k]);
            } else {
                assert(out[i] == later[i - k] && out[j] == later[j - k]);
            }
        }
    }
}

/// The buffer loses no record and makes none: what it hands out in all are
/// the records it held and those that came in, each as often as it came.
pub proof fn lemma_run_permutes(
    input: Seq<RecordView>,
    held: Seq<RecordView>,
    window: u64,
    cap: usize,
)
    ensures
        run(input, held, window, cap).to_multiset() == held.to_multiset().add(input.to_multiset()),
    decreases input.len(),
{
    broadcast use vstd::multiset::group_multiset_axioms;

    let out = run(input, held, window, cap);
    if input.len() == 0 {
        input.to_multiset_ensures();
        assert(input.to_multiset() =~= vstd::multiset::Multiset::<RecordView>::empty());
        assert(out.to_multiset() =~= held.to_multiset().add(input.to_multiset()));
    } else {
        let r = input[0];
        let merged = placed(held, r);
        let k = release_count(merged, window, cap) as int;
        let rest = input.drop_first();
        let first = merged.take(k);
        let kept = merged.skip(k);
        let later = run(rest, kept, window, cap);
        lemma_release_count(merged, window, cap);
        lemma_slot(held, r.reception_time);
        lemma_run_permutes(rest, kept, window, cap);
        vstd::seq_lib::lemma_multiset_commutative(first, later);
        vstd::seq_lib::lemma_multiset_commutative(first, kept);
        assert(first + kept =~= merged);
        vstd::seq_lib::to_multiset_insert(held, slot(held, r.reception_time), r);
        assert(input =~= seq![r] + rest);
        vstd::seq_lib::lemma_multiset_commutative(seq![r], rest);
        assert(seq![r] =~= Seq::<RecordView>::empty().push(r));
        vstd::seq_lib::to_multiset_build(Seq::<RecordView>::empty(), r);
        Seq::<RecordView>::empty().to_multiset_ensures();
        let one = seq![r].to_multiset();
        assert(one =~= vstd::multiset::Multiset::<RecordView>::empty().insert(r));
        assert(first.to_multiset().add(kept.to_multiset()) =~= held.to_multiset().insert(r));
        assert(input.to_multiset() =~= one.add(rest.to_multiset()));
        assert(out.to_multiset() =~= first.to_multiset().add(
            kept.to_multiset().add(rest.to_multiset()),
        ));
        assert forall|x: RecordView|
            out.to_multiset().count(x) == held.to_multiset().add(input.to_multiset()).count(
                x,
            ) by {
            let both = first.to_multiset().add(kept.to_multiset());
            assert(both.count(x) == held.to_multiset().insert(r).count(x));
            assert(input.to_multiset().count(x) == one.add(rest.to_multiset()).count(x));
            assert(one.count(x) == vstd::multiset::Multiset::<RecordView>::empty().insert(r).count(
                x,
            ));
        }
        assert(out.to_multiset() =~= held.to_multiset().add(input.to_multiset()));
    }
}

} // verus!

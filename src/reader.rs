use vstd::prelude::*;

use std::collections::VecDeque;

use crate::state::{card_arrived, is_arrival, is_gone, reader_gone, UNAWARE};

verus! {

/// The reserved reader name under which the card service reports readers
/// being plugged in or removed: `\\?PnP?\Notification`.
pub open spec fn notifier_name() -> Seq<u8> {
    seq![
        0x5cu8, 0x5cu8, 0x3fu8, 0x50u8, 0x6eu8, 0x50u8, 0x3fu8, 0x5cu8, 0x4eu8, 0x6fu8,
        0x74u8, 0x69u8, 0x66u8, 0x69u8, 0x63u8, 0x61u8, 0x74u8, 0x69u8, 0x6fu8, 0x6eu8,
    ]
}

/// The name of the hot-plug notification pseudo-reader.
pub fn notifier() -> (r: Vec<u8>)
    ensures
        r@ == notifier_name(),
{
    let r: Vec<u8> = vec![
        0x5cu8, 0x5cu8, 0x3fu8, 0x50u8, 0x6eu8, 0x50u8, 0x3fu8, 0x5cu8, 0x4eu8, 0x6fu8,
        0x74u8, 0x69u8, 0x66u8, 0x69u8, 0x63u8, 0x61u8, 0x74u8, 0x69u8, 0x6fu8, 0x6eu8,
    ];
    assert(r@ =~= notifier_name());
    r
}

/// One tracked reader: its name, the state last synchronized and the state
/// last reported.
pub struct ReaderSlot {
    pub name: Vec<u8>,
    pub current_state: u64,
    pub event_state: u64,
}

/// A reader slot as the contracts see it.
pub struct SlotView {
    pub name: Seq<u8>,
    pub current: u64,
    pub event: u64,
}

impl View for ReaderSlot {
    type V = SlotView;

    open spec fn view(&self) -> SlotView {
        SlotView { name: self.name@, current: self.current_state, event: self.event_state }
    }
}

/// What the consumer of identifiers does next.
#[derive(Debug, PartialEq, Eq)]
pub enum Step {
    /// Deliver this raw response, the oldest queued.
    Deliver(Vec<u8>),
    /// Nothing is queued: run a poll cycle first.
    Poll,
}

/// The reader set and the queue of raw card responses awaiting delivery.
pub struct CardReader {
    readers: Vec<ReaderSlot>,
    responses: VecDeque<Vec<u8>>,
}

/// The tracked readers, in order, and the queued raw responses, oldest first.
pub struct CardReaderView {
    pub readers: Seq<SlotView>,
    pub queue: Seq<Seq<u8>>,
}

impl View for CardReader {
    type V = CardReaderView;

    closed spec fn view(&self) -> CardReaderView {
        CardReaderView {
            readers: self.readers@.map_values(|s: ReaderSlot| s@),
            queue: self.responses@.map_values(|r: Vec<u8>| r@),
        }
    }
}

/// A reader that has seen nothing yet.
pub open spec fn fresh_slot(n: Seq<u8>) -> SlotView {
    SlotView { name: n, current: UNAWARE, event: UNAWARE }
}

/// A slot whose current state is taken from the report `e`.
pub open spec fn synced(s: SlotView, e: u64) -> SlotView {
    SlotView { name: s.name, current: e, event: e }
}

/// Some slot of `rs` bears the name `n`.
pub open spec fn tracks(rs: Seq<SlotView>, n: Seq<u8>) -> bool {
    exists|i: int| 0 <= i < rs.len() && #[trigger] rs[i].name == n
}

/// No two slots of `rs` bear the same name.
pub open spec fn names_unique(rs: Seq<SlotView>) -> bool {
    forall|i: int, j: int|
        0 <= i < rs.len() && 0 <= j < rs.len() && i != j ==> #[trigger] rs[i].name != #[trigger] rs[j].name
}

/// The notifier comes first and no name is tracked twice.
pub open spec fn tracker_wf(rs: Seq<SlotView>) -> bool {
    &&& rs.len() >= 1
    &&& rs[0].name == notifier_name()
    &&& names_unique(rs)
}

/// The byte strings held by a sequence of vectors.
pub open spec fn bytes_view(v: Seq<Vec<u8>>) -> Seq<Seq<u8>> {
    v.map_values(|b: Vec<u8>| b@)
}

/// The reader set after enumerating `names`: each name not yet tracked is
/// appended, in enumeration order, as a slot that has seen nothing yet.
pub open spec fn refreshed(rs: Seq<SlotView>, names: Seq<Seq<u8>>) -> Seq<SlotView>
    decreases names.len(),
{
    if names.len() == 0 {
        rs
    } else {
        let prev = refreshed(rs, names.drop_last());
        if tracks(prev, names.last()) {
            prev
        } else {
            prev.push(fresh_slot(names.last()))
        }
    }
}

/// The first `k` slots after the events `ev`: every slot takes its reported
/// state as its current one; a slot other than the notifier whose report says
/// it is gone is dropped.
pub open spec fn kept(rs: Seq<SlotView>, ev: Seq<u64>, k: int) -> Seq<SlotView>
    decreases k,
{
    if k <= 0 {
        Seq::empty()
    } else {
        let prev = kept(rs, ev, k - 1);
        if k - 1 == 0 || !is_gone(ev[k - 1]) {
            prev.push(synced(rs[k - 1], ev[k - 1]))
        } else {
            prev
        }
    }
}

/// The names of the slots that `kept` drops from the first `k`.
pub open spec fn dropped(rs: Seq<SlotView>, ev: Seq<u64>, k: int) -> Seq<Seq<u8>>
    decreases k,
{
    if k <= 0 {
        Seq::empty()
    } else {
        let prev = dropped(rs, ev, k - 1);
        if k - 1 == 0 || !is_gone(ev[k - 1]) {
            prev
        } else {
            prev.push(rs[k - 1].name)
        }
    }
}

/// The names of the readers among the first `k`, notifier excluded, whose
/// reported state says a card was just seated, in reader order.
pub open spec fn arrivals(rs: Seq<SlotView>, k: int) -> Seq<Seq<u8>>
    decreases k,
{
    if k <= 0 {
        Seq::empty()
    } else {
        let prev = arrivals(rs, k - 1);
        if k - 1 != 0 && is_arrival(rs[k - 1].event) {
            prev.push(rs[k - 1].name)
        } else {
            prev
        }
    }
}

/// The outcome of one card read, as the contracts see it.
pub open spec fn read_view(r: Option<Vec<u8>>) -> Option<Seq<u8>> {
    match r {
        Some(v) => Some(v@),
        None => None,
    }
}

/// The responses of the reads that succeeded, in order.
pub open spec fn successes(results: Seq<Option<Seq<u8>>>) -> Seq<Seq<u8>>
    decreases results.len(),
{
    if results.len() == 0 {
        Seq::empty()
    } else {
        let prev = successes(results.drop_last());
        match results.last() {
            Some(v) => prev.push(v),
            None => prev,
        }
    }
}

fn copy_bytes(b: &Vec<u8>) -> (r: Vec<u8>)
    ensures
        r@ == b@,
{
    let mut r: Vec<u8> = Vec::new();
    let mut i: usize = 0;
    while i < b.len()
        invariant
            i <= b@.len(),
            r@ == b@.subrange(0, i as int),
        decreases b@.len() - i,
    {
        r.push(b[i]);
        i += 1;
        assert(r@ =~= b@.subrange(0, i as int));
    }
    assert(r@ =~= b@);
    r
}

fn same_bytes(a: &Vec<u8>, b: &Vec<u8>) -> (r: bool)
    ensures
        r == (a@ == b@),
{
    if a.len() != b.len() {
        return false;
    }
    let mut i: usize = 0;
    while i < a.len()
        invariant
            a@.len() == b@.len(),
            i <= a@.len(),
            a@.subrange(0, i as int) == b@.subrange(0, i as int),
        decreases a@.len() - i,
    {
        if a[i] != b[i] {
            return false;
        }
        i += 1;
        assert(a@.subrange(0, i as int) =~= a@.subrange(0, i - 1).push(a@[i - 1]));
        assert(b@.subrange(0, i as int) =~= b@.subrange(0, i - 1).push(b@[i - 1]));
    }
    assert(a@ =~= a@.subrange(0, a@.len() as int));
    assert(b@ =~= b@.subrange(0, b@.len() as int));
    true
}

/// Appending a slot of another name leaves a name untracked.
proof fn lemma_push_untracked(prev: Seq<SlotView>, x: SlotView, n: Seq<u8>)
    requires
        !tracks(prev, n),
        x.name != n,
    ensures
        !tracks(prev.push(x), n),
{
    if tracks(prev.push(x), n) {
        let w = choose|w: int| 0 <= w < prev.push(x).len() && #[trigger] prev.push(x)[w].name == n;
        assert(prev[w].name == n);
    }
}

/// Appending a slot keeps every name tracked.
proof fn lemma_push_tracked(prev: Seq<SlotView>, x: SlotView, n: Seq<u8>)
    requires
        tracks(prev, n),
    ensures
        tracks(prev.push(x), n),
{
    let w = choose|w: int| 0 <= w < prev.len() && #[trigger] prev[w].name == n;
    assert(prev.push(x)[w] == prev[w]);
}

/// What pruning keeps: the notifier first, no name twice, no name from a later
/// slot, only names that were tracked, and no slot but the notifier reported gone.
proof fn lemma_kept(rs: Seq<SlotView>, ev: Seq<u64>, k: int)
    requires
        tracker_wf(rs),
        ev.len() == rs.len(),
        0 <= k <= rs.len(),
    ensures
        names_unique(kept(rs, ev, k)),
        k >= 1 ==> kept(rs, ev, k).len() >= 1 && kept(rs, ev, k)[0] == synced(rs[0], ev[0]),
        forall|j: int| k <= j < rs.len() ==> !tracks(kept(rs, ev, k), #[trigger] rs[j].name),
        forall|i: int|
            0 <= i < kept(rs, ev, k).len() ==> tracks(rs, #[trigger] kept(rs, ev, k)[i].name),
        forall|i: int| 1 <= i < kept(rs, ev, k).len() ==> !is_gone(#[trigger] kept(rs, ev, k)[i].event),
        forall|j: int|
            1 <= j < k && is_gone(ev[j]) ==> !tracks(kept(rs, ev, k), #[trigger] rs[j].name),
        forall|j: int|
            0 <= j < k && (j == 0 || !is_gone(ev[j])) ==> tracks(kept(rs, ev, k), #[trigger] rs[j].name),
    decreases k,
{
    if k > 0 {
        lemma_kept(rs, ev, k - 1);
        let prev = kept(rs, ev, k - 1);
        let cur = kept(rs, ev, k);
        if k - 1 == 0 || !is_gone(ev[k - 1]) {
            assert(cur == prev.push(synced(rs[k - 1], ev[k - 1])));
            assert(!tracks(prev, rs[k - 1].name));
            assert forall|a: int, b: int|
                0 <= a < cur.len() && 0 <= b < cur.len() && a != b
                    implies #[trigger] cur[a].name != #[trigger] cur[b].name by {
                if a < prev.len() && b < prev.len() {
                    assert(cur[a] == prev[a] && cur[b] == prev[b]);
                } else if a < prev.len() {
                    assert(cur[a] == prev[a]);
                } else {
                    assert(cur[b] == prev[b]);
                }
            }
            assert forall|j: int| k <= j < rs.len() implies !tracks(cur, #[trigger] rs[j].name) by {
                assert(!tracks(prev, rs[j].name));
                lemma_push_untracked(prev, synced(rs[k - 1], ev[k - 1]), rs[j].name);
            }
            assert forall|i: int| 0 <= i < cur.len() implies tracks(rs, #[trigger] cur[i].name) by {
                if i < prev.len() {
                    assert(cur[i] == prev[i]);
                    assert(tracks(rs, prev[i].name));
                } else {
                    assert(rs[k - 1].name == cur[i].name);
                }
            }
            assert forall|i: int| 1 <= i < cur.len() implies !is_gone(#[trigger] cur[i].event) by {
                if i < prev.len() {
                    assert(cur[i] == prev[i]);
                }
            }
            if k - 1 == 0 {
                assert(prev.len() == 0);
            }
            assert forall|j: int| 1 <= j < k && is_gone(ev[j]) implies !tracks(cur, #[trigger] rs[j].name) by {
                assert(!tracks(prev, rs[j].name));
                lemma_push_untracked(prev, synced(rs[k - 1], ev[k - 1]), rs[j].name);
            }
            assert forall|j: int| 0 <= j < k && (j == 0 || !is_gone(ev[j])) implies tracks(
                cur,
                #[trigger] rs[j].name,
            ) by {
                if j < k - 1 {
                    lemma_push_tracked(prev, synced(rs[k - 1], ev[k - 1]), rs[j].name);
                } else {
                    assert(cur[prev.len() as int].name == rs[j].name);
                }
            }
        } else {
            assert forall|j: int| 1 <= j < k && is_gone(ev[j]) implies !tracks(cur, #[trigger] rs[j].name) by {
                assert(!tracks(prev, rs[j].name));
            }
            assert forall|j: int| k <= j < rs.len() implies !tracks(cur, #[trigger] rs[j].name) by {
                assert(!tracks(prev, rs[j].name));
            }
        }
    }
}

/// What pruning drops: readers other than the notifier reported gone.
proof fn lemma_dropped_not_notifier(rs: Seq<SlotView>, ev: Seq<u64>, k: int)
    requires
        tracker_wf(rs),
        ev.len() == rs.len(),
        0 <= k <= rs.len(),
    ensures
        forall|i: int|
            0 <= i < dropped(rs, ev, k).len() ==> #[trigger] dropped(rs, ev, k)[i] != notifier_name(),
    decreases k,
{
    if k > 0 {
        lemma_dropped_not_notifier(rs, ev, k - 1);
        let prev = dropped(rs, ev, k - 1);
        if k - 1 != 0 && is_gone(ev[k - 1]) {
            assert(rs[k - 1].name != rs[0].name);
            let cur = dropped(rs, ev, k);
            assert(cur == prev.push(rs[k - 1].name));
            assert forall|i: int| 0 <= i < cur.len() implies #[trigger] cur[i] != notifier_name() by {
                if i < prev.len() {
                    assert(cur[i] == prev[i]);
                }
            }
        }
    }
}

/// No arrival is the notifier's.
proof fn lemma_arrivals_not_notifier(rs: Seq<SlotView>, k: int)
    requires
        tracker_wf(rs),
        0 <= k <= rs.len(),
    ensures
        forall|i: int| 0 <= i < arrivals(rs, k).len() ==> #[trigger] arrivals(rs, k)[i] != notifier_name(),
    decreases k,
{
    if k > 0 {
        lemma_arrivals_not_notifier(rs, k - 1);
        let prev = arrivals(rs, k - 1);
        if k - 1 != 0 && is_arrival(rs[k - 1].event) {
            assert(rs[k - 1].name != rs[0].name);
            let cur = arrivals(rs, k);
            assert(cur == prev.push(rs[k - 1].name));
            assert forall|i: int| 0 <= i < cur.len() implies #[trigger] cur[i] != notifier_name() by {
                if i < prev.len() {
                    assert(cur[i] == prev[i]);
                }
            }
        }
    }
}

impl CardReader {
    /// The notifier comes first and no reader name is tracked twice.
    pub open spec fn wf(&self) -> bool {
        tracker_wf(self@.readers)
    }

    /// A tracker that watches only the notifier, with nothing queued.
    pub fn new() -> (r: CardReader)
        ensures
            r.wf(),
            r@.readers == seq![fresh_slot(notifier_name())],
            r@.queue == Seq::<Seq<u8>>::empty(),
    {
        let mut readers: Vec<ReaderSlot> = Vec::new();
        readers.push(ReaderSlot { name: notifier(), current_state: UNAWARE, event_state: UNAWARE });
        let r = CardReader { readers, responses: VecDeque::new() };
        assert(r@.readers =~= seq![fresh_slot(notifier_name())]);
        assert(r@.queue =~= Seq::<Seq<u8>>::empty());
        r
    }

    fn is_tracked(&self, name: &Vec<u8>) -> (r: bool)
        ensures
            r == tracks(self@.readers, name@),
    {
        let ghost rs = self@.readers;
        let mut i: usize = 0;
        while i < self.readers.len()
            invariant
                rs == self@.readers,
                rs.len() == self.readers@.len(),
                i <= rs.len(),
                forall|j: int| 0 <= j < i ==> #[trigger] rs[j].name != name@,
            decreases rs.len() - i,
        {
            if same_bytes(&self.readers[i].name, name) {
                assert(rs[i as int].name == name@);
                return true;
            }
            i += 1;
        }
        false
    }

    /// Enumerates `names`: each one not yet tracked is appended, in order,
    /// as a reader that has seen nothing yet. No reader is removed. Returns
    /// the names that were added.
    pub fn refresh(&mut self, names: &Vec<Vec<u8>>) -> (added: Vec<Vec<u8>>)
        requires
            old(self).wf(),
        ensures
            final(self).wf(),
            final(self)@.readers == refreshed(old(self)@.readers, bytes_view(names@)),
            final(self)@.readers == old(self)@.readers + bytes_view(added@).map_values(
                |n: Seq<u8>| fresh_slot(n),
            ),
            final(self)@.queue == old(self)@.queue,
    {
        let ghost rs0 = self@.readers;
        let ghost nv = bytes_view(names@);
        let mut added: Vec<Vec<u8>> = Vec::new();
        let mut i: usize = 0;
        assert(nv.take(0) =~= Seq::<Seq<u8>>::empty());
        assert(rs0 =~= rs0 + bytes_view(added@).map_values(|n: Seq<u8>| fresh_slot(n)));
        while i < names.len()
            invariant
                self.wf(),
                nv == bytes_view(names@),
                i <= names@.len(),
                self@.readers == refreshed(rs0, nv.take(i as int)),
                self@.readers == rs0 + bytes_view(added@).map_values(|n: Seq<u8>| fresh_slot(n)),
                self@.queue == old(self)@.queue,
            decreases names@.len() - i,
        {
            let ghost before = self@.readers;
            assert(nv.take(i + 1).drop_last() =~= nv.take(i as int));
            assert(nv.take(i + 1).last() == names@[i as int]@);
            if !self.is_tracked(&names[i]) {
                let name = copy_bytes(&names[i]);
                let name2 = copy_bytes(&names[i]);
                self.readers.push(ReaderSlot { name, current_state: UNAWARE, event_state: UNAWARE });
                added.push(name2);
                assert(self@.readers =~= before.push(fresh_slot(names@[i as int]@)));
                assert(bytes_view(added@).map_values(|n: Seq<u8>| fresh_slot(n)) =~= bytes_view(
                    added@.drop_last(),
                ).map_values(|n: Seq<u8>| fresh_slot(n)).push(fresh_slot(names@[i as int]@)));
                assert forall|a: int, b: int|
                    0 <= a < self@.readers.len() && 0 <= b < self@.readers.len() && a != b
                        implies #[trigger] self@.readers[a].name != #[trigger] self@.readers[b].name by {
                    if a < before.len() && b < before.len() {
                    } else if a < before.len() {
                        assert(before[a].name != names@[i as int]@);
                    } else {
                        assert(before[b].name != names@[i as int]@);
                    }
                }
            }
            i += 1;
        }
        assert(nv.take(names@.len() as int) =~= nv);
        added
    }

    /// Takes the states that the card service reported, one per tracked
    /// reader in order: each reader's current state becomes its reported
    /// one, and each reader but the notifier whose report says it is unknown
    /// or ignored is dropped. Returns the names dropped, in order.
    pub fn observe(&mut self, events: &Vec<u64>) -> (removed: Vec<Vec<u8>>)
        requires
            old(self).wf(),
            events@.len() == old(self)@.readers.len(),
        ensures
            final(self).wf(),
            final(self)@.readers == kept(old(self)@.readers, events@, old(self)@.readers.len() as int),
            bytes_view(removed@) == dropped(old(self)@.readers, events@, old(self)@.readers.len() as int),
            forall|i: int| 0 <= i < removed@.len() ==> #[trigger] removed@[i]@ != notifier_name(),
            final(self)@.queue == old(self)@.queue,
    {
        let ghost rs = self@.readers;
        let n = self.readers.len();
        let mut next: Vec<ReaderSlot> = Vec::new();
        let mut removed: Vec<Vec<u8>> = Vec::new();
        let mut i: usize = 0;
        assert(next@.map_values(|s: ReaderSlot| s@) =~= kept(rs, events@, 0));
        assert(bytes_view(removed@) =~= dropped(rs, events@, 0));
        while i < n
            invariant
                n == self.readers@.len(),
                rs == self@.readers,
                self.wf(),
                events@.len() == n,
                i <= n,
                next@.map_values(|s: ReaderSlot| s@) == kept(rs, events@, i as int),
                bytes_view(removed@) == dropped(rs, events@, i as int),
            decreases n - i,
        {
            let e = events[i];
            let name = copy_bytes(&self.readers[i].name);
            let ghost nx = next@;
            let ghost rm = removed@;
            if i == 0 || !reader_gone(e) {
                next.push(ReaderSlot { name, current_state: e, event_state: e });
                assert(next@.map_values(|s: ReaderSlot| s@) =~= nx.map_values(|s: ReaderSlot| s@).push(
                    synced(rs[i as int], e),
                ));
            } else {
                removed.push(name);
                assert(bytes_view(removed@) =~= bytes_view(rm).push(rs[i as int].name));
            }
            i += 1;
        }
        self.readers = next;
        proof {
            lemma_kept(rs, events@, n as int);
            lemma_dropped_not_notifier(rs, events@, n as int);
            assert forall|i: int| 0 <= i < removed@.len() implies #[trigger] removed@[i]@ != notifier_name() by {
                assert(bytes_view(removed@)[i] == removed@[i]@);
            }
        }
        removed
    }

    /// The readers, notifier excluded, whose reported state says a card was
    /// just seated, in reader order: those to read this cycle.
    pub fn arrivals(&self) -> (r: Vec<Vec<u8>>)
        requires
            self.wf(),
        ensures
            bytes_view(r@) == arrivals(self@.readers, self@.readers.len() as int),
            forall|i: int| 0 <= i < r@.len() ==> #[trigger] r@[i]@ != notifier_name(),
            bytes_view(r@).no_duplicates(),
    {
        let ghost rs = self@.readers;
        let n = self.readers.len();
        let mut r: Vec<Vec<u8>> = Vec::new();
        let mut i: usize = 0;
        assert(bytes_view(r@) =~= arrivals(rs, 0));
        while i < n
            invariant
                n == rs.len(),
                rs == self@.readers,
                i <= n,
                bytes_view(r@) == arrivals(rs, i as int),
            decreases n - i,
        {
            let ghost before = r@;
            assert(rs[i as int] == self.readers@[i as int]@);
            if i != 0 && card_arrived(self.readers[i].event_state) {
                r.push(copy_bytes(&self.readers[i].name));
                assert(bytes_view(r@) =~= bytes_view(before).push(rs[i as int].name));
            }
            i += 1;
        }
        proof {
            lemma_arrivals_not_notifier(rs, n as int);
            lemma_arrivals_unique(rs, n as int);
            assert forall|i: int| 0 <= i < r@.len() implies #[trigger] r@[i]@ != notifier_name() by {
                assert(bytes_view(r@)[i] == r@[i]@);
            }
        }
        r
    }

    /// Appends the responses of the reads that succeeded to the queue, in
    /// the order given; a failed read adds nothing.
    pub fn record_reads(&mut self, results: &Vec<Option<Vec<u8>>>)
        ensures
            final(self)@.readers == old(self)@.readers,
            final(self)@.queue == old(self)@.queue + successes(
                results@.map_values(|r: Option<Vec<u8>>| read_view(r)),
            ),
    {
        let ghost rv = results@.map_values(|r: Option<Vec<u8>>| read_view(r));
        let mut i: usize = 0;
        assert(rv.take(0) =~= Seq::<Option<Seq<u8>>>::empty());
        assert(self@.queue =~= old(self)@.queue + successes(rv.take(0)));
        while i < results.len()
            invariant
                rv == results@.map_values(|r: Option<Vec<u8>>| read_view(r)),
                i <= results@.len(),
                self@.readers == old(self)@.readers,
                self@.queue == old(self)@.queue + successes(rv.take(i as int)),
            decreases results@.len() - i,
        {
            let ghost q = self@.queue;
            assert(rv.take(i + 1).drop_last() =~= rv.take(i as int));
            assert(rv.take(i + 1).last() == read_view(results@[i as int]));
            match &results[i] {
                Some(resp) => {
                    self.responses.push_back(copy_bytes(resp));
                    assert(self@.queue =~= q.push(resp@));
                },
                None => {},
            }
            i += 1;
        }
        assert(rv.take(results@.len() as int) =~= rv);
    }

    /// One step of the consumer's loop: hands out the oldest queued
    /// response, or, when nothing is queued, says that the readers must be
    /// polled (and this asked again) before an identifier can be delivered.
    pub fn next_step(&mut self) -> (r: Step)
        ensures
            final(self)@.readers == old(self)@.readers,
            match r {
                Step::Deliver(v) => {
                    &&& old(self)@.queue.len() > 0
                    &&& v@ == old(self)@.queue[0]
                    &&& final(self)@.queue == old(self)@.queue.skip(1)
                },
                Step::Poll => {
                    &&& old(self)@.queue.len() == 0
                    &&& final(self)@.queue == old(self)@.queue
                },
            },
    {
        match self.responses.pop_front() {
            Some(v) => {
                assert(self@.queue =~= old(self)@.queue.skip(1));
                Step::Deliver(v)
            },
            None => Step::Poll,
        }
    }

    /// The number of tracked readers, the notifier included.
    pub fn reader_count(&self) -> (r: usize)
        ensures
            r == self@.readers.len(),
    {
        self.readers.len()
    }

    /// The name of the `i`-th tracked reader.
    pub fn reader_name(&self, i: usize) -> (r: &Vec<u8>)
        requires
            i < self@.readers.len(),
        ensures
            r@ == self@.readers[i as int].name,
    {
        &self.readers[i].name
    }

    /// The state last synchronized for the `i`-th tracked reader: what the
    /// next wait watches for a change from.
    pub fn current_state(&self, i: usize) -> (r: u64)
        requires
            i < self@.readers.len(),
        ensures
            r == self@.readers[i as int].current,
    {
        self.readers[i].current_state
    }

    /// The number of responses awaiting delivery.
    pub fn queued(&self) -> (r: usize)
        ensures
            r == self@.queue.len(),
    {
        self.responses.len()
    }
}

proof fn lemma_refreshed_grows(rs: Seq<SlotView>, names: Seq<Seq<u8>>)
    ensures
        rs.is_prefix_of(refreshed(rs, names)),
    decreases names.len(),
{
    if names.len() > 0 {
        lemma_refreshed_grows(rs, names.drop_last());
    }
}

proof fn lemma_refreshed_tracks_all(rs: Seq<SlotView>, names: Seq<Seq<u8>>)
    ensures
        forall|i: int| 0 <= i < names.len() ==> tracks(refreshed(rs, names), #[trigger] names[i]),
    decreases names.len(),
{
    if names.len() > 0 {
        let prev = refreshed(rs, names.drop_last());
        let cur = refreshed(rs, names);
        lemma_refreshed_tracks_all(rs, names.drop_last());
        assert forall|i: int| 0 <= i < names.len() implies tracks(cur, #[trigger] names[i]) by {
            if i < names.len() - 1 {
                assert(names.drop_last()[i] == names[i]);
                assert(tracks(prev, names[i]));
                let w = choose|w: int| 0 <= w < prev.len() && #[trigger] prev[w].name == names[i];
                if !tracks(prev, names.last()) {
                    assert(cur[w] == prev[w]);
                }
            } else if !tracks(prev, names.last()) {
                assert(cur[prev.len() as int].name == names[i]);
            }
        }
    }
}

proof fn lemma_refreshed_fixed(rs: Seq<SlotView>, names: Seq<Seq<u8>>)
    requires
        forall|i: int| 0 <= i < names.len() ==> tracks(rs, #[trigger] names[i]),
    ensures
        refreshed(rs, names) == rs,
    decreases names.len(),
{
    if names.len() > 0 {
        assert forall|i: int| 0 <= i < names.drop_last().len() implies tracks(
            rs,
            #[trigger] names.drop_last()[i],
        ) by {
            assert(names.drop_last()[i] == names[i]);
        }
        lemma_refreshed_fixed(rs, names.drop_last());
        assert(tracks(rs, names[names.len() - 1]));
    }
}

proof fn lemma_refreshed_stranger(rs: Seq<SlotView>, names: Seq<Seq<u8>>, n: Seq<u8>)
    requires
        !tracks(rs, n),
        !names.contains(n),
    ensures
        !tracks(refreshed(rs, names), n),
    decreases names.len(),
{
    if names.len() > 0 {
        assert(!names.drop_last().contains(n)) by {
            if names.drop_last().contains(n) {
                let w = choose|w: int| 0 <= w < names.drop_last().len() && names.drop_last()[w] == n;
                assert(names[w] == n);
            }
        }
        lemma_refreshed_stranger(rs, names.drop_last(), n);
        let prev = refreshed(rs, names.drop_last());
        let cur = refreshed(rs, names);
        if !tracks(prev, names.last()) {
            assert(names[names.len() - 1] != n);
            lemma_push_untracked(prev, fresh_slot(names.last()), n);
        }
    }
}

/// Enumerating the same reader names a second time changes nothing: the
/// first pass removes no reader, tracks every name once, and the second pass
/// adds none.
pub proof fn refresh_is_idempotent(rs: Seq<SlotView>, names: Seq<Seq<u8>>)
    ensures
        rs.is_prefix_of(refreshed(rs, names)),
        refreshed(refreshed(rs, names), names) == refreshed(rs, names),
{
    lemma_refreshed_grows(rs, names);
    lemma_refreshed_tracks_all(rs, names);
    lemma_refreshed_fixed(refreshed(rs, names), names);
}

/// A reader reported unknown or ignored is no longer tracked after the
/// events are applied, and an enumeration that does not list its name again
/// does not bring it back.
pub proof fn gone_reader_stays_gone(rs: Seq<SlotView>, ev: Seq<u64>, j: int, names: Seq<Seq<u8>>)
    requires
        tracker_wf(rs),
        ev.len() == rs.len(),
        1 <= j < rs.len(),
        is_gone(ev[j]),
        !names.contains(rs[j].name),
    ensures
        !tracks(kept(rs, ev, rs.len() as int), rs[j].name),
        !tracks(refreshed(kept(rs, ev, rs.len() as int), names), rs[j].name),
{
    lemma_kept(rs, ev, rs.len() as int);
    lemma_refreshed_stranger(kept(rs, ev, rs.len() as int), names, rs[j].name);
}

/// The notifier is never pruned and never read: it stays first whatever the
/// events, and no arrival bears its name.
pub proof fn notifier_is_kept_and_never_read(rs: Seq<SlotView>, ev: Seq<u64>)
    requires
        tracker_wf(rs),
        ev.len() == rs.len(),
    ensures
        tracker_wf(kept(rs, ev, rs.len() as int)),
        kept(rs, ev, rs.len() as int)[0].name == notifier_name(),
        !dropped(rs, ev, rs.len() as int).contains(notifier_name()),
        !arrivals(rs, rs.len() as int).contains(notifier_name()),
{
    lemma_kept(rs, ev, rs.len() as int);
    lemma_dropped_not_notifier(rs, ev, rs.len() as int);
    lemma_arrivals_not_notifier(rs, rs.len() as int);
}

proof fn lemma_arrival_listed(rs: Seq<SlotView>, k: int, p: int)
    requires
        1 <= p < k <= rs.len(),
        is_arrival(rs[p].event),
    ensures
        exists|a: int| 0 <= a < arrivals(rs, k).len() && arrivals(rs, k)[a] == rs[p].name,
    decreases k,
{
    let prev = arrivals(rs, k - 1);
    if p == k - 1 {
        assert(arrivals(rs, k)[prev.len() as int] == rs[p].name);
    } else {
        lemma_arrival_listed(rs, k - 1, p);
        let a = choose|a: int| 0 <= a < prev.len() && prev[a] == rs[p].name;
        assert(arrivals(rs, k)[a] == prev[a]);
    }
}

/// Readers that see a card arrive in the same cycle are read in reader
/// order: of two such readers, the earlier one's name comes first.
pub proof fn arrivals_follow_reader_order(rs: Seq<SlotView>, p: int, q: int)
    requires
        1 <= p < q < rs.len(),
        is_arrival(rs[p].event),
        is_arrival(rs[q].event),
    ensures
        exists|a: int, b: int|
            0 <= a < b < arrivals(rs, rs.len() as int).len() && arrivals(rs, rs.len() as int)[a]
                == rs[p].name && arrivals(rs, rs.len() as int)[b] == rs[q].name,
    decreases rs.len(),
{
    let n = rs.len() as int;
    if q == n - 1 {
        lemma_arrival_listed(rs, n - 1, p);
        let prev = arrivals(rs, n - 1);
        let a = choose|a: int| 0 <= a < prev.len() && prev[a] == rs[p].name;
        let cur = arrivals(rs, n);
        assert(cur[a] == prev[a]);
        assert(cur[prev.len() as int] == rs[q].name);
    } else {
        let sub = rs.drop_last();
        assert forall|k: int| 0 <= k <= sub.len() implies arrivals(sub, k) == arrivals(rs, k) by {
            lemma_arrivals_prefix(rs, sub, k);
        }
        arrivals_follow_reader_order(sub, p, q);
        let prev = arrivals(rs, n - 1);
        let (a, b) = choose|a: int, b: int|
            0 <= a < b < prev.len() && prev[a] == rs[p].name && prev[b] == rs[q].name;
        let cur = arrivals(rs, n);
        assert(cur[a] == prev[a] && cur[b] == prev[b]);
    }
}

proof fn lemma_arrivals_prefix(rs: Seq<SlotView>, sub: Seq<SlotView>, k: int)
    requires
        sub.is_prefix_of(rs),
        0 <= k <= sub.len(),
    ensures
        arrivals(sub, k) == arrivals(rs, k),
    decreases k,
{
    if k > 0 {
        lemma_arrivals_prefix(rs, sub, k - 1);
        assert(sub[k - 1] == rs[k - 1]);
    }
}

proof fn lemma_success_listed(results: Seq<Option<Seq<u8>>>, p: int)
    requires
        0 <= p < results.len(),
        results[p] is Some,
    ensures
        exists|a: int|
            0 <= a < successes(results).len() && successes(results)[a] == results[p]->Some_0,
    decreases results.len(),
{
    let prev = successes(results.drop_last());
    if p == results.len() - 1 {
        assert(successes(results)[prev.len() as int] == results[p]->Some_0);
    } else {
        assert(results.drop_last()[p] == results[p]);
        lemma_success_listed(results.drop_last(), p);
        let a = choose|a: int| 0 <= a < prev.len() && prev[a] == results[p]->Some_0;
        assert(successes(results)[a] == prev[a]);
    }
}

/// A failed read keeps no other read from being queued: each successful
/// response is queued whatever became of the others.
pub proof fn each_success_is_queued(results: Seq<Option<Seq<u8>>>, p: int)
    requires
        0 <= p < results.len(),
        results[p] is Some,
    ensures
        successes(results).contains(results[p]->Some_0),
{
    lemma_success_listed(results, p);
    let a = choose|a: int|
        0 <= a < successes(results).len() && successes(results)[a] == results[p]->Some_0;
    assert(successes(results)[a] == results[p]->Some_0);
}

/// Successful responses are queued in the order the reads were made.
pub proof fn successes_keep_read_order(results: Seq<Option<Seq<u8>>>, p: int, q: int)
    requires
        0 <= p < q < results.len(),
        results[p] is Some,
        results[q] is Some,
    ensures
        exists|a: int, b: int|
            0 <= a < b < successes(results).len() && successes(results)[a] == results[p]->Some_0
                && successes(results)[b] == results[q]->Some_0,
    decreases results.len(),
{
    let prev = successes(results.drop_last());
    let cur = successes(results);
    assert(results.drop_last()[p] == results[p]);
    if q == results.len() - 1 {
        lemma_success_listed(results.drop_last(), p);
        let a = choose|a: int| 0 <= a < prev.len() && prev[a] == results[p]->Some_0;
        assert(cur[a] == prev[a]);
        assert(cur[prev.len() as int] == results[q]->Some_0);
    } else {
        assert(results.drop_last()[q] == results[q]);
        successes_keep_read_order(results.drop_last(), p, q);
        let (a, b) = choose|a: int, b: int|
            0 <= a < b < prev.len() && prev[a] == results[p]->Some_0 && prev[b] == results[q]->Some_0;
        assert(cur[a] == prev[a] && cur[b] == prev[b]);
    }
}

/// No reader is listed twice among the arrivals, nor a later reader's name.
proof fn lemma_arrivals_unique(rs: Seq<SlotView>, k: int)
    requires
        names_unique(rs),
        0 <= k <= rs.len(),
    ensures
        arrivals(rs, k).no_duplicates(),
        forall|j: int| k <= j < rs.len() ==> !arrivals(rs, k).contains(#[trigger] rs[j].name),
    decreases k,
{
    if k > 0 {
        lemma_arrivals_unique(rs, k - 1);
        let prev = arrivals(rs, k - 1);
        let cur = arrivals(rs, k);
        if k - 1 != 0 && is_arrival(rs[k - 1].event) {
            assert(!prev.contains(rs[k - 1].name));
            assert forall|a: int, b: int| 0 <= a < b < cur.len() implies cur[a] != cur[b] by {
                if b < prev.len() {
                    assert(cur[a] == prev[a] && cur[b] == prev[b]);
                } else {
                    assert(cur[a] == prev[a]);
                }
            }
            assert forall|j: int| k <= j < rs.len() implies !cur.contains(#[trigger] rs[j].name) by {
                assert(!prev.contains(rs[j].name));
                assert(rs[j].name != rs[k - 1].name);
                if cur.contains(rs[j].name) {
                    let w = choose|w: int| 0 <= w < cur.len() && cur[w] == rs[j].name;
                    assert(cur[w] == prev[w]);
                }
            }
        } else {
            assert forall|j: int| k <= j < rs.len() implies !cur.contains(#[trigger] rs[j].name) by {
                assert(!prev.contains(rs[j].name));
            }
        }
    }
}

proof fn lemma_refreshed_wf(rs: Seq<SlotView>, names: Seq<Seq<u8>>)
    requires
        tracker_wf(rs),
    ensures
        tracker_wf(refreshed(rs, names)),
    decreases names.len(),
{
    if names.len() > 0 {
        lemma_refreshed_wf(rs, names.drop_last());
        let prev = refreshed(rs, names.drop_last());
        let cur = refreshed(rs, names);
        if !tracks(prev, names.last()) {
            assert(cur[0] == prev[0]);
            assert forall|a: int, b: int|
                0 <= a < cur.len() && 0 <= b < cur.len() && a != b
                    implies #[trigger] cur[a].name != #[trigger] cur[b].name by {
                if a < prev.len() && b < prev.len() {
                    assert(cur[a] == prev[a] && cur[b] == prev[b]);
                } else if a < prev.len() {
                    assert(cur[a] == prev[a]);
                } else {
                    assert(cur[b] == prev[b]);
                }
            }
        }
    }
}

/// The reader set after one poll cycle: the enumeration `names` is applied,
/// then the reported states `ev`, one per reader of the refreshed set.
pub open spec fn after_cycle(rs: Seq<SlotView>, names: Seq<Seq<u8>>, ev: Seq<u64>) -> Seq<SlotView> {
    kept(refreshed(rs, names), ev, refreshed(rs, names).len() as int)
}

/// Over one cycle, a tracked reader missing from the enumeration is still
/// tracked afterwards, and leaves exactly when its reported state says it is
/// unknown or ignored; the notifier never leaves.
pub proof fn cycle_drops_only_gone_readers(
    rs: Seq<SlotView>,
    names: Seq<Seq<u8>>,
    ev: Seq<u64>,
    j: int,
)
    requires
        tracker_wf(rs),
        ev.len() == refreshed(rs, names).len(),
        0 <= j < rs.len(),
    ensures
        tracks(after_cycle(rs, names, ev), rs[j].name) <==> (j == 0 || !is_gone(ev[j])),
{
    let r1 = refreshed(rs, names);
    lemma_refreshed_grows(rs, names);
    lemma_refreshed_wf(rs, names);
    assert(r1[j] == rs[j]);
    lemma_kept(r1, ev, r1.len() as int);
}

/// Over one cycle, a name that was not tracked and is not enumerated does
/// not become tracked: a removed reader comes back only through enumeration.
pub proof fn cycle_adds_only_enumerated(
    rs: Seq<SlotView>,
    names: Seq<Seq<u8>>,
    ev: Seq<u64>,
    n: Seq<u8>,
)
    requires
        tracker_wf(rs),
        ev.len() == refreshed(rs, names).len(),
        !tracks(rs, n),
        !names.contains(n),
    ensures
        !tracks(after_cycle(rs, names, ev), n),
{
    let r1 = refreshed(rs, names);
    lemma_refreshed_stranger(rs, names, n);
    lemma_refreshed_wf(rs, names);
    lemma_kept(r1, ev, r1.len() as int);
    let after = after_cycle(rs, names, ev);
    if tracks(after, n) {
        let w = choose|w: int| 0 <= w < after.len() && #[trigger] after[w].name == n;
        assert(tracks(r1, after[w].name));
    }
}

/// Over one cycle the notifier stays first and the set stays well formed,
/// whatever is enumerated and reported.
pub proof fn cycle_keeps_notifier(rs: Seq<SlotView>, names: Seq<Seq<u8>>, ev: Seq<u64>)
    requires
        tracker_wf(rs),
        ev.len() == refreshed(rs, names).len(),
    ensures
        tracker_wf(after_cycle(rs, names, ev)),
        after_cycle(rs, names, ev)[0].name == notifier_name(),
{
    let r1 = refreshed(rs, names);
    lemma_refreshed_wf(rs, names);
    lemma_kept(r1, ev, r1.len() as int);
}

/// What one cycle queues when reading the card in reader `n` gives `out(n)`:
/// for each reader among the first `k` but the notifier that saw a card
/// arrive, in reader order, its response if the read succeeded.
pub open spec fn queued_in_cycle(
    rs: Seq<SlotView>,
    k: int,
    out: spec_fn(Seq<u8>) -> Option<Seq<u8>>,
) -> Seq<Seq<u8>>
    decreases k,
{
    if k <= 0 {
        Seq::empty()
    } else {
        let prev = queued_in_cycle(rs, k - 1, out);
        if k - 1 != 0 && is_arrival(rs[k - 1].event) {
            match out(rs[k - 1].name) {
                Some(v) => prev.push(v),
                None => prev,
            }
        } else {
            prev
        }
    }
}

proof fn lemma_reads_of_arrivals(
    rs: Seq<SlotView>,
    k: int,
    results: Seq<Option<Seq<u8>>>,
    out: spec_fn(Seq<u8>) -> Option<Seq<u8>>,
)
    requires
        0 <= k <= rs.len(),
        results.len() == arrivals(rs, k).len(),
        forall|i: int| 0 <= i < results.len() ==> #[trigger] results[i] == out(arrivals(rs, k)[i]),
    ensures
        successes(results) == queued_in_cycle(rs, k, out),
    decreases k,
{
    if k > 0 {
        let prev = arrivals(rs, k - 1);
        if k - 1 != 0 && is_arrival(rs[k - 1].event) {
            let shorter = results.drop_last();
            assert forall|i: int| 0 <= i < shorter.len() implies #[trigger] shorter[i] == out(prev[i]) by {
                assert(arrivals(rs, k)[i] == prev[i]);
                assert(shorter[i] == results[i]);
            }
            lemma_reads_of_arrivals(rs, k - 1, shorter, out);
            assert(results.last() == out(arrivals(rs, k)[prev.len() as int]));
        } else {
            lemma_reads_of_arrivals(rs, k - 1, results, out);
        }
    }
}

/// A cycle that reads each arrival once, in the order `arrivals` lists them,
/// and hands the outcomes to `record_reads`, queues the successful responses
/// of the readers that saw a card arrive, in reader order, and nothing else.
pub proof fn cycle_queues_arrivals_in_reader_order(
    rs: Seq<SlotView>,
    results: Seq<Option<Seq<u8>>>,
    out: spec_fn(Seq<u8>) -> Option<Seq<u8>>,
)
    requires
        results.len() == arrivals(rs, rs.len() as int).len(),
        forall|i: int|
            0 <= i < results.len() ==> #[trigger] results[i] == out(arrivals(rs, rs.len() as int)[i]),
    ensures
        successes(results) == queued_in_cycle(rs, rs.len() as int, out),
{
    lemma_reads_of_arrivals(rs, rs.len() as int, results, out);
}

} // verus!

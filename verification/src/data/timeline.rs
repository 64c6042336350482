use vstd::prelude::*;
use std::collections::BTreeSet;
use crate::data::file_metadata::{filenamified, filenamify, lemma_marker_position, opt_text, spec_unsorted_file_name, spec_unsorted_stem};
use crate::state::SaveLocationOptions;
use crate::text::{all_digits, chars_of, decimal, decimal_chars, digits_value, lemma_decimal_digits, split_once, split_once_chars, string_from, string_views};
use crate::data::data_entry::{device_text, DataValue, DataValueView, DeviceId, DeviceIdView, DeviceTime, DeviceTimeView, TimelineEntry, TimelineEntryView};

verus! {

broadcast use vstd::laws_cmp::group_laws_cmp, vstd::std_specs::btree::group_btree_axioms;

/// The values of a list, as a set.
pub open spec fn view_set<T: View>(v: Seq<T>) -> Set<T::V> {
    Set::new(|x: T::V| exists|i: int| 0 <= i < v.len() && #[trigger] v[i]@ == x)
}

/// No two elements of the list have the same value.
pub open spec fn distinct_views<T: View>(v: Seq<T>) -> bool {
    forall|i: int, j: int| 0 <= i < v.len() && 0 <= j < v.len() && i != j ==> #[trigger] v[i]@ != #[trigger] v[j]@
}

/// No two chains belong to the same device.
pub open spec fn distinct_keys(v: Seq<(DeviceId, BTreeSet<u64>)>) -> bool {
    forall|i: int, j: int| 0 <= i < v.len() && 0 <= j < v.len() && i != j ==> #[trigger] v[i].0@ != #[trigger] v[j].0@
}

/// Whether no two entries of a list are equal.
fn entries_distinct(v: &Vec<TimelineEntry>) -> (r: bool)
    ensures
        r == distinct_views(v@),
{
    let mut i: usize = 0;
    while i < v.len()
        invariant
            i <= v@.len(),
            forall|a: int, b: int| 0 <= a < i && 0 <= b < i && a != b ==> #[trigger] v@[a]@ != #[trigger] v@[b]@,
        decreases v@.len() - i,
    {
        let mut j: usize = 0;
        while j < i
            invariant
                i < v@.len(),
                j <= i,
                forall|b: int| 0 <= b < j ==> v@[i as int]@ != #[trigger] v@[b]@,
            decreases i - j,
        {
            if v[i].eq(&v[j]) {
                assert(v@[i as int]@ == v@[j as int]@);
                return false;
            }
            j += 1;
        }
        i += 1;
    }
    true
}

/// Whether no two connections of a list are equal.
fn connections_distinct(v: &Vec<(DeviceTime, DeviceTime)>) -> (r: bool)
    ensures
        r == distinct_views(v@),
{
    let mut i: usize = 0;
    while i < v.len()
        invariant
            i <= v@.len(),
            forall|a: int, b: int| 0 <= a < i && 0 <= b < i && a != b ==> #[trigger] v@[a]@ != #[trigger] v@[b]@,
        decreases v@.len() - i,
    {
        let mut j: usize = 0;
        while j < i
            invariant
                i < v@.len(),
                j <= i,
                forall|b: int| 0 <= b < j ==> v@[i as int]@ != #[trigger] v@[b]@,
            decreases i - j,
        {
            if v[i].0.eq(&v[j].0) && v[i].1.eq(&v[j].1) {
                assert(v@[i as int]@ == v@[j as int]@);
                return false;
            }
            j += 1;
        }
        i += 1;
    }
    true
}

/// Whether no two chains of a list belong to the same device.
fn chain_keys_distinct(v: &Vec<(DeviceId, BTreeSet<u64>)>) -> (r: bool)
    ensures
        r == distinct_keys(v@),
{
    let mut i: usize = 0;
    while i < v.len()
        invariant
            i <= v@.len(),
            forall|a: int, b: int| 0 <= a < i && 0 <= b < i && a != b ==> #[trigger] v@[a].0@ != #[trigger] v@[b].0@,
        decreases v@.len() - i,
    {
        let mut j: usize = 0;
        while j < i
            invariant
                i < v@.len(),
                j <= i,
                forall|b: int| 0 <= b < j ==> v@[i as int].0@ != #[trigger] v@[b].0@,
            decreases i - j,
        {
            if v[i].0.eq(&v[j].0) {
                assert(v@[i as int].0@ == v@[j as int].0@);
                return false;
            }
            j += 1;
        }
        i += 1;
    }
    true
}

/// The clock readings of each device, as a map.
pub open spec fn chains_map(v: Seq<(DeviceId, BTreeSet<u64>)>) -> Map<DeviceIdView, Set<u64>> {
    Map::new(
        |d: DeviceIdView| exists|i: int| 0 <= i < v.len() && #[trigger] v[i].0@ == d,
        |d: DeviceIdView| v[choose|i: int| 0 <= i < v.len() && #[trigger] v[i].0@ == d].1@,
    )
}

/// Everything recorded for a project.
///
/// `entries` holds what has been read from files and not yet sorted; sorting moves clock
/// offsets into `time_chains` (the readings of each device's clock) and `chain_connections`
/// (pairs of simultaneous readings of two clocks), and everything else into `metadata`.
/// Each list behaves as a set: no value occurs twice.
#[derive(Clone)]
pub struct Timeline {
    pub entries: Vec<TimelineEntry>,
    pub time_chains: Vec<(DeviceId, BTreeSet<u64>)>,
    pub chain_connections: Vec<(DeviceTime, DeviceTime)>,
    pub metadata: Vec<TimelineEntry>,
}

/// The mathematical value of a [`Timeline`].
pub struct TimelineView {
    pub entries: Set<TimelineEntryView>,
    pub time_chains: Map<DeviceIdView, Set<u64>>,
    pub chain_connections: Set<(DeviceTimeView, DeviceTimeView)>,
    pub metadata: Set<TimelineEntryView>,
}

impl View for Timeline {
    type V = TimelineView;

    open spec fn view(&self) -> TimelineView {
        TimelineView {
            entries: view_set(self.entries@),
            time_chains: chains_map(self.time_chains@),
            chain_connections: view_set(self.chain_connections@),
            metadata: view_set(self.metadata@),
        }
    }
}

/// Whether an entry pairs two simultaneous clock readings.
pub open spec fn is_clock_offset(e: TimelineEntryView) -> bool {
    e.val is ClockOffset
}

/// The second reading of a clock-offset entry.
pub open spec fn offset_time(e: TimelineEntryView) -> DeviceTimeView {
    match e.val {
        DataValueView::ClockOffset(t) => t,
        _ => e.time,
    }
}

/// Every clock reading that occurs in a clock-offset entry of `es`.
pub open spec fn offset_readings(es: Set<TimelineEntryView>) -> Set<DeviceTimeView> {
    Set::new(|t: DeviceTimeView| exists|e: TimelineEntryView| #[trigger] es.contains(e) && is_clock_offset(e) && (t == e.time || t == offset_time(e)))
}

/// The pairs of simultaneous readings given by the clock-offset entries of `es`.
pub open spec fn offset_pairs(es: Set<TimelineEntryView>) -> Set<(DeviceTimeView, DeviceTimeView)> {
    Set::new(|p: (DeviceTimeView, DeviceTimeView)| exists|e: TimelineEntryView| #[trigger] es.contains(e) && is_clock_offset(e) && p == (e.time, offset_time(e)))
}

/// The entries of `es` that are not clock offsets.
pub open spec fn non_offsets(es: Set<TimelineEntryView>) -> Set<TimelineEntryView> {
    es.filter(|e: TimelineEntryView| !is_clock_offset(e))
}

/// The readings recorded for device `d` before, or the empty set.
pub open spec fn chain_of(m: Map<DeviceIdView, Set<u64>>, d: DeviceIdView) -> Set<u64> {
    if m.dom().contains(d) {
        m[d]
    } else {
        Set::empty()
    }
}

/// The chains `m` with the readings `rs` added to the chains of their devices (a device gets a
/// chain as soon as one of its readings is added).
pub open spec fn chains_with(m: Map<DeviceIdView, Set<u64>>, rs: Set<DeviceTimeView>) -> Map<DeviceIdView, Set<u64>> {
    Map::new(
        |d: DeviceIdView| m.dom().contains(d) || exists|t: DeviceTimeView| #[trigger] rs.contains(t) && t.device_id == d,
        |d: DeviceIdView| chain_of(m, d).union(Set::new(|c: u64| rs.contains(DeviceTimeView { internal_clock: c, device_id: d }))),
    )
}

/// A timeline after sorting: no entries left; the clock offsets among them added to the
/// chains (both readings) and to the connections (the pair), everything else to the metadata.
pub open spec fn sorted_view(t: TimelineView) -> TimelineView {
    TimelineView {
        entries: Set::empty(),
        time_chains: chains_with(t.time_chains, offset_readings(t.entries)),
        chain_connections: t.chain_connections.union(offset_pairs(t.entries)),
        metadata: t.metadata.union(non_offsets(t.entries)),
    }
}

/// A timeline with more entries read.
pub open spec fn with_entries(t: TimelineView, es: Set<TimelineEntryView>) -> TimelineView {
    TimelineView { entries: t.entries.union(es), ..t }
}

proof fn lemma_chains_choose(v: Seq<(DeviceId, BTreeSet<u64>)>, k: int)
    requires
        distinct_keys(v),
        0 <= k < v.len(),
    ensures
        chains_map(v).dom().contains(v[k].0@),
        chains_map(v)[v[k].0@] == v[k].1@,
{
    let d = v[k].0@;
    assert(v[k].0@ == d);
    let i = choose|i: int| 0 <= i < v.len() && #[trigger] v[i].0@ == d;
    assert(i == k);
}

impl Timeline {
    /// The lists behave as sets.
    pub open spec fn wf(&self) -> bool {
        &&& distinct_views(self.entries@)
        &&& distinct_views(self.metadata@)
        &&& distinct_views(self.chain_connections@)
        &&& distinct_keys(self.time_chains@)
    }

    /// Whether the timeline is well formed: no entry, metadata value, connection or device
    /// chain occurs twice.
    pub fn well_formed(&self) -> (r: bool)
        ensures
            r == self.wf(),
    {
        entries_distinct(&self.entries) && entries_distinct(&self.metadata) && connections_distinct(
            &self.chain_connections,
        ) && chain_keys_distinct(&self.time_chains)
    }

    /// An empty timeline.
    pub fn new() -> (t: Timeline)
        ensures
            t.wf(),
            t@.entries == Set::<TimelineEntryView>::empty(),
            t@.time_chains == Map::<DeviceIdView, Set<u64>>::empty(),
            t@.chain_connections == Set::<(DeviceTimeView, DeviceTimeView)>::empty(),
            t@.metadata == Set::<TimelineEntryView>::empty(),
    {
        let t = Timeline { entries: Vec::new(), time_chains: Vec::new(), chain_connections: Vec::new(), metadata: Vec::new() };
        assert(t@.entries =~= Set::<TimelineEntryView>::empty());
        assert(t@.time_chains =~= Map::<DeviceIdView, Set<u64>>::empty());
        assert(t@.chain_connections =~= Set::<(DeviceTimeView, DeviceTimeView)>::empty());
        assert(t@.metadata =~= Set::<TimelineEntryView>::empty());
        t
    }

    fn find_chain(&self, d: &DeviceId) -> (r: Option<usize>)
        ensures
            match r {
                Some(k) => k < self.time_chains@.len() && self.time_chains@[k as int].0@ == d@,
                None => forall|i: int| 0 <= i < self.time_chains@.len() ==> #[trigger] self.time_chains@[i].0@ != d@,
            },
    {
        let mut i: usize = 0;
        while i < self.time_chains.len()
            invariant
                i <= self.time_chains@.len(),
                forall|j: int| 0 <= j < i ==> #[trigger] self.time_chains@[j].0@ != d@,
            decreases self.time_chains@.len() - i,
        {
            if self.time_chains[i].0.eq(d) {
                return Some(i);
            }
            i += 1;
        }
        None
    }

    /// Adds one clock reading to the chain of its device.
    fn add_reading(&mut self, t: &DeviceTime)
        requires
            old(self).wf(),
        ensures
            final(self).wf(),
            final(self).entries == old(self).entries,
            final(self).metadata == old(self).metadata,
            final(self).chain_connections == old(self).chain_connections,
            final(self)@.time_chains == chains_with(old(self)@.time_chains, set![t@]),
    {
        let ghost old_map = chains_map(self.time_chains@);
        match self.find_chain(&t.device_id) {
            Some(k) => {
                let mut pair = self.time_chains.remove(k);
                pair.1.insert(t.internal_clock);
                self.time_chains.insert(k, pair);
                proof {
                    lemma_chains_choose(old(self).time_chains@, k as int);
                    assert forall|i: int, j: int|
                        0 <= i < self.time_chains@.len() && 0 <= j < self.time_chains@.len() && i != j implies #[trigger] self.time_chains@[i].0@ != #[trigger] self.time_chains@[j].0@ by {
                        assert(self.time_chains@[i].0@ == old(self).time_chains@[i].0@);
                        assert(self.time_chains@[j].0@ == old(self).time_chains@[j].0@);
                    }
                    lemma_chains_choose(self.time_chains@, k as int);
                    let m2 = chains_map(self.time_chains@);
                    let want = chains_with(old_map, set![t@]);
                    assert forall|d: DeviceIdView| #[trigger] m2.dom().contains(d) <==> want.dom().contains(d) by {
                        if m2.dom().contains(d) {
                            let i = choose|i: int| 0 <= i < self.time_chains@.len() && #[trigger] self.time_chains@[i].0@ == d;
                            assert(old(self).time_chains@[i].0@ == d);
                        }
                        if old_map.dom().contains(d) {
                            let i = choose|i: int| 0 <= i < old(self).time_chains@.len() && #[trigger] old(self).time_chains@[i].0@ == d;
                            assert(self.time_chains@[i].0@ == d);
                        }
                        if set![t@].contains(t@) {
                            assert(self.time_chains@[k as int].0@ == t.device_id@);
                        }
                    }
                    assert forall|d: DeviceIdView| #[trigger] m2.dom().contains(d) implies m2[d] == want[d] by {
                        let i = choose|i: int| 0 <= i < self.time_chains@.len() && #[trigger] self.time_chains@[i].0@ == d;
                        lemma_chains_choose(self.time_chains@, i);
                        lemma_chains_choose(old(self).time_chains@, i);
                        assert(old(self).time_chains@[i].0@ == d);
                        if i == k {
                            assert(m2[d] =~= want[d]);
                        } else {
                            assert(d != t.device_id@);
                            assert(m2[d] =~= want[d]);
                        }
                    }
                    assert(m2 =~= want);
                }
            },
            None => {
                let mut s: BTreeSet<u64> = BTreeSet::new();
                s.insert(t.internal_clock);
                self.time_chains.push((t.device_id.clone(), s));
                proof {
                    let n = old(self).time_chains@.len() as int;
                    assert forall|i: int, j: int|
                        0 <= i < self.time_chains@.len() && 0 <= j < self.time_chains@.len() && i != j implies #[trigger] self.time_chains@[i].0@ != #[trigger] self.time_chains@[j].0@ by {
                        if i < n && j < n {
                            assert(self.time_chains@[i] == old(self).time_chains@[i]);
                            assert(self.time_chains@[j] == old(self).time_chains@[j]);
                        } else if i < n {
                            assert(self.time_chains@[i] == old(self).time_chains@[i]);
                        } else {
                            assert(self.time_chains@[j] == old(self).time_chains@[j]);
                        }
                    }
                    lemma_chains_choose(self.time_chains@, n);
                    let m2 = chains_map(self.time_chains@);
                    let want = chains_with(old_map, set![t@]);
                    assert(!old_map.dom().contains(t.device_id@)) by {
                        if old_map.dom().contains(t.device_id@) {
                            let i = choose|i: int| 0 <= i < old(self).time_chains@.len() && #[trigger] old(self).time_chains@[i].0@ == t.device_id@;
                            assert(old(self).time_chains@[i].0@ != t.device_id@);
                        }
                    }
                    assert forall|d: DeviceIdView| #[trigger] m2.dom().contains(d) <==> want.dom().contains(d) by {
                        if m2.dom().contains(d) {
                            let i = choose|i: int| 0 <= i < self.time_chains@.len() && #[trigger] self.time_chains@[i].0@ == d;
                            if i < n {
                                assert(old(self).time_chains@[i].0@ == d);
                            } else {
                                assert(set![t@].contains(t@));
                            }
                        }
                        if old_map.dom().contains(d) {
                            let i = choose|i: int| 0 <= i < old(self).time_chains@.len() && #[trigger] old(self).time_chains@[i].0@ == d;
                            assert(self.time_chains@[i].0@ == d);
                        }
                        if exists|u: DeviceTimeView| #[trigger] set![t@].contains(u) && u.device_id == d {
                            assert(d == t.device_id@);
                            assert(self.time_chains@[n].0@ == d);
                        }
                    }
                    assert forall|d: DeviceIdView| #[trigger] m2.dom().contains(d) implies m2[d] == want[d] by {
                        let i = choose|i: int| 0 <= i < self.time_chains@.len() && #[trigger] self.time_chains@[i].0@ == d;
                        lemma_chains_choose(self.time_chains@, i);
                        if i < n {
                            assert(self.time_chains@[i] == old(self).time_chains@[i]);
                            lemma_chains_choose(old(self).time_chains@, i);
                            assert(d != t.device_id@);
                            assert(m2[d] =~= want[d]);
                        } else {
                            assert(m2[d] =~= want[d]);
                        }
                    }
                    assert(m2 =~= want);
                }
            },
        }
    }

    /// Records a pair of simultaneous readings, unless it is recorded already.
    fn add_connection(&mut self, a: DeviceTime, b: DeviceTime)
        requires
            old(self).wf(),
        ensures
            final(self).wf(),
            final(self).entries == old(self).entries,
            final(self).metadata == old(self).metadata,
            final(self).time_chains == old(self).time_chains,
            final(self)@.chain_connections == old(self)@.chain_connections.insert((a@, b@)),
    {
        let mut i: usize = 0;
        while i < self.chain_connections.len()
            invariant
                i <= self.chain_connections@.len(),
                self.wf(),
                forall|j: int| 0 <= j < i ==> #[trigger] self.chain_connections@[j]@ != (a@, b@),
            decreases self.chain_connections@.len() - i,
        {
            if self.chain_connections[i].0.eq(&a) && self.chain_connections[i].1.eq(&b) {
                proof {
                    assert(self.chain_connections@[i as int]@ == (a@, b@));
                    assert(self@.chain_connections =~= old(self)@.chain_connections.insert((a@, b@)));
                }
                return;
            }
            i += 1;
        }
        let ghost p = (a@, b@);
        self.chain_connections.push((a, b));
        proof {
            let n = old(self).chain_connections@.len() as int;
            assert(self.chain_connections@[n]@ == p);
            assert forall|x: (DeviceTimeView, DeviceTimeView)| #[trigger] self@.chain_connections.contains(x) <==> old(self)@.chain_connections.insert(p).contains(x) by {
                if self@.chain_connections.contains(x) {
                    let j = choose|j: int| 0 <= j < self.chain_connections@.len() && #[trigger] self.chain_connections@[j]@ == x;
                    if j < n {
                        assert(old(self).chain_connections@[j]@ == x);
                    }
                }
                if old(self)@.chain_connections.contains(x) {
                    let j = choose|j: int| 0 <= j < old(self).chain_connections@.len() && #[trigger] old(self).chain_connections@[j]@ == x;
                    assert(self.chain_connections@[j]@ == x);
                }
            }
            assert(self@.chain_connections =~= old(self)@.chain_connections.insert(p));
            assert forall|i: int, j: int|
                0 <= i < self.chain_connections@.len() && 0 <= j < self.chain_connections@.len() && i != j implies #[trigger] self.chain_connections@[i]@ != #[trigger] self.chain_connections@[j]@ by {
                if i < n && j < n {
                    assert(self.chain_connections@[i] == old(self).chain_connections@[i]);
                    assert(self.chain_connections@[j] == old(self).chain_connections@[j]);
                } else if i < n {
                    assert(self.chain_connections@[i] == old(self).chain_connections@[i]);
                } else {
                    assert(self.chain_connections@[j] == old(self).chain_connections@[j]);
                }
            }
        }
    }

    /// Records a metadata entry, unless it is recorded already.
    fn add_metadata(&mut self, e: TimelineEntry)
        requires
            old(self).wf(),
        ensures
            final(self).wf(),
            final(self).entries == old(self).entries,
            final(self).chain_connections == old(self).chain_connections,
            final(self).time_chains == old(self).time_chains,
            final(self)@.metadata == old(self)@.metadata.insert(e@),
    {
        let mut i: usize = 0;
        while i < self.metadata.len()
            invariant
                i <= self.metadata@.len(),
                self.wf(),
                forall|j: int| 0 <= j < i ==> #[trigger] self.metadata@[j]@ != e@,
            decreases self.metadata@.len() - i,
        {
            if self.metadata[i].eq(&e) {
                proof {
                    assert(self@.metadata =~= old(self)@.metadata.insert(e@));
                }
                return;
            }
            i += 1;
        }
        let ghost p = e@;
        self.metadata.push(e);
        proof {
            let n = old(self).metadata@.len() as int;
            assert(self.metadata@[n]@ == p);
            assert forall|x: TimelineEntryView| #[trigger] self@.metadata.contains(x) <==> old(self)@.metadata.insert(p).contains(x) by {
                if self@.metadata.contains(x) {
                    let j = choose|j: int| 0 <= j < self.metadata@.len() && #[trigger] self.metadata@[j]@ == x;
                    if j < n {
                        assert(old(self).metadata@[j]@ == x);
                    }
                }
                if old(self)@.metadata.contains(x) {
                    let j = choose|j: int| 0 <= j < old(self).metadata@.len() && #[trigger] old(self).metadata@[j]@ == x;
                    assert(self.metadata@[j]@ == x);
                }
            }
            assert(self@.metadata =~= old(self)@.metadata.insert(p));
            assert forall|i: int, j: int|
                0 <= i < self.metadata@.len() && 0 <= j < self.metadata@.len() && i != j implies #[trigger] self.metadata@[i]@ != #[trigger] self.metadata@[j]@ by {
                if i < n && j < n {
                    assert(self.metadata@[i] == old(self).metadata@[i]);
                    assert(self.metadata@[j] == old(self).metadata@[j]);
                } else if i < n {
                    assert(self.metadata@[i] == old(self).metadata@[i]);
                } else {
                    assert(self.metadata@[j] == old(self).metadata@[j]);
                }
            }
        }
    }

    /// Sorts the unsorted entries: every clock offset adds both of its readings to the chains
    /// of their devices and records the pair as a connection between the two chains; every
    /// other entry becomes metadata. Afterwards no entry is left unsorted.
    pub fn sort_entries(&mut self)
        requires
            old(self).wf(),
        ensures
            final(self).wf(),
            final(self)@.entries == Set::<TimelineEntryView>::empty(),
            final(self)@.metadata == old(self)@.metadata.union(non_offsets(old(self)@.entries)),
            final(self)@.chain_connections == old(self)@.chain_connections.union(offset_pairs(old(self)@.entries)),
            final(self)@.time_chains == chains_with(old(self)@.time_chains, offset_readings(old(self)@.entries)),
            final(self)@ == sorted_view(old(self)@),
    {
        let mut entries: Vec<TimelineEntry> = Vec::new();
        std::mem::swap(&mut entries, &mut self.entries);
        let ghost es = entries@;
        let ghost m0 = old(self)@.metadata;
        let ghost c0 = old(self)@.chain_connections;
        let ghost t0 = old(self)@.time_chains;
        proof {
            assert(view_set(es.take(0)) =~= Set::<TimelineEntryView>::empty());
            assert(non_offsets(Set::<TimelineEntryView>::empty()) =~= Set::<TimelineEntryView>::empty());
            assert(offset_pairs(Set::<TimelineEntryView>::empty()) =~= Set::<(DeviceTimeView, DeviceTimeView)>::empty());
            assert(offset_readings(Set::<TimelineEntryView>::empty()) =~= Set::<DeviceTimeView>::empty());
            assert(self@.metadata.union(Set::<TimelineEntryView>::empty()) =~= self@.metadata);
            assert(self@.chain_connections.union(Set::<(DeviceTimeView, DeviceTimeView)>::empty()) =~= self@.chain_connections);
            lemma_chains_with_empty(t0);
        }
        let mut i: usize = 0;
        while i < entries.len()
            invariant
                entries@ == es,
                view_set(es) == old(self)@.entries,
                m0 == old(self)@.metadata,
                c0 == old(self)@.chain_connections,
                t0 == old(self)@.time_chains,
                self.wf(),
                self.entries@.len() == 0,
                i <= es.len(),
                self@.metadata == m0.union(non_offsets(view_set(es.take(i as int)))),
                self@.chain_connections == c0.union(offset_pairs(view_set(es.take(i as int)))),
                self@.time_chains == chains_with(t0, offset_readings(view_set(es.take(i as int)))),
            decreases es.len() - i,
        {
            let ghost before = view_set(es.take(i as int));
            let ghost e = es[i as int]@;
            proof {
                assert(view_set(es.take(i as int + 1)) =~= before.insert(e)) by {
                    assert forall|x: TimelineEntryView| #[trigger] view_set(es.take(i as int + 1)).contains(x) <==> before.insert(e).contains(x) by {
                        if view_set(es.take(i as int + 1)).contains(x) {
                            let j = choose|j: int| 0 <= j < es.take(i as int + 1).len() && #[trigger] es.take(i as int + 1)[j]@ == x;
                            if j < i {
                                assert(es.take(i as int)[j]@ == x);
                            }
                        }
                        if before.contains(x) {
                            let j = choose|j: int| 0 <= j < es.take(i as int).len() && #[trigger] es.take(i as int)[j]@ == x;
                            assert(es.take(i as int + 1)[j]@ == x);
                        }
                        if x == e {
                            assert(es.take(i as int + 1)[i as int]@ == x);
                        }
                    }
                }
            }
            let n = &entries[i];
            match &n.val {
                DataValue::ClockOffset(time2) => {
                    let time1 = &n.time;
                    self.add_reading(time1);
                    self.add_reading(time2);
                    self.add_connection(time1.clone(), time2.clone());
                    proof {
                        let after = before.insert(e);
                        assert(is_clock_offset(e));
                        assert(offset_time(e) == time2@);
                        assert(non_offsets(after) =~= non_offsets(before));
                        lemma_offset_pairs_insert(before, e);
                        assert(self@.chain_connections =~= c0.union(offset_pairs(after)));
                        let r0 = offset_readings(before);
                        lemma_offset_readings_insert(before, e);
                        lemma_chains_with_insert(t0, r0, time1@);
                        lemma_chains_with_insert(t0, r0.insert(time1@), time2@);
                    }
                },
                _ => {
                    self.add_metadata(n.clone());
                    proof {
                        let after = before.insert(e);
                        assert(!is_clock_offset(e));
                        assert(non_offsets(after) =~= non_offsets(before).insert(e));
                        assert(self@.metadata =~= m0.union(non_offsets(after)));
                        lemma_non_offset_insert(before, e);
                    }
                },
            }
            i += 1;
        }
        proof {
            assert(es.take(es.len() as int) =~= es);
            assert(self@.entries =~= Set::<TimelineEntryView>::empty());
        }
    }

    /// Adds an entry that has been read; an entry that is there already is not added twice.
    pub fn insert_entry(&mut self, e: TimelineEntry)
        requires
            old(self).wf(),
        ensures
            final(self).wf(),
            final(self).metadata == old(self).metadata,
            final(self).chain_connections == old(self).chain_connections,
            final(self).time_chains == old(self).time_chains,
            final(self)@.entries == old(self)@.entries.insert(e@),
            final(self)@ == with_entries(old(self)@, set![e@]),
    {
        let mut i: usize = 0;
        while i < self.entries.len()
            invariant
                i <= self.entries@.len(),
                self.wf(),
                forall|j: int| 0 <= j < i ==> #[trigger] self.entries@[j]@ != e@,
            decreases self.entries@.len() - i,
        {
            if self.entries[i].eq(&e) {
                proof {
                    assert(self@.entries =~= old(self)@.entries.insert(e@));
                    assert(old(self)@.entries.insert(e@) =~= old(self)@.entries.union(set![e@]));
                }
                return;
            }
            i += 1;
        }
        let ghost p = e@;
        self.entries.push(e);
        proof {
            let n = old(self).entries@.len() as int;
            assert(self.entries@[n]@ == p);
            assert forall|x: TimelineEntryView| #[trigger] self@.entries.contains(x) <==> old(self)@.entries.insert(p).contains(x) by {
                if self@.entries.contains(x) {
                    let j = choose|j: int| 0 <= j < self.entries@.len() && #[trigger] self.entries@[j]@ == x;
                    if j < n {
                        assert(old(self).entries@[j]@ == x);
                    }
                }
                if old(self)@.entries.contains(x) {
                    let j = choose|j: int| 0 <= j < old(self).entries@.len() && #[trigger] old(self).entries@[j]@ == x;
                    assert(self.entries@[j]@ == x);
                }
            }
            assert(self@.entries =~= old(self)@.entries.insert(p));
            assert(old(self)@.entries.insert(p) =~= old(self)@.entries.union(set![p]));
            assert forall|i: int, j: int|
                0 <= i < self.entries@.len() && 0 <= j < self.entries@.len() && i != j implies #[trigger] self.entries@[i]@ != #[trigger] self.entries@[j]@ by {
                if i < n && j < n {
                    assert(self.entries@[i] == old(self).entries@[i]);
                    assert(self.entries@[j] == old(self).entries@[j]);
                } else if i < n {
                    assert(self.entries@[i] == old(self).entries@[i]);
                } else {
                    assert(self.entries@[j] == old(self).entries@[j]);
                }
            }
        }
    }
}

proof fn lemma_chains_with_empty(m: Map<DeviceIdView, Set<u64>>)
    ensures
        chains_with(m, Set::<DeviceTimeView>::empty()) == m,
{
    let a = chains_with(m, Set::<DeviceTimeView>::empty());
    assert forall|d: DeviceIdView| #[trigger] a.dom().contains(d) implies a[d] == m[d] by {
        assert(a[d] =~= m[d]);
    }
    assert(a =~= m);
}

proof fn lemma_non_offset_insert(es: Set<TimelineEntryView>, e: TimelineEntryView)
    requires
        !is_clock_offset(e),
    ensures
        offset_pairs(es.insert(e)) == offset_pairs(es),
        offset_readings(es.insert(e)) == offset_readings(es),
{
    assert forall|p: (DeviceTimeView, DeviceTimeView)| offset_pairs(es.insert(e)).contains(p) <==> offset_pairs(es).contains(p) by {
        if offset_pairs(es.insert(e)).contains(p) {
            let w = choose|w: TimelineEntryView| #[trigger] es.insert(e).contains(w) && is_clock_offset(w) && p == (w.time, offset_time(w));
            assert(es.contains(w));
        }
        if offset_pairs(es).contains(p) {
            let w = choose|w: TimelineEntryView| #[trigger] es.contains(w) && is_clock_offset(w) && p == (w.time, offset_time(w));
            assert(es.insert(e).contains(w));
        }
    }
    assert(offset_pairs(es.insert(e)) =~= offset_pairs(es));
    assert forall|t: DeviceTimeView| offset_readings(es.insert(e)).contains(t) <==> offset_readings(es).contains(t) by {
        if offset_readings(es.insert(e)).contains(t) {
            let w = choose|w: TimelineEntryView| #[trigger] es.insert(e).contains(w) && is_clock_offset(w) && (t == w.time || t == offset_time(w));
            assert(es.contains(w));
        }
        if offset_readings(es).contains(t) {
            let w = choose|w: TimelineEntryView| #[trigger] es.contains(w) && is_clock_offset(w) && (t == w.time || t == offset_time(w));
            assert(es.insert(e).contains(w));
        }
    }
    assert(offset_readings(es.insert(e)) =~= offset_readings(es));
}

proof fn lemma_offset_pairs_insert(es: Set<TimelineEntryView>, e: TimelineEntryView)
    requires
        is_clock_offset(e),
    ensures
        offset_pairs(es.insert(e)) == offset_pairs(es).insert((e.time, offset_time(e))),
{
    let a = offset_pairs(es.insert(e));
    let b = offset_pairs(es).insert((e.time, offset_time(e)));
    assert forall|p: (DeviceTimeView, DeviceTimeView)| a.contains(p) <==> b.contains(p) by {
        if a.contains(p) {
            let w = choose|w: TimelineEntryView| #[trigger] es.insert(e).contains(w) && is_clock_offset(w) && p == (w.time, offset_time(w));
            if w != e {
                assert(es.contains(w));
            }
        }
        if offset_pairs(es).contains(p) {
            let w = choose|w: TimelineEntryView| #[trigger] es.contains(w) && is_clock_offset(w) && p == (w.time, offset_time(w));
            assert(es.insert(e).contains(w));
        }
        if p == (e.time, offset_time(e)) {
            assert(es.insert(e).contains(e));
        }
    }
    assert(a =~= b);
}

proof fn lemma_offset_readings_insert(es: Set<TimelineEntryView>, e: TimelineEntryView)
    requires
        is_clock_offset(e),
    ensures
        offset_readings(es.insert(e)) == offset_readings(es).insert(e.time).insert(offset_time(e)),
{
    let a = offset_readings(es.insert(e));
    let b = offset_readings(es).insert(e.time).insert(offset_time(e));
    assert forall|t: DeviceTimeView| a.contains(t) <==> b.contains(t) by {
        if a.contains(t) {
            let w = choose|w: TimelineEntryView| #[trigger] es.insert(e).contains(w) && is_clock_offset(w) && (t == w.time || t == offset_time(w));
            if w != e {
                assert(es.contains(w));
            }
        }
        if offset_readings(es).contains(t) {
            let w = choose|w: TimelineEntryView| #[trigger] es.contains(w) && is_clock_offset(w) && (t == w.time || t == offset_time(w));
            assert(es.insert(e).contains(w));
        }
        if t == e.time || t == offset_time(e) {
            assert(es.insert(e).contains(e));
        }
    }
    assert(a =~= b);
}

/// Adding one more reading to a set of readings adds it to the chain of its device.
proof fn lemma_chains_with_insert(m: Map<DeviceIdView, Set<u64>>, rs: Set<DeviceTimeView>, t: DeviceTimeView)
    ensures
        chains_with(m, rs.insert(t)) == chains_with(chains_with(m, rs), set![t]),
{
    let a = chains_with(m, rs.insert(t));
    let b = chains_with(chains_with(m, rs), set![t]);
    assert forall|d: DeviceIdView| #[trigger] a.dom().contains(d) <==> b.dom().contains(d) by {
        if exists|u: DeviceTimeView| #[trigger] rs.insert(t).contains(u) && u.device_id == d {
            let u = choose|u: DeviceTimeView| #[trigger] rs.insert(t).contains(u) && u.device_id == d;
            if u != t {
                assert(rs.contains(u));
            } else {
                assert(set![t].contains(t));
            }
        }
        if exists|u: DeviceTimeView| #[trigger] rs.contains(u) && u.device_id == d {
            let u = choose|u: DeviceTimeView| #[trigger] rs.contains(u) && u.device_id == d;
            assert(rs.insert(t).contains(u));
        }
        if exists|u: DeviceTimeView| #[trigger] set![t].contains(u) && u.device_id == d {
            assert(rs.insert(t).contains(t));
        }
    }
    assert forall|d: DeviceIdView| #[trigger] a.dom().contains(d) implies a[d] == b[d] by {
        assert(a[d] =~= b[d]);
    }
    assert(a =~= b);
}

/// Device names given by `RenameDevice` entries, as a map.
pub open spec fn renames_map(v: Seq<(DeviceId, String)>) -> Map<DeviceIdView, Seq<char>> {
    Map::new(
        |d: DeviceIdView| exists|i: int| 0 <= i < v.len() && #[trigger] v[i].0@ == d,
        |d: DeviceIdView| v[choose|i: int| 0 <= i < v.len() && #[trigger] v[i].0@ == d].1@,
    )
}

pub open spec fn distinct_rename_keys(v: Seq<(DeviceId, String)>) -> bool {
    forall|i: int, j: int| 0 <= i < v.len() && 0 <= j < v.len() && i != j ==> #[trigger] v[i].0@ != #[trigger] v[j].0@
}

/// What sorting knows at a point of the timeline: device names, the current production, scene
/// and take, and whether scene and take folders are enabled.
pub struct SortState {
    pub camera_renames: Vec<(DeviceId, String)>,
    pub current_production: String,
    pub scene_number: i32,
    pub scene_enabled: bool,
    pub current_scene: String,
    pub take_enabled: bool,
    pub current_take: u32,
}

/// The mathematical value of a [`SortState`].
pub struct SortStateView {
    pub renames: Map<DeviceIdView, Seq<char>>,
    pub production: Seq<char>,
    pub scene_number: i32,
    pub scene_enabled: bool,
    pub scene: Seq<char>,
    pub take_enabled: bool,
    pub take: u32,
}

impl View for SortState {
    type V = SortStateView;

    open spec fn view(&self) -> SortStateView {
        SortStateView {
            renames: renames_map(self.camera_renames@),
            production: self.current_production@,
            scene_number: self.scene_number,
            scene_enabled: self.scene_enabled,
            scene: self.current_scene@,
            take_enabled: self.take_enabled,
            take: self.current_take,
        }
    }
}

/// How one metadata value, met in time order, changes what sorting knows: a rename names a
/// device, a production name, scene settings and take settings replace the current ones, and a
/// scene name different from the current scene starts the next scene. Other values change
/// nothing.
pub open spec fn spec_apply(s: SortStateView, v: DataValueView) -> SortStateView {
    match v {
        DataValueView::RenameDevice((id, name)) => SortStateView { renames: s.renames.insert(id, name), ..s },
        DataValueView::ProductionName(n) => SortStateView { production: n, ..s },
        DataValueView::EnableSceneName(b) => SortStateView { scene_enabled: b, ..s },
        DataValueView::SceneName(n) => if n != s.scene {
            SortStateView { scene: n, scene_number: (s.scene_number + 1) as i32, ..s }
        } else {
            s
        },
        DataValueView::EnableTakeNumber(b) => SortStateView { take_enabled: b, ..s },
        DataValueView::TakeNumber(n) => SortStateView { take: n, ..s },
        _ => s,
    }
}

/// Whether applying `v` would have to count one scene more.
pub open spec fn starts_new_scene(s: SortStateView, v: DataValueView) -> bool {
    v matches DataValueView::SceneName(n) && n != s.scene
}

/// A number in decimal with at least three digits, padded with leading zeros.
pub open spec fn pad3(n: nat) -> Seq<char> {
    let d = decimal(n);
    if d.len() >= 3 {
        d
    } else {
        Seq::new((3 - d.len()) as nat, |i: int| '0') + d
    }
}

/// The scene folder of media created now, when scenes are enabled both by the recording and
/// by the sorting options: `NNN Scene - <scene name as a file name>`.
pub open spec fn spec_scene_folder(s: SortStateView, o: SaveLocationOptions) -> Option<Seq<char>> {
    if s.scene_enabled && o.scene {
        Some(pad3(s.scene_number as nat) + " Scene - "@ + filenamified(s.scene))
    } else {
        None
    }
}

/// The take folder of media created now, when takes are enabled both by the recording and by
/// the sorting options: `Take <number>`.
pub open spec fn spec_take_folder(s: SortStateView, o: SaveLocationOptions) -> Option<Seq<char>> {
    if s.take_enabled && o.take {
        Some("Take "@ + decimal(s.take as nat))
    } else {
        None
    }
}

/// The device folder of media filmed by `id`: `Device id - ` followed by the device's given
/// name, or its own id when it has none.
pub open spec fn spec_device_folder(s: SortStateView, id: DeviceIdView) -> Seq<char> {
    "Device id - "@ + if s.renames.dom().contains(id) {
        s.renames[id]
    } else {
        match id {
            DeviceIdView::ClientId(n) => decimal(n as nat),
            DeviceIdView::CameraId(c) => c,
        }
    }
}

/// A folder level that is present or not.
pub open spec fn level(f: Option<Seq<char>>) -> Seq<Seq<char>> {
    match f {
        Some(x) => seq![x],
        None => seq![],
    }
}

/// The folders, below the output folder, that media created now goes into: the production;
/// the date and the media type, each when it is known and enabled by the options; the scene
/// and take folders; and the device's folder when the device is known.
pub open spec fn spec_media_folders(
    s: SortStateView,
    o: SaveLocationOptions,
    date: Option<Seq<char>>,
    media_type: Option<Seq<char>>,
    device: Option<DeviceIdView>,
) -> Seq<Seq<char>> {
    seq![s.production] + level(if o.date { date } else { None }) + level(
        if o.file_type { media_type } else { None },
    ) + level(spec_scene_folder(s, o)) + level(spec_take_folder(s, o)) + level(
        match device {
            Some(d) => Some(spec_device_folder(s, d)),
            None => None,
        },
    )
}

/// The name a sorted file gets: the part after the first `-` that follows `TIMESTAMP`, when
/// the original name has that form; the original name otherwise.
pub open spec fn spec_sorted_file_name(name: Seq<char>) -> Seq<char> {
    match split_once(name, "TIMESTAMP"@) {
        Some((_, n)) => match split_once(n, "-"@) {
            Some((_, n2)) => n2,
            None => name,
        },
        None => name,
    }
}

/// The name a sorted file gets (see [`spec_sorted_file_name`]).
pub fn sorted_file_name(name: &str) -> (r: String)
    ensures
        r@ == spec_sorted_file_name(name@),
{
    let s = chars_of(name);
    let marker = chars_of("TIMESTAMP");
    let dash = chars_of("-");
    match split_once_chars(s.as_slice(), marker.as_slice()) {
        Some((_, n)) => match split_once_chars(n.as_slice(), dash.as_slice()) {
            Some((_, n2)) => string_from(n2.as_slice()),
            None => string_from(s.as_slice()),
        },
        None => string_from(s.as_slice()),
    }
}

fn push_str(v: &mut Vec<char>, s: &str)
    ensures
        final(v)@ == old(v)@ + s@,
{
    let mut t = chars_of(s);
    v.append(&mut t);
}

impl SortState {
    /// No device names, production `undefined production`, scene `scene undefined` numbered 0,
    /// take 0, scene and take folders disabled.
    pub fn new() -> (s: SortState)
        ensures
            s.wf(),
            s@.renames == Map::<DeviceIdView, Seq<char>>::empty(),
            s@.production == "undefined production"@,
            s@.scene_number == 0,
            !s@.scene_enabled,
            s@.scene == "scene undefined"@,
            !s@.take_enabled,
            s@.take == 0,
    {
        let s = SortState {
            camera_renames: Vec::new(),
            current_production: string_from(chars_of("undefined production").as_slice()),
            scene_number: 0,
            scene_enabled: false,
            current_scene: string_from(chars_of("scene undefined").as_slice()),
            take_enabled: false,
            current_take: 0,
        };
        assert(s@.renames =~= Map::<DeviceIdView, Seq<char>>::empty());
        s
    }

    /// The scene count is never negative and each device has at most one name.
    pub open spec fn wf(&self) -> bool {
        &&& self.scene_number >= 0
        &&& distinct_rename_keys(self.camera_renames@)
    }

    /// Takes one metadata value into account (see [`spec_apply`]).
    pub fn apply(&mut self, value: &DataValue)
        requires
            old(self).wf(),
            starts_new_scene(old(self)@, value@) ==> old(self).scene_number < i32::MAX,
        ensures
            final(self).wf(),
            final(self)@ == spec_apply(old(self)@, value@),
    {
        match value {
            DataValue::RenameDevice((device_id, new_name)) => {
                self.rename(device_id, new_name.clone());
            },
            DataValue::ProductionName(n) => {
                self.current_production = n.clone();
            },
            DataValue::EnableSceneName(n) => {
                self.scene_enabled = *n;
            },
            DataValue::SceneName(n) => {
                if !n.eq(&self.current_scene) {
                    self.current_scene = n.clone();
                    self.scene_number += 1;
                }
            },
            DataValue::EnableTakeNumber(n) => {
                self.take_enabled = *n;
            },
            DataValue::TakeNumber(n) => {
                self.current_take = *n;
            },
            _ => {},
        }
    }

    fn rename(&mut self, id: &DeviceId, name: String)
        requires
            old(self).wf(),
        ensures
            final(self).wf(),
            final(self)@ == (SortStateView { renames: old(self)@.renames.insert(id@, name@), ..old(self)@ }),
    {
        let ghost old_map = renames_map(self.camera_renames@);
        let i = match self.find_rename(id) {
            Some(i) => i,
            None => self.camera_renames.len(),
        };
        let n = self.camera_renames.len();
        let ghost k = i as int;
        if i < n {
            let mut pair = self.camera_renames.remove(i);
            pair.1 = name;
            self.camera_renames.insert(i, pair);
        } else {
            self.camera_renames.push((id.clone(), name));
        }
        proof {
            let v = self.camera_renames@;
            let ov = old(self).camera_renames@;
            assert(v[k].0@ == id@);
            assert forall|a: int, b: int| 0 <= a < v.len() && 0 <= b < v.len() && a != b implies #[trigger] v[a].0@ != #[trigger] v[b].0@ by {
                if a != k {
                    assert(v[a].0@ == ov[a].0@);
                }
                if b != k {
                    assert(v[b].0@ == ov[b].0@);
                }
            }
            let m2 = renames_map(v);
            let want = old_map.insert(id@, name@);
            assert forall|d: DeviceIdView| #[trigger] m2.dom().contains(d) <==> want.dom().contains(d) by {
                if m2.dom().contains(d) {
                    let a = choose|a: int| 0 <= a < v.len() && #[trigger] v[a].0@ == d;
                    if a != k {
                        assert(ov[a].0@ == d);
                    }
                }
                if old_map.dom().contains(d) {
                    let a = choose|a: int| 0 <= a < ov.len() && #[trigger] ov[a].0@ == d;
                    assert(v[a].0@ == d);
                }
                if d == id@ {
                    assert(v[k].0@ == d);
                }
            }
            assert forall|d: DeviceIdView| #[trigger] m2.dom().contains(d) implies m2[d] == want[d] by {
                let a = choose|a: int| 0 <= a < v.len() && #[trigger] v[a].0@ == d;
                if a != k {
                    assert(ov[a].0@ == d);
                    let b = choose|b: int| 0 <= b < ov.len() && #[trigger] ov[b].0@ == d;
                    assert(b == a);
                }
            }
            assert(m2 =~= want);
        }
    }

    fn find_rename(&self, id: &DeviceId) -> (r: Option<usize>)
        ensures
            match r {
                Some(k) => k < self.camera_renames@.len() && self.camera_renames@[k as int].0@ == id@,
                None => forall|i: int| 0 <= i < self.camera_renames@.len() ==> #[trigger] self.camera_renames@[i].0@ != id@,
            },
    {
        let mut i: usize = 0;
        while i < self.camera_renames.len()
            invariant
                i <= self.camera_renames@.len(),
                forall|j: int| 0 <= j < i ==> #[trigger] self.camera_renames@[j].0@ != id@,
            decreases self.camera_renames@.len() - i,
        {
            if self.camera_renames[i].0.eq(id) {
                return Some(i);
            }
            i += 1;
        }
        None
    }

    /// The scene folder of media created now (see [`spec_scene_folder`]).
    pub fn scene_folder(&self, options: &SaveLocationOptions) -> (r: Option<String>)
        requires
            self.wf(),
        ensures
            match spec_scene_folder(self@, *options) {
                Some(f) => r matches Some(x) && x@ == f,
                None => r is None,
            },
    {
        if self.scene_enabled && options.scene {
            let d = decimal_chars(self.scene_number as u64);
            let mut v: Vec<char> = Vec::new();
            let mut k = d.len();
            while k < 3
                invariant
                    d@ == decimal(self.scene_number as nat),
                    d@.len() <= k <= 3 || (k == d@.len() && k >= 3),
                    v@ == Seq::new((k - d@.len()) as nat, |i: int| '0'),
                decreases 3 - k,
            {
                v.push('0');
                k += 1;
                assert(v@ =~= Seq::new((k - d@.len()) as nat, |i: int| '0'));
            }
            let mut dd = d;
            v.append(&mut dd);
            assert(v@ =~= pad3(self.scene_number as nat));
            push_str(&mut v, " Scene - ");
            let name = filenamify(self.current_scene.as_str());
            let mut nc = chars_of(name.as_str());
            v.append(&mut nc);
            Some(string_from(v.as_slice()))
        } else {
            None
        }
    }

    /// The take folder of media created now (see [`spec_take_folder`]).
    pub fn take_folder(&self, options: &SaveLocationOptions) -> (r: Option<String>)
        ensures
            match spec_take_folder(self@, *options) {
                Some(f) => r matches Some(x) && x@ == f,
                None => r is None,
            },
    {
        if self.take_enabled && options.take {
            let mut v = chars_of("Take ");
            let mut d = decimal_chars(self.current_take as u64);
            v.append(&mut d);
            Some(string_from(v.as_slice()))
        } else {
            None
        }
    }

    /// The device folder of media filmed by `id` (see [`spec_device_folder`]).
    pub fn device_folder(&self, id: &DeviceId) -> (r: String)
        requires
            self.wf(),
        ensures
            r@ == spec_device_folder(self@, id@),
    {
        let mut v = chars_of("Device id - ");
        match self.find_rename(id) {
            Some(i) => {
                proof {
                    let a = choose|a: int| 0 <= a < self.camera_renames@.len() && #[trigger] self.camera_renames@[a].0@ == id@;
                    assert(self.camera_renames@[i as int].0@ == id@);
                    assert(a == i);
                }
                let mut n = chars_of(self.camera_renames[i].1.as_str());
                v.append(&mut n);
                return string_from(v.as_slice());
            },
            None => {
                assert(!self@.renames.dom().contains(id@));
            },
        }
        let s = id.to_string();
        let mut n = chars_of(s.as_str());
        v.append(&mut n);
        string_from(v.as_slice())
    }

    /// The folders, below the output folder, that media created now goes into (see
    /// [`spec_media_folders`]); `date` and `media_type` are what the caller found for the file.
    pub fn media_folders(
        &self,
        options: &SaveLocationOptions,
        date: Option<String>,
        media_type: Option<String>,
        device: Option<&DeviceId>,
    ) -> (r: Vec<String>)
        requires
            self.wf(),
        ensures
            string_views(r@) == spec_media_folders(
                self@,
                *options,
                opt_text(date),
                opt_text(media_type),
                match device {
                    Some(d) => Some(d@),
                    None => None,
                },
            ),
    {
        let ghost o = *options;
        let ghost dev = match device {
            Some(d) => Some(d@),
            None => None,
        };
        let mut r: Vec<String> = Vec::new();
        r.push(self.current_production.clone());
        let ghost mut expected = seq![self@.production];
        assert(string_views(r@) =~= expected);
        let date_level = if options.date { date } else { None };
        if let Some(d) = date_level {
            let ghost before = string_views(r@);
            r.push(d);
            assert(string_views(r@) =~= before.push(d@));
        }
        proof {
            expected = expected + level(if o.date { opt_text(date) } else { None });
        }
        assert(string_views(r@) =~= expected);
        let type_level = if options.file_type { media_type } else { None };
        if let Some(t) = type_level {
            let ghost before = string_views(r@);
            r.push(t);
            assert(string_views(r@) =~= before.push(t@));
        }
        proof {
            expected = expected + level(if o.file_type { opt_text(media_type) } else { None });
        }
        assert(string_views(r@) =~= expected);
        if let Some(f) = self.scene_folder(options) {
            let ghost before = string_views(r@);
            r.push(f);
            assert(string_views(r@) =~= before.push(f@));
        }
        proof {
            expected = expected + level(spec_scene_folder(self@, o));
        }
        assert(string_views(r@) =~= expected);
        if let Some(f) = self.take_folder(options) {
            let ghost before = string_views(r@);
            r.push(f);
            assert(string_views(r@) =~= before.push(f@));
        }
        proof {
            expected = expected + level(spec_take_folder(self@, o));
        }
        assert(string_views(r@) =~= expected);
        if let Some(id) = device {
            let f = self.device_folder(id);
            let ghost before = string_views(r@);
            r.push(f);
            assert(string_views(r@) =~= before.push(f@));
        }
        proof {
            expected = expected + level(
                match dev {
                    Some(d) => Some(spec_device_folder(self@, d)),
                    None => None,
                },
            );
        }
        assert(string_views(r@) =~= expected);
        r
    }
}

proof fn lemma_offset_readings_union(a: Set<TimelineEntryView>, b: Set<TimelineEntryView>)
    ensures
        offset_readings(a.union(b)) == offset_readings(a).union(offset_readings(b)),
        offset_pairs(a.union(b)) == offset_pairs(a).union(offset_pairs(b)),
        non_offsets(a.union(b)) == non_offsets(a).union(non_offsets(b)),
{
    assert(offset_readings(a.union(b)) =~= offset_readings(a).union(offset_readings(b))) by {
        assert forall|t: DeviceTimeView| #[trigger] offset_readings(a.union(b)).contains(t) implies offset_readings(a).union(offset_readings(b)).contains(t) by {
            let e = choose|e: TimelineEntryView| #[trigger] a.union(b).contains(e) && is_clock_offset(e) && (t == e.time || t == offset_time(e));
            if a.contains(e) {
                assert(offset_readings(a).contains(t));
            } else {
                assert(offset_readings(b).contains(t));
            }
        }
        assert forall|t: DeviceTimeView| #[trigger] offset_readings(a).union(offset_readings(b)).contains(t) implies offset_readings(a.union(b)).contains(t) by {
            if offset_readings(a).contains(t) {
                let e = choose|e: TimelineEntryView| #[trigger] a.contains(e) && is_clock_offset(e) && (t == e.time || t == offset_time(e));
                assert(a.union(b).contains(e));
            } else {
                let e = choose|e: TimelineEntryView| #[trigger] b.contains(e) && is_clock_offset(e) && (t == e.time || t == offset_time(e));
                assert(a.union(b).contains(e));
            }
        }
    }
    assert(offset_pairs(a.union(b)) =~= offset_pairs(a).union(offset_pairs(b))) by {
        assert forall|p: (DeviceTimeView, DeviceTimeView)| #[trigger] offset_pairs(a.union(b)).contains(p) implies offset_pairs(a).union(offset_pairs(b)).contains(p) by {
            let e = choose|e: TimelineEntryView| #[trigger] a.union(b).contains(e) && is_clock_offset(e) && p == (e.time, offset_time(e));
            if a.contains(e) {
                assert(offset_pairs(a).contains(p));
            } else {
                assert(offset_pairs(b).contains(p));
            }
        }
        assert forall|p: (DeviceTimeView, DeviceTimeView)| #[trigger] offset_pairs(a).union(offset_pairs(b)).contains(p) implies offset_pairs(a.union(b)).contains(p) by {
            if offset_pairs(a).contains(p) {
                let e = choose|e: TimelineEntryView| #[trigger] a.contains(e) && is_clock_offset(e) && p == (e.time, offset_time(e));
                assert(a.union(b).contains(e));
            } else {
                let e = choose|e: TimelineEntryView| #[trigger] b.contains(e) && is_clock_offset(e) && p == (e.time, offset_time(e));
                assert(a.union(b).contains(e));
            }
        }
    }
    assert(non_offsets(a.union(b)) =~= non_offsets(a).union(non_offsets(b)));
}

proof fn lemma_chains_with_union(m: Map<DeviceIdView, Set<u64>>, r1: Set<DeviceTimeView>, r2: Set<DeviceTimeView>)
    ensures
        chains_with(chains_with(m, r1), r2) == chains_with(m, r1.union(r2)),
{
    let a = chains_with(chains_with(m, r1), r2);
    let b = chains_with(m, r1.union(r2));
    assert(a.dom() =~= b.dom()) by {
        assert forall|d: DeviceIdView| #[trigger] a.dom().contains(d) implies b.dom().contains(d) by {
            if !chains_with(m, r1).dom().contains(d) {
                let t = choose|t: DeviceTimeView| #[trigger] r2.contains(t) && t.device_id == d;
                assert(r1.union(r2).contains(t));
            } else if !m.dom().contains(d) {
                let t = choose|t: DeviceTimeView| #[trigger] r1.contains(t) && t.device_id == d;
                assert(r1.union(r2).contains(t));
            }
        }
        assert forall|d: DeviceIdView| #[trigger] b.dom().contains(d) implies a.dom().contains(d) by {
            if !m.dom().contains(d) {
                let t = choose|t: DeviceTimeView| #[trigger] r1.union(r2).contains(t) && t.device_id == d;
                if r1.contains(t) {
                    assert(chains_with(m, r1).dom().contains(d));
                }
            }
        }
    }
    assert forall|d: DeviceIdView| #[trigger] a.dom().contains(d) implies a[d] =~= b[d] by {
        if !chains_with(m, r1).dom().contains(d) {
            assert forall|c: u64| !#[trigger] r1.contains(DeviceTimeView { internal_clock: c, device_id: d }) by {
                if r1.contains(DeviceTimeView { internal_clock: c, device_id: d }) {
                    assert(chains_with(m, r1).dom().contains(d));
                }
            }
        }
    }
    assert(a =~= b);
}

/// Sorting a sorted timeline changes nothing.
pub proof fn law_sort_idempotent(t: TimelineView)
    ensures
        sorted_view(sorted_view(t)) == sorted_view(t),
{
    let s = sorted_view(t);
    assert(offset_readings(Set::<TimelineEntryView>::empty()) =~= Set::empty());
    assert(offset_pairs(Set::<TimelineEntryView>::empty()) =~= Set::empty());
    assert(non_offsets(Set::<TimelineEntryView>::empty()) =~= Set::empty());
    lemma_chains_with_union(t.time_chains, offset_readings(t.entries), Set::empty());
    assert(offset_readings(t.entries).union(Set::empty()) =~= offset_readings(t.entries));
    assert(s.chain_connections.union(Set::empty()) =~= s.chain_connections);
    assert(s.metadata.union(Set::empty()) =~= s.metadata);
}

/// Sorting in batches comes to the same as sorting once: sorting, reading more entries and
/// sorting again gives what sorting all the entries at once gives.
pub proof fn law_sort_in_batches(t: TimelineView, es: Set<TimelineEntryView>)
    ensures
        sorted_view(with_entries(sorted_view(t), es)) == sorted_view(with_entries(t, es)),
{
    lemma_offset_readings_union(t.entries, es);
    lemma_chains_with_union(t.time_chains, offset_readings(t.entries), offset_readings(es));
    assert(Set::<TimelineEntryView>::empty().union(es) =~= es);
    assert(t.chain_connections.union(offset_pairs(t.entries)).union(offset_pairs(es)) =~= t.chain_connections.union(
        offset_pairs(t.entries).union(offset_pairs(es)),
    ));
    assert(t.metadata.union(non_offsets(t.entries)).union(non_offsets(es)) =~= t.metadata.union(
        non_offsets(t.entries).union(non_offsets(es)),
    ));
}

/// Sorting gives a processed file its original name back: the stem and extension it had before
/// processing. This holds for every client, and for every camera whose name does not hold
/// `TIMESTAMP`.
pub proof fn law_sorted_name_restores_original(id: DeviceIdView, ms: u64, stem: Seq<char>, ext: Seq<char>)
    requires
        id matches DeviceIdView::CameraId(c) ==> !crate::text::contains_text(c, "TIMESTAMP"@),
    ensures
        spec_sorted_file_name(spec_unsorted_file_name(id, ms, stem, ext)) == stem + "."@ + ext,
{
    match id {
        DeviceIdView::ClientId(n) => crate::data::file_metadata::lemma_client_marker_after(n),
        DeviceIdView::CameraId(c) => crate::data::file_metadata::lemma_marker_after_iff(c),
    }
    reveal_strlit("TIMESTAMP");
    reveal_strlit("DEVICE_ID");
    reveal_strlit("-");
    let d = device_text(id);
    let st = spec_unsorted_stem(id, ms, stem);
    let name = spec_unsorted_file_name(id, ms, stem, ext);
    let m = decimal(ms as nat);
    lemma_marker_position(id, ms, stem);
    crate::text::lemma_find_from_prefix(st, "."@ + ext, "TIMESTAMP"@, 9 + d.len() as int);
    assert(name =~= st + ("."@ + ext));
    let rest = name.skip(18 + d.len() as int);
    assert(rest =~= m + "-"@ + (stem + "."@ + ext));
    crate::text::lemma_decimal_digits(ms as nat);
    assert(rest.subrange(m.len() as int, m.len() as int + 1) =~= "-"@);
    assert forall|j: int| 0 <= j < m.len() implies !crate::text::occurs_at(rest, "-"@, j) by {
        assert(rest[j] == m[j]);
        if crate::text::occurs_at(rest, "-"@, j) {
            assert(rest.subrange(j, j + 1)[0] == rest[j]);
        }
    }
    crate::text::lemma_find_from_of_first(rest, "-"@, 0, m.len() as int);
    assert(rest.skip(m.len() as int + 1) =~= stem + "."@ + ext);
}

/// A setting met in the metadata replaces the one before it, whatever that was: after
/// `EnableTakeNumber(b)` takes are numbered exactly when `b` holds, so media gets a take folder
/// exactly when `b` and the take option both hold; likewise `EnableSceneName` sets whether
/// scenes are named, and `TakeNumber` and `ProductionName` replace the take and the production.
pub proof fn law_latest_setting_wins(s: SortStateView, b: bool, n: u32, name: Seq<char>, o: SaveLocationOptions)
    ensures
        spec_apply(s, DataValueView::EnableTakeNumber(b)).take_enabled == b,
        (spec_take_folder(spec_apply(s, DataValueView::EnableTakeNumber(b)), o) is Some) == (b && o.take),
        spec_apply(s, DataValueView::EnableSceneName(b)).scene_enabled == b,
        (spec_scene_folder(spec_apply(s, DataValueView::EnableSceneName(b)), o) is Some) == (b && o.scene),
        spec_apply(s, DataValueView::TakeNumber(n)).take == n,
        spec_apply(s, DataValueView::ProductionName(name)).production == name,
{
}

/// Zeros in front of digits do not change their value.
proof fn lemma_leading_zeros(z: Seq<char>, d: Seq<char>)
    requires
        forall|i: int| 0 <= i < z.len() ==> #[trigger] z[i] == '0',
    ensures
        digits_value(z + d) == digits_value(d),
        all_digits(d) ==> all_digits(z + d),
    decreases d.len() + z.len(),
{
    if d.len() == 0 {
        assert(z + d =~= z);
        if z.len() > 0 {
            lemma_leading_zeros(z.drop_last(), d);
            assert(z.drop_last() + d =~= z.drop_last());
        }
    } else {
        lemma_leading_zeros(z, d.drop_last());
        assert((z + d).drop_last() =~= z + d.drop_last());
        assert((z + d).last() == d.last());
    }
}

/// The number at the front of a scene folder's name is the scene number in decimal, padded with
/// zeros to three digits and no further: its first `max(3, number of digits)` characters are
/// digits that read as the scene number, followed by ` Scene - ` and the scene name as a file
/// name.
pub proof fn law_scene_number_padding(s: SortStateView, o: SaveLocationOptions)
    requires
        s.scene_enabled,
        o.scene,
        s.scene_number >= 0,
    ensures
        ({
            let f = spec_scene_folder(s, o)->0;
            let d = decimal(s.scene_number as nat).len();
            let k = if d >= 3 { d } else { 3 };
            &&& spec_scene_folder(s, o) is Some
            &&& f.len() >= k
            &&& all_digits(f.take(k as int))
            &&& digits_value(f.take(k as int)) == s.scene_number
            &&& f.skip(k as int) == " Scene - "@ + filenamified(s.scene)
        }),
{
    let n = s.scene_number as nat;
    let d = decimal(n);
    lemma_decimal_digits(n);
    let p = pad3(n);
    if d.len() < 3 {
        let z = Seq::new((3 - d.len()) as nat, |i: int| '0');
        lemma_leading_zeros(z, d);
        assert(p == z + d);
    }
    let f = spec_scene_folder(s, o)->0;
    assert(f == p + " Scene - "@ + filenamified(s.scene));
    assert(f.take(p.len() as int) =~= p);
    assert(f.skip(p.len() as int) =~= " Scene - "@ + filenamified(s.scene));
}

} // verus!

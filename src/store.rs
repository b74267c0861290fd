use vstd::prelude::*;
use crate::value::{CursedValue, ValueModel};

verus! {

/// One timestamped value of a topic's series.
#[derive(Clone, Debug, PartialEq)]
pub struct Entry {
    pub time: u64,
    pub value: CursedValue,
}

/// The series of one topic, ascending by time.
#[derive(Clone, Debug, PartialEq)]
pub struct Series {
    pub topic: String,
    pub entries: Vec<Entry>,
}

/// Times strictly ascending: no duplicate timestamps, iteration order is time order.
pub open spec fn ascending(s: Seq<Entry>) -> bool {
    forall|i: int, j: int| 0 <= i < j < s.len() ==> #[trigger] s[i].time < #[trigger] s[j].time
}

/// Some entry of `s` is at time `t`.
pub open spec fn has_time(s: Seq<Entry>, t: u64) -> bool {
    exists|i: int| 0 <= i < s.len() && #[trigger] s[i].time == t
}

/// The ordered mapping timestamp -> value that a series holds.
pub open spec fn entries_map(s: Seq<Entry>) -> Map<u64, ValueModel> {
    Map::new(
        |t: u64| has_time(s, t),
        |t: u64| s[choose|i: int| 0 <= i < s.len() && #[trigger] s[i].time == t].value@,
    )
}

/// `k` is the greatest key of `m` that is at most `t`.
pub open spec fn is_latest(m: Map<u64, ValueModel>, t: u64, k: u64) -> bool {
    &&& m.contains_key(k)
    &&& k <= t
    &&& forall|k2: u64| #[trigger] m.contains_key(k2) && k2 <= t ==> k2 <= k
}

/// The value at the greatest timestamp that is at most `t`, if any.
pub open spec fn latest_at(m: Map<u64, ValueModel>, t: u64) -> Option<ValueModel> {
    if exists|k: u64| is_latest(m, t, k) {
        Some(m[choose|k: u64| is_latest(m, t, k)])
    } else {
        None
    }
}

/// The series of `k` in `s`, or the empty series if the topic is unknown.
pub open spec fn series_or_empty(s: Map<Seq<char>, Map<u64, ValueModel>>, k: Seq<char>) -> Map<u64, ValueModel> {
    if s.contains_key(k) {
        s[k]
    } else {
        Map::empty()
    }
}

/// The store model after recording `v` for topic `k` at time `t`.
pub open spec fn with_sample(
    s: Map<Seq<char>, Map<u64, ValueModel>>,
    k: Seq<char>,
    t: u64,
    v: ValueModel,
) -> Map<Seq<char>, Map<u64, ValueModel>> {
    s.insert(k, series_or_empty(s, k).insert(t, v))
}

/// The entries of `m` with `start <= time <= end`.
pub open spec fn in_range(m: Map<u64, ValueModel>, start: u64, end: u64) -> Map<u64, ValueModel> {
    m.restrict(Set::new(|t: u64| start <= t && t <= end))
}

/// The position of topic `k` among the series `ts`.
pub open spec fn topic_index(ts: Seq<Series>, k: Seq<char>) -> int {
    choose|i: int| 0 <= i < ts.len() && #[trigger] ts[i].topic@ == k
}

/// Some series of `ts` belongs to topic `k`.
pub open spec fn has_topic(ts: Seq<Series>, k: Seq<char>) -> bool {
    exists|i: int| 0 <= i < ts.len() && #[trigger] ts[i].topic@ == k
}

/// In an ascending series, each entry is what the mapping holds at its time.
pub proof fn lemma_entries_map_at(s: Seq<Entry>, i: int)
    requires
        ascending(s),
        0 <= i < s.len(),
    ensures
        entries_map(s).contains_key(s[i].time),
        entries_map(s)[s[i].time] == s[i].value@,
{
    let t = s[i].time;
    assert(has_time(s, t));
    let j = choose|j: int| 0 <= j < s.len() && #[trigger] s[j].time == t;
    if j < i {
        assert(s[j].time < s[i].time);
    } else if i < j {
        assert(s[i].time < s[j].time);
    }
}

proof fn lemma_map_after_update(s0: Seq<Entry>, s1: Seq<Entry>, p: int, e: Entry)
    requires
        ascending(s0),
        ascending(s1),
        0 <= p < s0.len(),
        s0[p].time == e.time,
        s1 == s0.update(p, e),
    ensures
        entries_map(s1) == entries_map(s0).insert(e.time, e.value@),
{
    let m = entries_map(s0).insert(e.time, e.value@);
    assert forall|t: u64| entries_map(s1).contains_key(t) <==> m.contains_key(t) by {
        if has_time(s1, t) {
            let j = choose|j: int| 0 <= j < s1.len() && #[trigger] s1[j].time == t;
            if j != p {
                assert(s0[j].time == t);
            }
        }
        if has_time(s0, t) {
            let j = choose|j: int| 0 <= j < s0.len() && #[trigger] s0[j].time == t;
            assert(s1[j].time == t);
        }
        if t == e.time {
            assert(s1[p].time == t);
        }
    }
    assert forall|t: u64| #[trigger] entries_map(s1).contains_key(t) implies entries_map(s1)[t]
        == m[t] by {
        let j = choose|j: int| 0 <= j < s1.len() && #[trigger] s1[j].time == t;
        lemma_entries_map_at(s1, j);
        if j != p {
            lemma_entries_map_at(s0, j);
        }
    }
    assert(entries_map(s1) =~= m);
}

proof fn lemma_map_after_insert(s0: Seq<Entry>, s1: Seq<Entry>, p: int, e: Entry)
    requires
        ascending(s0),
        ascending(s1),
        0 <= p <= s0.len(),
        s1 == s0.insert(p, e),
    ensures
        entries_map(s1) == entries_map(s0).insert(e.time, e.value@),
{
    let m = entries_map(s0).insert(e.time, e.value@);
    assert forall|t: u64| entries_map(s1).contains_key(t) <==> m.contains_key(t) by {
        if has_time(s1, t) {
            let j = choose|j: int| 0 <= j < s1.len() && #[trigger] s1[j].time == t;
            if j < p {
                assert(s0[j].time == t);
            } else if j > p {
                assert(s0[j - 1].time == t);
            }
        }
        if has_time(s0, t) {
            let j = choose|j: int| 0 <= j < s0.len() && #[trigger] s0[j].time == t;
            if j < p {
                assert(s1[j].time == t);
            } else {
                assert(s1[j + 1].time == t);
            }
        }
        if t == e.time {
            assert(s1[p].time == t);
        }
    }
    assert forall|t: u64| #[trigger] entries_map(s1).contains_key(t) implies entries_map(s1)[t]
        == m[t] by {
        let j = choose|j: int| 0 <= j < s1.len() && #[trigger] s1[j].time == t;
        lemma_entries_map_at(s1, j);
        lemma_entries_map_at(s1, p);
        if j < p {
            lemma_entries_map_at(s0, j);
        } else if j > p {
            lemma_entries_map_at(s0, j - 1);
        }
    }
    assert(entries_map(s1) =~= m);
}

/// The first position whose time is at least `time`.
fn lower_bound(entries: &Vec<Entry>, time: u64) -> (p: usize)
    requires
        ascending(entries@),
    ensures
        p <= entries@.len(),
        forall|j: int| 0 <= j < p ==> #[trigger] entries@[j].time < time,
        forall|j: int| p <= j < entries@.len() ==> #[trigger] entries@[j].time >= time,
{
    let mut lo: usize = 0;
    let mut hi: usize = entries.len();
    while lo < hi
        invariant
            lo <= hi <= entries@.len(),
            ascending(entries@),
            forall|j: int| 0 <= j < lo ==> #[trigger] entries@[j].time < time,
            forall|j: int| hi <= j < entries@.len() ==> #[trigger] entries@[j].time >= time,
        decreases hi - lo,
    {
        let mid = lo + (hi - lo) / 2;
        if entries[mid].time < time {
            assert forall|j: int| 0 <= j < mid + 1 implies #[trigger] entries@[j].time < time by {
                if j < mid {
                    assert(entries@[j].time < entries@[mid as int].time);
                }
            }
            lo = mid + 1;
        } else {
            assert forall|j: int| mid <= j < entries@.len() implies #[trigger] entries@[j].time
                >= time by {
                if j > mid {
                    assert(entries@[mid as int].time < entries@[j].time);
                }
            }
            hi = mid;
        }
    }
    lo
}

/// Puts `value` at `time` into an ascending series, replacing what stood there.
fn insert_entry(entries: &mut Vec<Entry>, time: u64, value: CursedValue)
    requires
        ascending(old(entries)@),
    ensures
        ascending(final(entries)@),
        final(entries)@.len() > 0,
        entries_map(final(entries)@) == entries_map(old(entries)@).insert(time, value@),
{
    let p = lower_bound(entries, time);
    let ghost old_s = entries@;
    let ghost vm = value@;
    let e = Entry { time, value };
    if p < entries.len() && entries[p].time == time {
        entries[p] = e;
        proof {
            lemma_map_after_update(old_s, entries@, p as int, entries@[p as int]);
        }
    } else {
        entries.insert(p, e);
        proof {
            let new_s = entries@;
            assert forall|i: int, j: int| 0 <= i < j < new_s.len() implies #[trigger] new_s[i].time
                < #[trigger] new_s[j].time by {
                if j < p {
                } else if j == p {
                } else if i < p {
                } else if i == p {
                    assert(old_s[j - 1].time >= time);
                } else {
                    assert(old_s[i - 1].time < old_s[j - 1].time);
                }
            }
            lemma_map_after_insert(old_s, new_s, p as int, new_s[p as int]);
        }
    }
}

/// The first position whose time is greater than `time`.
fn upper_bound(entries: &Vec<Entry>, time: u64) -> (p: usize)
    requires
        ascending(entries@),
    ensures
        p <= entries@.len(),
        forall|j: int| 0 <= j < p ==> #[trigger] entries@[j].time <= time,
        forall|j: int| p <= j < entries@.len() ==> #[trigger] entries@[j].time > time,
{
    let mut lo: usize = 0;
    let mut hi: usize = entries.len();
    while lo < hi
        invariant
            lo <= hi <= entries@.len(),
            ascending(entries@),
            forall|j: int| 0 <= j < lo ==> #[trigger] entries@[j].time <= time,
            forall|j: int| hi <= j < entries@.len() ==> #[trigger] entries@[j].time > time,
        decreases hi - lo,
    {
        let mid = lo + (hi - lo) / 2;
        if entries[mid].time <= time {
            assert forall|j: int| 0 <= j < mid + 1 implies #[trigger] entries@[j].time <= time by {
                if j < mid {
                    assert(entries@[j].time < entries@[mid as int].time);
                }
            }
            lo = mid + 1;
        } else {
            assert forall|j: int| mid <= j < entries@.len() implies #[trigger] entries@[j].time
                > time by {
                if j > mid {
                    assert(entries@[mid as int].time < entries@[j].time);
                }
            }
            hi = mid;
        }
    }
    lo
}

impl Entry {
    /// A copy of this entry with the same time and value model.
    pub fn copy(&self) -> (r: Entry)
        ensures
            r.time == self.time,
            r.value@ == self.value@,
    {
        Entry { time: self.time, value: self.value.copy() }
    }
}

/// The value of topic `k` at the greatest timestamp that is at most `t`, if any.
pub open spec fn value_at_or_before(s: Map<Seq<char>, Map<u64, ValueModel>>, k: Seq<char>, t: u64) -> Option<ValueModel> {
    if s.contains_key(k) {
        latest_at(s[k], t)
    } else {
        None
    }
}

/// The store of every topic's series.
#[derive(Clone, Debug, PartialEq)]
pub struct DataStore {
    pub topics: Vec<Series>,
}

impl View for DataStore {
    type V = Map<Seq<char>, Map<u64, ValueModel>>;

    open spec fn view(&self) -> Map<Seq<char>, Map<u64, ValueModel>> {
        Map::new(
            |k: Seq<char>| has_topic(self.topics@, k),
            |k: Seq<char>| entries_map(self.topics@[topic_index(self.topics@, k)].entries@),
        )
    }
}

impl DataStore {
    /// Topic names unique; every series non-empty and ascending.
    pub open spec fn wf(&self) -> bool {
        &&& forall|i: int, j: int|
            0 <= i < j < self.topics@.len() ==> #[trigger] self.topics@[i].topic@
                != #[trigger] self.topics@[j].topic@
        &&& forall|i: int|
            0 <= i < self.topics@.len() ==> (#[trigger] self.topics@[i]).entries@.len() > 0
                && ascending(self.topics@[i].entries@)
    }

    /// The series at position `i` is what the store maps its topic to.
    pub proof fn lemma_view_at(&self, i: int)
        requires
            self.wf(),
            0 <= i < self.topics@.len(),
        ensures
            self@.contains_key(self.topics@[i].topic@),
            self@[self.topics@[i].topic@] == entries_map(self.topics@[i].entries@),
    {
        let k = self.topics@[i].topic@;
        assert(has_topic(self.topics@, k));
        let j = topic_index(self.topics@, k);
        if j != i {
            if j < i {
                assert(self.topics@[j].topic@ != self.topics@[i].topic@);
            } else {
                assert(self.topics@[i].topic@ != self.topics@[j].topic@);
            }
        }
    }

    /// An empty store.
    pub fn new() -> (r: DataStore)
        ensures
            r.wf(),
            r@ == Map::<Seq<char>, Map<u64, ValueModel>>::empty(),
    {
        let r = DataStore { topics: Vec::new() };
        assert(r@ =~= Map::<Seq<char>, Map<u64, ValueModel>>::empty());
        r
    }

    fn find_topic(&self, key: &String) -> (r: Option<usize>)
        ensures
            match r {
                Some(i) => i < self.topics@.len() && self.topics@[i as int].topic@ == key@,
                None => !has_topic(self.topics@, key@),
            },
    {
        let mut i: usize = 0;
        while i < self.topics.len()
            invariant
                i <= self.topics@.len(),
                forall|j: int| 0 <= j < i ==> #[trigger] self.topics@[j].topic@ != key@,
            decreases self.topics.len() - i,
        {
            if self.topics[i].topic == *key {
                return Some(i);
            }
            i += 1;
        }
        None
    }

    /// Records `value` for `key` at `time`; a value already at that time is replaced.
    pub fn add_data(&mut self, key: String, time: u64, value: CursedValue)
        requires
            old(self).wf(),
        ensures
            final(self).wf(),
            final(self)@ == with_sample(old(self)@, key@, time, value@),
    {
        let ghost k = key@;
        let ghost vm = value@;
        match self.find_topic(&key) {
            None => {
                let mut entries: Vec<Entry> = Vec::new();
                entries.push(Entry { time, value });
                let ghost old_ts = self.topics@;
                self.topics.push(Series { topic: key, entries });
                proof {
                    let ts = self.topics@;
                    let n = old_ts.len() as int;
                    assert(entries_map(ts[n].entries@) =~= Map::<u64, ValueModel>::empty().insert(time, vm)) by {
                        lemma_entries_map_at(ts[n].entries@, 0);
                    }
                    assert(self.wf());
                    self.lemma_view_at(n);
                    let m = old(self)@.insert(k, Map::<u64, ValueModel>::empty().insert(time, vm));
                    assert forall|q: Seq<char>| #[trigger] self@.contains_key(q) <==> m.contains_key(q) by {
                        if has_topic(ts, q) {
                            let j = topic_index(ts, q);
                            if j < n {
                                assert(old_ts[j].topic@ == q);
                            }
                        }
                        if has_topic(old_ts, q) {
                            let j = topic_index(old_ts, q);
                            assert(ts[j].topic@ == q);
                        }
                    }
                    assert forall|q: Seq<char>| #[trigger] self@.contains_key(q) implies self@[q] == m[q] by {
                        if q != k {
                            let j = topic_index(ts, q);
                            assert(old_ts[j].topic@ == q);
                            self.lemma_view_at(j);
                            old(self).lemma_view_at(j);
                        }
                    }
                    assert(self@ =~= m);
                }
            },
            Some(i) => {
                proof {
                    old(self).lemma_view_at(i as int);
                }
                let ghost old_ts = self.topics@;
                insert_entry(&mut self.topics[i].entries, time, value);
                proof {
                    let ts = self.topics@;
                    assert(ts.len() == old_ts.len());
                    assert(forall|j: int| 0 <= j < ts.len() ==> #[trigger] ts[j].topic@ == old_ts[j].topic@);
                    assert(forall|j: int| 0 <= j < ts.len() && j != i ==> #[trigger] ts[j] == old_ts[j]);
                    assert(self.wf());
                    self.lemma_view_at(i as int);
                    let m = old(self)@.insert(k, old(self)@[k].insert(time, vm));
                    assert forall|q: Seq<char>| #[trigger] self@.contains_key(q) <==> m.contains_key(q) by {
                        if has_topic(ts, q) {
                            let j = topic_index(ts, q);
                            assert(old_ts[j].topic@ == q);
                        }
                        if has_topic(old_ts, q) {
                            let j = topic_index(old_ts, q);
                            assert(ts[j].topic@ == q);
                        }
                    }
                    assert forall|q: Seq<char>| #[trigger] self@.contains_key(q) implies self@[q] == m[q] by {
                        if q != k {
                            let j = topic_index(ts, q);
                            assert(old_ts[j].topic@ == q);
                            self.lemma_view_at(j);
                            old(self).lemma_view_at(j);
                        }
                    }
                    assert(self@ =~= m);
                }
            },
        }
    }
    /// The series of `key`, ascending by time, if the topic is known.
    pub fn get_data(&self, key: &String) -> (r: Option<&Vec<Entry>>)
        requires
            self.wf(),
        ensures
            r is Some <==> self@.contains_key(key@),
            r matches Some(v) ==> ascending(v@) && entries_map(v@) == self@[key@],
    {
        match self.find_topic(key) {
            Some(i) => {
                proof {
                    self.lemma_view_at(i as int);
                }
                Some(&self.topics[i].entries)
            },
            None => None,
        }
    }

    /// The last known value of `key` as of `time`: the value at the greatest
    /// timestamp that is at most `time`.
    pub fn get_data_at_time(&self, key: &String, time: u64) -> (r: Option<&CursedValue>)
        requires
            self.wf(),
        ensures
            match r {
                Some(v) => value_at_or_before(self@, key@, time) == Some(v@),
                None => value_at_or_before(self@, key@, time) is None,
            },
    {
        match self.find_topic(key) {
            None => None,
            Some(i) => {
                let entries = &self.topics[i].entries;
                proof {
                    self.lemma_view_at(i as int);
                }
                let p = upper_bound(entries, time);
                let ghost m = entries_map(entries@);
                if p == 0 {
                    proof {
                        assert forall|k: u64| !is_latest(m, time, k) by {
                            if m.contains_key(k) {
                                let j = choose|j: int| 0 <= j < entries@.len() && #[trigger] entries@[j].time == k;
                                assert(entries@[j].time > time);
                            }
                        }
                    }
                    None
                } else {
                    proof {
                        let k = entries@[p - 1].time;
                        lemma_entries_map_at(entries@, p - 1);
                        assert forall|k2: u64| #[trigger] m.contains_key(k2) && k2 <= time implies k2 <= k by {
                            let j = choose|j: int| 0 <= j < entries@.len() && #[trigger] entries@[j].time == k2;
                            if j > p - 1 {
                                assert(entries@[p - 1].time < entries@[j].time);
                            }
                        }
                        assert(is_latest(m, time, k));
                        let c = choose|c: u64| is_latest(m, time, c);
                        assert(c == k);
                    }
                    Some(&entries[p - 1].value)
                }
            },
        }
    }

    /// The entries of `key` with `start <= time <= end`, ascending by time;
    /// empty when the topic is unknown or `start > end`.
    pub fn range_query(&self, key: &String, start: u64, end: u64) -> (r: Vec<Entry>)
        requires
            self.wf(),
        ensures
            ascending(r@),
            entries_map(r@) == in_range(series_or_empty(self@, key@), start, end),
    {
        let mut r: Vec<Entry> = Vec::new();
        match self.find_topic(key) {
            None => {
                assert(entries_map(r@) =~= in_range(series_or_empty(self@, key@), start, end));
                r
            },
            Some(i) => {
                let entries = &self.topics[i].entries;
                proof {
                    self.lemma_view_at(i as int);
                }
                let lo = lower_bound(entries, start);
                let hi = upper_bound(entries, end);
                let mut j: usize = lo;
                while j < hi
                    invariant
                        lo <= j,
                        hi <= entries@.len(),
                        j <= hi || j == lo,
                        ascending(entries@),
                        r@.len() == j - lo,
                        forall|q: int| 0 <= q < r@.len() ==> (#[trigger] r@[q]).time == entries@[lo + q].time
                            && r@[q].value@ == entries@[lo + q].value@,
                    decreases hi - j,
                {
                    r.push(entries[j].copy());
                    j += 1;
                }
                proof {
                    let s = entries@;
                    let rs = r@;
                    assert(ascending(rs)) by {
                        assert forall|a: int, b: int| 0 <= a < b < rs.len() implies #[trigger] rs[a].time
                            < #[trigger] rs[b].time by {
                            assert(s[lo + a].time < s[lo + b].time);
                        }
                    }
                    let target = in_range(entries_map(s), start, end);
                    assert forall|t: u64| entries_map(rs).contains_key(t) <==> target.contains_key(t) by {
                        if has_time(rs, t) {
                            let q = choose|q: int| 0 <= q < rs.len() && #[trigger] rs[q].time == t;
                            assert(s[lo + q].time == t);
                        }
                        if target.contains_key(t) {
                            let q = choose|q: int| 0 <= q < s.len() && #[trigger] s[q].time == t;
                            assert(lo <= q < hi);
                            assert(rs[q - lo].time == t);
                        }
                    }
                    assert forall|t: u64| #[trigger] entries_map(rs).contains_key(t) implies entries_map(rs)[t]
                        == target[t] by {
                        let q = choose|q: int| 0 <= q < rs.len() && #[trigger] rs[q].time == t;
                        lemma_entries_map_at(rs, q);
                        lemma_entries_map_at(s, lo + q);
                    }
                    assert(entries_map(rs) =~= target);
                }
                r
            },
        }
    }
}

/// Recording twice at the same topic and time leaves only the second value:
/// the series holds exactly one entry at that time, and it is `v2`.
pub proof fn lemma_overwrite_keeps_last(
    s: Map<Seq<char>, Map<u64, ValueModel>>,
    k: Seq<char>,
    t: u64,
    v1: ValueModel,
    v2: ValueModel,
)
    ensures
        with_sample(with_sample(s, k, t, v1), k, t, v2) == with_sample(s, k, t, v2),
        with_sample(with_sample(s, k, t, v1), k, t, v2)[k][t] == v2,
{
    let a = with_sample(with_sample(s, k, t, v1), k, t, v2);
    let b = with_sample(s, k, t, v2);
    assert(a[k] =~= b[k]);
    assert(a =~= b);
}

/// A range whose start lies after its end selects nothing.
pub proof fn lemma_empty_range(m: Map<u64, ValueModel>, start: u64, end: u64)
    requires
        start > end,
    ensures
        in_range(m, start, end) == Map::<u64, ValueModel>::empty(),
{
    assert(in_range(m, start, end) =~= Map::<u64, ValueModel>::empty());
}

/// A range query holds exactly the entries of the series whose time lies in
/// the range, with the series' values.
pub proof fn lemma_range_is_subset(m: Map<u64, ValueModel>, start: u64, end: u64, t: u64)
    ensures
        in_range(m, start, end).contains_key(t) <==> (m.contains_key(t) && start <= t && t <= end),
        in_range(m, start, end).contains_key(t) ==> in_range(m, start, end)[t] == m[t],
{
}

/// The store model after recording the calls `ops` in order, starting from an
/// empty store; each call is `(topic, time, value)`.
pub open spec fn replay(ops: Seq<(Seq<char>, u64, ValueModel)>) -> Map<Seq<char>, Map<u64, ValueModel>>
    decreases ops.len(),
{
    if ops.len() == 0 {
        Map::empty()
    } else {
        let c = ops.last();
        with_sample(replay(ops.drop_last()), c.0, c.1, c.2)
    }
}

/// Call `i` is the last of `ops` for topic `k` at time `t`.
pub open spec fn is_last_call(ops: Seq<(Seq<char>, u64, ValueModel)>, k: Seq<char>, t: u64, i: int) -> bool {
    &&& 0 <= i < ops.len()
    &&& ops[i].0 == k
    &&& ops[i].1 == t
    &&& forall|j: int| i < j < ops.len() ==> !(#[trigger] ops[j].0 == k && ops[j].1 == t)
}

/// Among the calls of `ops` for topic `k` at a time at most `t`, call `i` has the
/// greatest time, and is the last one at that time.
pub open spec fn is_deciding_call(ops: Seq<(Seq<char>, u64, ValueModel)>, k: Seq<char>, t: u64, i: int) -> bool {
    &&& 0 <= i < ops.len()
    &&& ops[i].0 == k
    &&& ops[i].1 <= t
    &&& forall|j: int|
        0 <= j < ops.len() && #[trigger] ops[j].0 == k && ops[j].1 <= t ==> ops[j].1 < ops[i].1 || (
        ops[j].1 == ops[i].1 && j <= i)
}

/// The value of the deciding call, if there is one.
pub open spec fn deciding_value(ops: Seq<(Seq<char>, u64, ValueModel)>, k: Seq<char>, t: u64) -> Option<ValueModel> {
    if exists|i: int| is_deciding_call(ops, k, t, i) {
        Some(ops[choose|i: int| is_deciding_call(ops, k, t, i)].2)
    } else {
        None
    }
}

proof fn lemma_replay_contents(ops: Seq<(Seq<char>, u64, ValueModel)>, k: Seq<char>, t: u64)
    ensures
        replay(ops).contains_key(k) <==> exists|i: int| 0 <= i < ops.len() && #[trigger] ops[i].0 == k,
        replay(ops).contains_key(k) ==> (replay(ops)[k].contains_key(t) <==> exists|i: int|
            0 <= i < ops.len() && #[trigger] ops[i].0 == k && ops[i].1 == t),
        replay(ops).contains_key(k) && replay(ops)[k].contains_key(t) ==> exists|i: int|
            is_last_call(ops, k, t, i),
        forall|i: int| is_last_call(ops, k, t, i) ==> replay(ops).contains_key(k) && replay(
            ops,
        )[k].contains_key(t) && #[trigger] replay(ops)[k][t] == ops[i].2,
    decreases ops.len(),
{
    if ops.len() > 0 {
        let n = ops.len() - 1;
        let prev = ops.drop_last();
        let c = ops[n];
        lemma_replay_contents(prev, k, t);
        assert forall|i: int| 0 <= i < n implies #[trigger] prev[i] == ops[i] by {}
        if exists|i: int| 0 <= i < ops.len() && #[trigger] ops[i].0 == k {
            let i = choose|i: int| 0 <= i < ops.len() && #[trigger] ops[i].0 == k;
            if i < n {
                assert(prev[i].0 == k);
            }
        }
        if exists|i: int| 0 <= i < ops.len() && #[trigger] ops[i].0 == k && ops[i].1 == t {
            let i = choose|i: int| 0 <= i < ops.len() && #[trigger] ops[i].0 == k && ops[i].1 == t;
            if i < n {
                assert(prev[i].0 == k && prev[i].1 == t);
            }
        }
        if c.0 == k && c.1 == t {
            assert(is_last_call(ops, k, t, n));
            assert forall|i: int| is_last_call(ops, k, t, i) implies i == n by {
                if i < n {
                    assert(ops[n].0 == k && ops[n].1 == t);
                }
            }
        } else {
            if replay(ops).contains_key(k) && replay(ops)[k].contains_key(t) {
                assert(replay(prev).contains_key(k) && replay(prev)[k].contains_key(t));
                let i = choose|i: int| is_last_call(prev, k, t, i);
                assert forall|j: int| i < j < ops.len() implies !(#[trigger] ops[j].0 == k && ops[j].1
                    == t) by {
                    if j < n {
                        assert(prev[j] == ops[j]);
                    }
                }
                assert(is_last_call(ops, k, t, i));
            }
            assert forall|i: int| is_last_call(ops, k, t, i) implies replay(ops).contains_key(k)
                && replay(ops)[k].contains_key(t) && #[trigger] replay(ops)[k][t] == ops[i].2 by {
                assert(i != n);
                assert(is_last_call(prev, k, t, i));
            }
        }
    }
}

/// The last known value of a topic as of time `t`, after any sequence of
/// recordings into an empty store, is the value of the call with the greatest
/// time at most `t` (the later call where several share that time), or none
/// when no call for the topic has a time at most `t`.
pub proof fn lemma_latest_call_wins(ops: Seq<(Seq<char>, u64, ValueModel)>, k: Seq<char>, t: u64)
    ensures
        value_at_or_before(replay(ops), k, t) == deciding_value(ops, k, t),
{
    let s = replay(ops);
    lemma_replay_contents(ops, k, t);
    if exists|i: int| is_deciding_call(ops, k, t, i) {
        let i = choose|i: int| is_deciding_call(ops, k, t, i);
        let ti = ops[i].1;
        lemma_replay_contents(ops, k, ti);
        assert(is_last_call(ops, k, ti, i));
        let m = s[k];
        assert forall|k2: u64| #[trigger] m.contains_key(k2) && k2 <= t implies k2 <= ti by {
            lemma_replay_contents(ops, k, k2);
            let j = choose|j: int| 0 <= j < ops.len() && #[trigger] ops[j].0 == k && ops[j].1 == k2;
        }
        assert(is_latest(m, t, ti));
        let c = choose|c: u64| is_latest(m, t, c);
        assert(c == ti);
    } else {
        if s.contains_key(k) {
            let m = s[k];
            if exists|c: u64| is_latest(m, t, c) {
                let c = choose|c: u64| is_latest(m, t, c);
                lemma_replay_contents(ops, k, c);
                let i = choose|i: int| is_last_call(ops, k, c, i);
                assert forall|j: int|
                    0 <= j < ops.len() && #[trigger] ops[j].0 == k && ops[j].1 <= t implies ops[j].1
                    < ops[i].1 || (ops[j].1 == ops[i].1 && j <= i) by {
                    lemma_replay_contents(ops, k, ops[j].1);
                }
                assert(is_deciding_call(ops, k, t, i));
            }
        }
    }
}

} // verus!

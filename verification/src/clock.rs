//! Vector clocks: a map from peer id to counter, kept as a list sorted by
//! peer id so that every clock has a single canonical form.
//!
//! - `tick` increments the local peer's counter,
//! - `merge` takes the element-wise maximum,
//! - `compare` decides whether one clock happened before, after, equal to,
//!   or concurrently with another (absent peers count as 0).

use vstd::prelude::*;
use crate::text::{key_lt, lemma_key_lt_irreflexive, lemma_key_lt_transitive, compare_keys, KeyOrder};

verus! {

broadcast use vstd::seq::group_seq_axioms;

/// One peer's counter.
#[derive(Debug)]
pub struct ClockEntry {
    pub peer: String,
    pub counter: u64,
}

impl Clone for ClockEntry {
    fn clone(&self) -> (r: Self)
        ensures
            r == *self,
    {
        ClockEntry { peer: self.peer.clone(), counter: self.counter }
    }
}

/// A vector clock: counters per peer, kept in ascending peer order.
#[derive(Debug)]
pub struct VectorClock {
    entries: Vec<ClockEntry>,
}

impl View for VectorClock {
    type V = Seq<(Seq<char>, u64)>;

    closed spec fn view(&self) -> Seq<(Seq<char>, u64)> {
        self.entries@.map_values(|e: ClockEntry| (e.peer@, e.counter))
    }
}

/// Peers strictly ascending: the canonical form of a clock.
pub open spec fn clock_wf(s: Seq<(Seq<char>, u64)>) -> bool {
    forall|i: int, j: int| 0 <= i < j < s.len() ==> key_lt(#[trigger] s[i].0, #[trigger] s[j].0)
}

/// Whether the clock holds an entry for `k`.
pub open spec fn has_peer(s: Seq<(Seq<char>, u64)>, k: Seq<char>) -> bool {
    exists|i: int| 0 <= i < s.len() && #[trigger] s[i].0 == k
}

/// The counter of `k` in the clock, 0 where it holds none.
pub open spec fn counter(s: Seq<(Seq<char>, u64)>, k: Seq<char>) -> u64
    decreases s.len(),
{
    if s.len() == 0 {
        0
    } else if s.last().0 == k {
        s.last().1
    } else {
        counter(s.drop_last(), k)
    }
}

/// Every counter of `a` is at most the matching counter of `b`.
pub open spec fn clock_le(a: Seq<(Seq<char>, u64)>, b: Seq<(Seq<char>, u64)>) -> bool {
    forall|k: Seq<char>| counter(a, k) <= counter(b, k)
}

pub open spec fn max_u64(x: u64, y: u64) -> u64 {
    if x >= y {
        x
    } else {
        y
    }
}

/// What `merge` yields: the peers of both, each with the larger counter.
pub open spec fn is_merge_of(
    r: Seq<(Seq<char>, u64)>,
    a: Seq<(Seq<char>, u64)>,
    b: Seq<(Seq<char>, u64)>,
) -> bool {
    &&& clock_wf(r)
    &&& forall|k: Seq<char>| #[trigger] has_peer(r, k) == (has_peer(a, k) || has_peer(b, k))
    &&& forall|k: Seq<char>| #[trigger] counter(r, k) == max_u64(counter(a, k), counter(b, k))
}

/// What `tick` yields: the peer's counter one higher, all else unchanged.
pub open spec fn is_tick_of(r: Seq<(Seq<char>, u64)>, c: Seq<(Seq<char>, u64)>, peer: Seq<char>) -> bool {
    &&& clock_wf(r)
    &&& forall|k: Seq<char>| #[trigger] has_peer(r, k) == (has_peer(c, k) || k == peer)
    &&& counter(r, peer) == counter(c, peer) + 1
    &&& forall|k: Seq<char>| k != peer ==> #[trigger] counter(r, k) == counter(c, k)
}

/// Comparison outcome between two vector clocks.
#[derive(Debug, PartialEq, Eq, Structural, Clone, Copy)]
pub enum ClockOrdering {
    /// a happened strictly before b (a < b)
    Before,
    /// a happened strictly after b (a > b)
    After,
    /// a and b are identical (a == b)
    Equal,
    /// a and b are concurrent (neither before nor after)
    Concurrent,
}

/// The outcome `compare` gives for two clocks.
pub open spec fn clock_ordering(a: Seq<(Seq<char>, u64)>, b: Seq<(Seq<char>, u64)>) -> ClockOrdering {
    if clock_le(a, b) && clock_le(b, a) {
        ClockOrdering::Equal
    } else if clock_le(a, b) {
        ClockOrdering::Before
    } else if clock_le(b, a) {
        ClockOrdering::After
    } else {
        ClockOrdering::Concurrent
    }
}

pub proof fn lemma_wf_distinct(s: Seq<(Seq<char>, u64)>, i: int, j: int)
    requires
        clock_wf(s),
        0 <= i < s.len(),
        0 <= j < s.len(),
        i != j,
    ensures
        s[i].0 != s[j].0,
{
    if i < j {
        lemma_key_lt_irreflexive(s[i].0);
    } else {
        lemma_key_lt_irreflexive(s[j].0);
    }
}

pub proof fn lemma_counter_at(s: Seq<(Seq<char>, u64)>, i: int)
    requires
        clock_wf(s),
        0 <= i < s.len(),
    ensures
        counter(s, s[i].0) == s[i].1,
    decreases s.len(),
{
    if i != s.len() - 1 {
        lemma_wf_distinct(s, i, s.len() - 1);
        assert(clock_wf(s.drop_last()));
        lemma_counter_at(s.drop_last(), i);
    }
}

pub proof fn lemma_counter_absent(s: Seq<(Seq<char>, u64)>, k: Seq<char>)
    requires
        !has_peer(s, k),
    ensures
        counter(s, k) == 0,
    decreases s.len(),
{
    if s.len() > 0 {
        assert(s[s.len() - 1].0 != k);
        assert(!has_peer(s.drop_last(), k)) by {
            if has_peer(s.drop_last(), k) {
                let i = choose|i: int| 0 <= i < s.drop_last().len() && #[trigger] s.drop_last()[i].0 == k;
                assert(s[i].0 == k);
            }
        }
        lemma_counter_absent(s.drop_last(), k);
    }
}

/// The counter of `k` in a well-formed clock, by cases.
pub proof fn lemma_counter(s: Seq<(Seq<char>, u64)>, k: Seq<char>)
    requires
        clock_wf(s),
    ensures
        has_peer(s, k) ==> exists|i: int| 0 <= i < s.len() && s[i].0 == k && counter(s, k) == s[i].1,
        !has_peer(s, k) ==> counter(s, k) == 0,
{
    if has_peer(s, k) {
        let i = choose|i: int| 0 <= i < s.len() && #[trigger] s[i].0 == k;
        lemma_counter_at(s, i);
    } else {
        lemma_counter_absent(s, k);
    }
}

impl VectorClock {
    /// An empty clock.
    pub fn new() -> (r: Self)
        ensures
            r@ == Seq::<(Seq<char>, u64)>::empty(),
            r.wf(),
    {
        let r = VectorClock { entries: Vec::new() };
        assert(r@ =~= Seq::<(Seq<char>, u64)>::empty());
        r
    }

    pub open spec fn wf(&self) -> bool {
        clock_wf(self@)
    }

    /// Number of peers the clock holds.
    pub fn len(&self) -> (r: usize)
        ensures
            r == self@.len(),
    {
        self.entries.len()
    }

    /// The peer and counter at position `i` in ascending peer order.
    pub fn entry_at(&self, i: usize) -> (r: (&str, u64))
        requires
            i < self@.len(),
        ensures
            r.0@ == self@[i as int].0,
            r.1 == self@[i as int].1,
    {
        (self.entries[i].peer.as_str(), self.entries[i].counter)
    }

    /// Position of `peer` in the clock, if present.
    pub fn find(&self, peer: &str) -> (r: Option<usize>)
        ensures
            r is None ==> !has_peer(self@, peer@),
            r matches Some(i) ==> i < self@.len() && self@[i as int].0 == peer@,
    {
        let mut i: usize = 0;
        while i < self.entries.len()
            invariant
                i <= self@.len(),
                forall|j: int| 0 <= j < i ==> self@[j].0 != peer@,
            decreases self@.len() - i,
        {
            if compare_keys(self.entries[i].peer.as_str(), peer) == KeyOrder::Equal {
                return Some(i);
            }
            i = i + 1;
        }
        assert(!has_peer(self@, peer@)) by {
            if has_peer(self@, peer@) {
                let j = choose|j: int| 0 <= j < self@.len() && #[trigger] self@[j].0 == peer@;
                assert(self@[j].0 == peer@);
            }
        }
        None
    }

    /// The counter of `peer`, 0 where the clock holds none.
    pub fn get(&self, peer: &str) -> (r: u64)
        requires
            self.wf(),
        ensures
            r == counter(self@, peer@),
    {
        proof {
            lemma_counter(self@, peer@);
        }
        match self.find(peer) {
            Some(i) => {
                proof {
                    lemma_counter_at(self@, i as int);
                }
                self.entries[i].counter
            },
            None => 0,
        }
    }

    /// Inserts a peer that the clock does not hold, at its place in peer order.
    fn insert_new(&mut self, peer: &str, value: u64)
        requires
            old(self).wf(),
            !has_peer(old(self)@, peer@),
        ensures
            final(self).wf(),
            forall|k: Seq<char>| #[trigger]
                has_peer(final(self)@, k) == (has_peer(old(self)@, k) || k == peer@),
            counter(final(self)@, peer@) == value,
            forall|k: Seq<char>| k != peer@ ==> #[trigger] counter(final(self)@, k) == counter(old(self)@, k),
    {
        let ghost s = self@;
        let mut i: usize = 0;
        while i < self.entries.len()
            invariant
                self@ == s,
                i <= s.len(),
                !has_peer(s, peer@),
                forall|j: int| 0 <= j < i ==> key_lt(#[trigger] s[j].0, peer@),
            ensures
                i <= s.len(),
                forall|j: int| 0 <= j < i ==> key_lt(#[trigger] s[j].0, peer@),
                i < s.len() ==> key_lt(peer@, s[i as int].0),
            decreases s.len() - i,
        {
            let c = compare_keys(peer, self.entries[i].peer.as_str());
            if c == KeyOrder::Less {
                break;
            }
            proof {
                assert(s[i as int].0 != peer@);
            }
            i = i + 1;
        }
        let ghost at = i as int;
        let e = ClockEntry { peer: peer.to_owned(), counter: value };
        self.entries.insert(i, e);
        let ghost r = self@;
        assert(r =~= s.insert(at, (peer@, value)));
        assert forall|x: int, y: int| 0 <= x < y < r.len() implies key_lt(#[trigger] r[x].0, #[trigger] r[y].0) by {
            if y < at {
            } else if y == at {
            } else if x < at {
                assert(key_lt(s[x].0, peer@));
                if at < s.len() {
                    lemma_key_lt_transitive(s[x].0, peer@, s[at].0);
                    if y - 1 > at {
                        lemma_key_lt_transitive(s[x].0, s[at].0, s[y - 1].0);
                    }
                }
            } else if x == at {
                if y - 1 > at {
                    lemma_key_lt_transitive(peer@, s[at].0, s[y - 1].0);
                }
            } else {
                assert(r[x] == s[x - 1]);
                assert(r[y] == s[y - 1]);
            }
        }
        assert forall|k: Seq<char>| #[trigger] has_peer(r, k) == (has_peer(s, k) || k == peer@) by {
            if has_peer(s, k) {
                let j = choose|j: int| 0 <= j < s.len() && #[trigger] s[j].0 == k;
                if j < at {
                    assert(r[j].0 == k);
                } else {
                    assert(r[j + 1].0 == k);
                }
            }
            if k == peer@ {
                assert(r[at].0 == k);
            }
            if has_peer(r, k) {
                let j = choose|j: int| 0 <= j < r.len() && #[trigger] r[j].0 == k;
                if j < at {
                    assert(s[j].0 == k);
                } else if j > at {
                    assert(s[j - 1].0 == k);
                }
            }
        }
        proof {
            lemma_counter_at(r, at);
        }
        assert forall|k: Seq<char>| k != peer@ implies #[trigger] counter(r, k) == counter(s, k) by {
            lemma_counter(r, k);
            lemma_counter(s, k);
            if has_peer(s, k) {
                let j = choose|j: int| 0 <= j < s.len() && s[j].0 == k && counter(s, k) == s[j].1;
                if j < at {
                    lemma_counter_at(r, j);
                } else {
                    lemma_counter_at(r, j + 1);
                }
            }
        }
    }

    /// Sets the counter of `peer`, adding the peer where the clock holds none.
    pub fn set(&mut self, peer: &str, value: u64)
        requires
            old(self).wf(),
        ensures
            final(self).wf(),
            forall|k: Seq<char>| #[trigger]
                has_peer(final(self)@, k) == (has_peer(old(self)@, k) || k == peer@),
            counter(final(self)@, peer@) == value,
            forall|k: Seq<char>| k != peer@ ==> #[trigger] counter(final(self)@, k) == counter(old(self)@, k),
    {
        match self.find(peer) {
            Some(i) => {
                let ghost s = self@;
                self.entries[i].counter = value;
                let ghost r = self@;
                assert(r =~= s.update(i as int, (peer@, value)));
                assert(clock_wf(r)) by {
                    assert forall|x: int, y: int| 0 <= x < y < r.len() implies key_lt(#[trigger] r[x].0, #[trigger] r[y].0) by {
                        assert(r[x].0 == s[x].0);
                        assert(r[y].0 == s[y].0);
                    }
                }
                assert forall|k: Seq<char>| #[trigger] has_peer(r, k) == (has_peer(s, k) || k == peer@) by {
                    if has_peer(s, k) {
                        let j = choose|j: int| 0 <= j < s.len() && #[trigger] s[j].0 == k;
                        assert(r[j].0 == k);
                    }
                    if has_peer(r, k) {
                        let j = choose|j: int| 0 <= j < r.len() && #[trigger] r[j].0 == k;
                        assert(s[j].0 == k);
                    }
                }
                proof {
                    lemma_counter_at(r, i as int);
                }
                assert forall|k: Seq<char>| k != peer@ implies #[trigger] counter(r, k) == counter(s, k) by {
                    lemma_counter(r, k);
                    lemma_counter(s, k);
                    if has_peer(s, k) {
                        let j = choose|j: int| 0 <= j < s.len() && s[j].0 == k && counter(s, k) == s[j].1;
                        lemma_counter_at(r, j);
                    }
                }
            },
            None => {
                self.insert_new(peer, value);
            },
        }
    }
}

impl Clone for VectorClock {
    fn clone(&self) -> (r: Self)
        ensures
            r@ == self@,
    {
        let r = VectorClock { entries: self.entries.clone() };
        assert(r@ =~= self@) by {
            assert forall|i: int| 0 <= i < self.entries@.len() implies r.entries@[i] == self.entries@[i] by {
                assert(cloned::<ClockEntry>(self.entries[i], r.entries[i]));
            }
        }
        r
    }
}


/// Increment the local peer's counter in the given clock.
/// Called whenever this node produces a new event (create order, cancel, etc.).
pub fn tick(clock: &mut VectorClock, local_peer: &str)
    requires
        old(clock).wf(),
        counter(old(clock)@, local_peer@) < u64::MAX,
    ensures
        final(clock).wf(),
        is_tick_of(final(clock)@, old(clock)@, local_peer@),
{
    let v = clock.get(local_peer);
    clock.set(local_peer, v + 1);
}

proof fn lemma_take_step(s: Seq<(Seq<char>, u64)>, j: int, k: Seq<char>)
    requires
        0 <= j < s.len(),
    ensures
        has_peer(s.take(j + 1), k) == (has_peer(s.take(j), k) || s[j].0 == k),
        counter(s.take(j + 1), k) == (if s[j].0 == k {
            s[j].1
        } else {
            counter(s.take(j), k)
        }),
{
    let t = s.take(j + 1);
    assert(t.drop_last() =~= s.take(j));
    if has_peer(t, k) {
        let i = choose|i: int| 0 <= i < t.len() && #[trigger] t[i].0 == k;
        if i < j {
            assert(s.take(j)[i].0 == k);
        }
    }
    if has_peer(s.take(j), k) {
        let i = choose|i: int| 0 <= i < j && #[trigger] s.take(j)[i].0 == k;
        assert(t[i].0 == k);
    }
    if s[j].0 == k {
        assert(t[j].0 == k);
    }
}

/// Merge two vector clocks into a new clock using element-wise max.
/// Called when we receive an event from a peer: our clock becomes
/// merge(our_clock, event_clock).
pub fn merge(a: &VectorClock, b: &VectorClock) -> (r: VectorClock)
    requires
        a.wf(),
        b.wf(),
    ensures
        is_merge_of(r@, a@, b@),
        r.wf(),
{
    let mut out = a.clone();
    let n = b.len();
    let mut j: usize = 0;
    assert(b@.take(0) =~= Seq::<(Seq<char>, u64)>::empty());
    assert forall|k: Seq<char>| #[trigger] counter(b@.take(0), k) == 0 by {}
    while j < n
        invariant
            n == b@.len(),
            j <= n,
            a.wf(),
            b.wf(),
            out.wf(),
            forall|k: Seq<char>| #[trigger]
                has_peer(out@, k) == (has_peer(a@, k) || has_peer(b@.take(j as int), k)),
            forall|k: Seq<char>| #[trigger]
                counter(out@, k) == max_u64(counter(a@, k), counter(b@.take(j as int), k)),
        decreases n - j,
    {
        let (k, v) = b.entry_at(j);
        let cur = out.get(k);
        let m = if v > cur {
            v
        } else {
            cur
        };
        let ghost o = out@;
        out.set(k, m);
        proof {
            assert(!has_peer(b@.take(j as int), k@)) by {
                if has_peer(b@.take(j as int), k@) {
                    let i = choose|i: int| 0 <= i < j && #[trigger] b@.take(j as int)[i].0 == k@;
                    lemma_wf_distinct(b@, i, j as int);
                }
            }
            lemma_counter_absent(b@.take(j as int), k@);
            assert forall|x: Seq<char>| #[trigger]
                has_peer(out@, x) == (has_peer(a@, x) || has_peer(b@.take(j + 1), x)) by {
                lemma_take_step(b@, j as int, x);
            }
            assert forall|x: Seq<char>| #[trigger]
                counter(out@, x) == max_u64(counter(a@, x), counter(b@.take(j + 1), x)) by {
                lemma_take_step(b@, j as int, x);
            }
        }
        j = j + 1;
    }
    assert(b@.take(n as int) =~= b@);
    out
}

/// Compare two vector clocks.
/// This is the core operation used by the CRDT merge to detect conflicts.
pub fn compare(a: &VectorClock, b: &VectorClock) -> (r: ClockOrdering)
    requires
        a.wf(),
        b.wf(),
    ensures
        r == clock_ordering(a@, b@),
{
    let mut a_less = false;
    let mut a_greater = false;
    let na = a.len();
    let mut i: usize = 0;
    while i < na
        invariant
            na == a@.len(),
            i <= na,
            a.wf(),
            b.wf(),
            a_less ==> exists|k: Seq<char>| counter(a@, k) < counter(b@, k),
            a_greater ==> exists|k: Seq<char>| counter(a@, k) > counter(b@, k),
            !a_less ==> forall|m: int| 0 <= m < i ==> counter(a@, #[trigger] a@[m].0) >= counter(b@, a@[m].0),
            !a_greater ==> forall|m: int| 0 <= m < i ==> counter(a@, #[trigger] a@[m].0) <= counter(b@, a@[m].0),
        decreases na - i,
    {
        let (k, av) = a.entry_at(i);
        let bv = b.get(k);
        proof {
            lemma_counter_at(a@, i as int);
        }
        if av < bv {
            a_less = true;
        } else if av > bv {
            a_greater = true;
        }
        if a_less && a_greater {
            return ClockOrdering::Concurrent;
        }
        i = i + 1;
    }
    let nb = b.len();
    let mut i: usize = 0;
    while i < nb
        invariant
            na == a@.len(),
            nb == b@.len(),
            i <= nb,
            a.wf(),
            b.wf(),
            a_less ==> exists|k: Seq<char>| counter(a@, k) < counter(b@, k),
            a_greater ==> exists|k: Seq<char>| counter(a@, k) > counter(b@, k),
            !a_less ==> forall|m: int| 0 <= m < na ==> counter(a@, #[trigger] a@[m].0) >= counter(b@, a@[m].0),
            !a_greater ==> forall|m: int| 0 <= m < na ==> counter(a@, #[trigger] a@[m].0) <= counter(b@, a@[m].0),
            !a_less ==> forall|m: int| 0 <= m < i ==> counter(a@, #[trigger] b@[m].0) >= counter(b@, b@[m].0),
            !a_greater ==> forall|m: int| 0 <= m < i ==> counter(a@, #[trigger] b@[m].0) <= counter(b@, b@[m].0),
        decreases nb - i,
    {
        let (k, bv) = b.entry_at(i);
        let av = a.get(k);
        proof {
            lemma_counter_at(b@, i as int);
        }
        if av < bv {
            a_less = true;
        } else if av > bv {
            a_greater = true;
        }
        if a_less && a_greater {
            return ClockOrdering::Concurrent;
        }
        i = i + 1;
    }
    proof {
        assert forall|k: Seq<char>| !a_less implies #[trigger] counter(b@, k) <= counter(a@, k) by {
            lemma_counter(a@, k);
            lemma_counter(b@, k);
        }
        assert forall|k: Seq<char>| !a_greater implies #[trigger] counter(a@, k) <= counter(b@, k) by {
            lemma_counter(a@, k);
            lemma_counter(b@, k);
        }
    }
    if !a_less && !a_greater {
        ClockOrdering::Equal
    } else if a_less && !a_greater {
        ClockOrdering::Before
    } else if !a_less && a_greater {
        ClockOrdering::After
    } else {
        ClockOrdering::Concurrent
    }
}


proof fn lemma_last_is_greatest(s: Seq<(Seq<char>, u64)>, k: Seq<char>)
    requires
        clock_wf(s),
        s.len() > 0,
        has_peer(s, k),
        k != s.last().0,
    ensures
        key_lt(k, s.last().0),
{
    let i = choose|i: int| 0 <= i < s.len() && #[trigger] s[i].0 == k;
    assert(i != s.len() - 1);
}

proof fn lemma_drop_last_peers(s: Seq<(Seq<char>, u64)>, k: Seq<char>)
    requires
        clock_wf(s),
        s.len() > 0,
    ensures
        has_peer(s.drop_last(), k) == (has_peer(s, k) && k != s.last().0),
        k != s.last().0 ==> counter(s.drop_last(), k) == counter(s, k),
        clock_wf(s.drop_last()),
{
    let d = s.drop_last();
    if has_peer(d, k) {
        let i = choose|i: int| 0 <= i < d.len() && #[trigger] d[i].0 == k;
        assert(s[i].0 == k);
        lemma_wf_distinct(s, i, s.len() - 1);
    }
    if has_peer(s, k) && k != s.last().0 {
        let i = choose|i: int| 0 <= i < s.len() && #[trigger] s[i].0 == k;
        assert(d[i].0 == k);
    }
}

/// Two well-formed clocks with the same peers and counters are the same clock:
/// the sorted form is canonical.
pub proof fn lemma_clock_canonical(s: Seq<(Seq<char>, u64)>, t: Seq<(Seq<char>, u64)>)
    requires
        clock_wf(s),
        clock_wf(t),
        forall|k: Seq<char>| #[trigger] has_peer(s, k) == has_peer(t, k),
        forall|k: Seq<char>| #[trigger] counter(s, k) == counter(t, k),
    ensures
        s == t,
    decreases s.len(),
{
    if s.len() == 0 {
        if t.len() > 0 {
            assert(has_peer(t, t[0].0));
            assert(has_peer(s, t[0].0));
        }
        assert(s =~= t);
    } else {
        assert(has_peer(s, s.last().0));
        assert(t.len() > 0);
        assert(has_peer(t, t.last().0));
        let ks = s.last().0;
        let kt = t.last().0;
        if ks != kt {
            lemma_last_is_greatest(s, kt);
            lemma_last_is_greatest(t, ks);
            lemma_key_lt_transitive(kt, ks, kt);
            lemma_key_lt_irreflexive(kt);
        }
        lemma_counter_at(s, s.len() - 1);
        lemma_counter_at(t, t.len() - 1);
        assert forall|k: Seq<char>| #[trigger] has_peer(s.drop_last(), k) == has_peer(t.drop_last(), k) by {
            lemma_drop_last_peers(s, k);
            lemma_drop_last_peers(t, k);
        }
        assert forall|k: Seq<char>| #[trigger] counter(s.drop_last(), k) == counter(t.drop_last(), k) by {
            lemma_drop_last_peers(s, k);
            lemma_drop_last_peers(t, k);
            if k == ks {
                lemma_counter_absent(s.drop_last(), k);
                lemma_counter_absent(t.drop_last(), k);
            }
        }
        lemma_drop_last_peers(s, ks);
        lemma_drop_last_peers(t, ks);
        lemma_clock_canonical(s.drop_last(), t.drop_last());
        assert(s =~= s.drop_last().push(s.last()));
        assert(t =~= t.drop_last().push(t.last()));
    }
}

/// Merging is commutative: `merge(a, b)` and `merge(b, a)` are the same clock.
pub proof fn law_merge_commutative(
    a: Seq<(Seq<char>, u64)>,
    b: Seq<(Seq<char>, u64)>,
    ab: Seq<(Seq<char>, u64)>,
    ba: Seq<(Seq<char>, u64)>,
)
    requires
        is_merge_of(ab, a, b),
        is_merge_of(ba, b, a),
    ensures
        ab == ba,
{
    assert forall|k: Seq<char>| #[trigger] has_peer(ab, k) == has_peer(ba, k) by {
        assert(has_peer(ab, k) == (has_peer(a, k) || has_peer(b, k)));
        assert(has_peer(ba, k) == (has_peer(b, k) || has_peer(a, k)));
    }
    assert forall|k: Seq<char>| #[trigger] counter(ab, k) == counter(ba, k) by {
        assert(counter(ab, k) == max_u64(counter(a, k), counter(b, k)));
        assert(counter(ba, k) == max_u64(counter(b, k), counter(a, k)));
    }
    lemma_clock_canonical(ab, ba);
}

/// Merging is associative: `merge(merge(a, b), c)` equals `merge(a, merge(b, c))`.
pub proof fn law_merge_associative(
    a: Seq<(Seq<char>, u64)>,
    b: Seq<(Seq<char>, u64)>,
    c: Seq<(Seq<char>, u64)>,
    ab: Seq<(Seq<char>, u64)>,
    ab_c: Seq<(Seq<char>, u64)>,
    bc: Seq<(Seq<char>, u64)>,
    a_bc: Seq<(Seq<char>, u64)>,
)
    requires
        is_merge_of(ab, a, b),
        is_merge_of(ab_c, ab, c),
        is_merge_of(bc, b, c),
        is_merge_of(a_bc, a, bc),
    ensures
        ab_c == a_bc,
{
    assert forall|k: Seq<char>| #[trigger] has_peer(ab_c, k) == has_peer(a_bc, k) by {
        assert(has_peer(ab_c, k) == (has_peer(ab, k) || has_peer(c, k)));
        assert(has_peer(ab, k) == (has_peer(a, k) || has_peer(b, k)));
        assert(has_peer(a_bc, k) == (has_peer(a, k) || has_peer(bc, k)));
        assert(has_peer(bc, k) == (has_peer(b, k) || has_peer(c, k)));
    }
    assert forall|k: Seq<char>| #[trigger] counter(ab_c, k) == counter(a_bc, k) by {
        assert(counter(ab_c, k) == max_u64(counter(ab, k), counter(c, k)));
        assert(counter(ab, k) == max_u64(counter(a, k), counter(b, k)));
        assert(counter(a_bc, k) == max_u64(counter(a, k), counter(bc, k)));
        assert(counter(bc, k) == max_u64(counter(b, k), counter(c, k)));
    }
    lemma_clock_canonical(ab_c, a_bc);
}

/// Merging a clock with itself gives the same clock back.
pub proof fn law_merge_idempotent(a: Seq<(Seq<char>, u64)>, aa: Seq<(Seq<char>, u64)>)
    requires
        clock_wf(a),
        is_merge_of(aa, a, a),
    ensures
        aa == a,
{
    assert forall|k: Seq<char>| #[trigger] counter(aa, k) == counter(a, k) by {
        assert(counter(aa, k) == max_u64(counter(a, k), counter(a, k)));
    }
    lemma_clock_canonical(aa, a);
}

/// The merge is the least upper bound of its inputs: it dominates both, and
/// any clock that dominates both dominates it.
pub proof fn law_merge_least_upper_bound(
    a: Seq<(Seq<char>, u64)>,
    b: Seq<(Seq<char>, u64)>,
    m: Seq<(Seq<char>, u64)>,
    u: Seq<(Seq<char>, u64)>,
)
    requires
        is_merge_of(m, a, b),
    ensures
        clock_le(a, m),
        clock_le(b, m),
        clock_le(a, u) && clock_le(b, u) ==> clock_le(m, u),
{
    assert forall|k: Seq<char>| #[trigger] counter(a, k) <= counter(m, k) by {
        assert(counter(m, k) == max_u64(counter(a, k), counter(b, k)));
    }
    assert forall|k: Seq<char>| #[trigger] counter(b, k) <= counter(m, k) by {
        assert(counter(m, k) == max_u64(counter(a, k), counter(b, k)));
    }
    if clock_le(a, u) && clock_le(b, u) {
        assert forall|k: Seq<char>| #[trigger] counter(m, k) <= counter(u, k) by {
            assert(counter(m, k) == max_u64(counter(a, k), counter(b, k)));
            assert(counter(a, k) <= counter(u, k));
            assert(counter(b, k) <= counter(u, k));
        }
    }
}

/// Comparison is antisymmetric: swapping the clocks swaps Before and After,
/// and keeps Equal and Concurrent.
pub proof fn law_compare_antisymmetric(a: Seq<(Seq<char>, u64)>, b: Seq<(Seq<char>, u64)>)
    ensures
        (clock_ordering(a, b) == ClockOrdering::Before) == (clock_ordering(b, a) == ClockOrdering::After),
        (clock_ordering(a, b) == ClockOrdering::Equal) == (clock_ordering(b, a) == ClockOrdering::Equal),
        (clock_ordering(a, b) == ClockOrdering::Concurrent) == (clock_ordering(b, a)
            == ClockOrdering::Concurrent),
{
}

/// Every clock compares Equal to itself.
pub proof fn law_compare_reflexive(a: Seq<(Seq<char>, u64)>)
    ensures
        clock_ordering(a, a) == ClockOrdering::Equal,
{
}

/// Clocks compare Equal exactly when every peer has the same counter in both
/// (a peer absent from one clock counts as 0).
pub proof fn law_compare_equal_counters(a: Seq<(Seq<char>, u64)>, b: Seq<(Seq<char>, u64)>)
    ensures
        (clock_ordering(a, b) == ClockOrdering::Equal) == (forall|k: Seq<char>| #[trigger]
            counter(a, k) == counter(b, k)),
{
    if forall|k: Seq<char>| #[trigger] counter(a, k) == counter(b, k) {
        assert(clock_le(a, b));
        assert(clock_le(b, a));
    }
    if clock_ordering(a, b) == ClockOrdering::Equal {
        assert forall|k: Seq<char>| #[trigger] counter(a, k) == counter(b, k) by {
            assert(counter(a, k) <= counter(b, k));
            assert(counter(b, k) <= counter(a, k));
        }
    }
}

/// A clock never comes after what it is merged into.
pub proof fn law_compare_with_merge(
    a: Seq<(Seq<char>, u64)>,
    b: Seq<(Seq<char>, u64)>,
    m: Seq<(Seq<char>, u64)>,
)
    requires
        is_merge_of(m, a, b),
    ensures
        clock_ordering(a, m) == ClockOrdering::Before || clock_ordering(a, m) == ClockOrdering::Equal,
{
    law_merge_least_upper_bound(a, b, m, m);
}

/// A tick moves the clock strictly forward: the old clock happened before the new one.
pub proof fn law_tick_advances(old_clock: Seq<(Seq<char>, u64)>, new_clock: Seq<(Seq<char>, u64)>, peer: Seq<char>)
    requires
        counter(new_clock, peer) == counter(old_clock, peer) + 1,
        forall|k: Seq<char>| k != peer ==> #[trigger] counter(new_clock, k) == counter(old_clock, k),
    ensures
        clock_ordering(old_clock, new_clock) == ClockOrdering::Before,
{
    assert forall|k: Seq<char>| #[trigger] counter(old_clock, k) <= counter(new_clock, k) by {
        if k != peer {
        }
    }
    assert(!clock_le(new_clock, old_clock)) by {
        assert(counter(new_clock, peer) > counter(old_clock, peer));
    }
}

/// The clock that `tick` produces: the canonical clock with the peer's
/// counter one higher.
pub open spec fn tick_result(c: Seq<(Seq<char>, u64)>, peer: Seq<char>) -> Seq<(Seq<char>, u64)> {
    choose|r: Seq<(Seq<char>, u64)>| is_tick_of(r, c, peer)
}

/// A tick has exactly one outcome.
pub proof fn lemma_tick_result(r: Seq<(Seq<char>, u64)>, c: Seq<(Seq<char>, u64)>, peer: Seq<char>)
    requires
        is_tick_of(r, c, peer),
    ensures
        tick_result(c, peer) == r,
{
    let t = tick_result(c, peer);
    assert(is_tick_of(t, c, peer));
    assert forall|k: Seq<char>| #[trigger] has_peer(t, k) == has_peer(r, k) by {
        assert(has_peer(t, k) == (has_peer(c, k) || k == peer));
        assert(has_peer(r, k) == (has_peer(c, k) || k == peer));
    }
    assert forall|k: Seq<char>| #[trigger] counter(t, k) == counter(r, k) by {
        if k != peer {
            assert(counter(t, k) == counter(c, k));
            assert(counter(r, k) == counter(c, k));
        }
    }
    lemma_clock_canonical(t, r);
}

} // verus!

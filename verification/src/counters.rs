//! Per-node bookkeeping of a cursor and of a run: visit and loop counters,
//! the caps that stop runaway loops, and stagnation detection over output
//! hashes.

use vstd::prelude::*;

use crate::text::str_eq;
use vstd::string::StringSliceAdditionalSpecFns;

verus! {

/// Whether the entry at an index of `s` has the key `k`.
pub open spec fn key_pred<V>(s: Seq<(Seq<char>, V)>, k: Seq<char>) -> spec_fn(int) -> bool {
    |i: int| s[i].0 == k
}

/// The first index in `0..s.len()` whose key is `k`, or -1.
pub open spec fn first_key_index<V>(s: Seq<(Seq<char>, V)>, k: Seq<char>) -> int {
    crate::routing::first_idx(key_pred(s, k), 0, s.len() as int)
}

/// The value stored under `k` in an association list (its first entry).
pub open spec fn key_lookup<V>(s: Seq<(Seq<char>, V)>, k: Seq<char>) -> Option<V> {
    let i = first_key_index(s, k);
    if i >= 0 {
        Some(s[i].1)
    } else {
        None
    }
}

/// Overwriting the first entry of a key sets that key and leaves the others.
pub proof fn lemma_key_update_at<V>(ov: Seq<(Seq<char>, V)>, i: int, key: Seq<char>, v: V, k: Seq<char>)
    requires
        0 <= i < ov.len(),
        first_key_index(ov, key) == i,
    ensures
        key_lookup(ov.update(i, (key, v)), k) == (if k == key {
            Some(v)
        } else {
            key_lookup(ov, k)
        }),
{
    let nv = ov.update(i, (key, v));
    let po = key_pred(ov, k);
    let pn = key_pred(nv, k);
    crate::routing::lemma_first_idx(key_pred(ov, key), 0, ov.len() as int);
    assert forall|j: int| #![trigger po(j)] #![trigger pn(j)] 0 <= j < nv.len() implies po(j) == pn(j) by {
        if j != i {
            assert(nv[j] == ov[j]);
        }
    }
    lemma_same_pred_first(po, pn, nv.len() as int);
    crate::routing::lemma_first_idx(po, 0, ov.len() as int);
    let r = first_key_index(nv, k);
    if r >= 0 && r != i {
        assert(nv[r] == ov[r]);
    }
    if k != key {
        assert(!po(i));
    }
}

/// Appending an entry for a key the list lacks gives that key its value and
/// leaves the other keys' values alone.
pub proof fn lemma_key_push<V>(ov: Seq<(Seq<char>, V)>, key: Seq<char>, v: V, k: Seq<char>)
    requires
        first_key_index(ov, key) == -1,
    ensures
        key_lookup(ov.push((key, v)), k) == (if k == key {
            Some(v)
        } else {
            key_lookup(ov, k)
        }),
{
    let nv = ov.push((key, v));
    let po = key_pred(ov, k);
    let pn = key_pred(nv, k);
    crate::routing::lemma_first_idx(key_pred(ov, key), 0, ov.len() as int);
    crate::routing::lemma_first_idx(po, 0, ov.len() as int);
    crate::routing::lemma_first_idx(pn, 0, nv.len() as int);
    let ro = first_key_index(ov, k);
    let rn = first_key_index(nv, k);
    assert(ro == crate::routing::first_idx(po, 0, ov.len() as int));
    assert(rn == crate::routing::first_idx(pn, 0, nv.len() as int));
    if ro >= 0 {
        assert(nv[ro] == ov[ro]);
        assert(pn(ro));
        if 0 <= rn < ro {
            assert(nv[rn] == ov[rn]);
            assert(po(rn));
        }
        assert(rn == ro);
    } else {
        if 0 <= rn < ov.len() {
            assert(nv[rn] == ov[rn]);
            assert(po(rn));
        }
        if k == key {
            assert(pn(ov.len() as int));
            assert(rn == ov.len());
        } else {
            assert(!pn(ov.len() as int));
            assert(rn == -1);
        }
    }
}

/// The count stored under `k` in a counter's entries (0 when absent).
pub open spec fn count_in(s: Seq<(Seq<char>, u32)>, k: Seq<char>) -> u32 {
    match key_lookup(s, k) {
        Some(n) => n,
        None => 0,
    }
}

/// A per-node counter, by node id.
#[derive(Debug)]
pub struct Counters {
    entries: Vec<(String, u32)>,
}

impl Counters {
    pub closed spec fn entries_view(&self) -> Seq<(Seq<char>, u32)> {
        count_entries(self.entries@)
    }

    /// The count for `k` (0 when it was never counted).
    pub open spec fn count(&self, k: Seq<char>) -> u32 {
        count_in(self.entries_view(), k)
    }

    /// A copy with the same counts.
    pub fn duplicate(&self) -> (r: Counters)
        ensures
            r.entries_view() == self.entries_view(),
    {
        let mut entries: Vec<(String, u32)> = Vec::new();
        let mut i: usize = 0;
        while i < self.entries.len()
            invariant
                i <= self.entries.len(),
                entries.len() == i,
                forall|j: int|
                    0 <= j < i ==> (#[trigger] entries@[j]).0@ == self.entries@[j].0@ && entries@[j].1
                        == self.entries@[j].1,
            decreases self.entries.len() - i,
        {
            let key = self.entries[i].0.clone();
            entries.push((key, self.entries[i].1));
            i += 1;
        }
        let r = Counters { entries };
        assert(r.entries_view() =~= self.entries_view());
        r
    }

/// Counters with every count at zero.
    pub fn new() -> (r: Counters)
        ensures
            forall|k: Seq<char>| #[trigger] r.count(k) == 0,
            r.entries_view() == Seq::<(Seq<char>, u32)>::empty(),
    {
        let r = Counters { entries: Vec::new() };
        assert(r.entries_view() =~= Seq::<(Seq<char>, u32)>::empty());
        assert forall|k: Seq<char>| #[trigger] r.count(k) == 0 by {
            crate::routing::lemma_first_idx(key_pred(r.entries_view(), k), 0, 0);
        }
        r
    }

    fn find(&self, key: &str) -> (r: Option<usize>)
        ensures
            match r {
                Some(i) => i as int == first_key_index(self.entries_view(), key@) && i < self.entries.len(),
                None => first_key_index(self.entries_view(), key@) == -1,
            },
    {
        let ghost ev = self.entries_view();
        let ghost p = key_pred(ev, key@);
        let mut i: usize = 0;
        while i < self.entries.len()
            invariant
                i <= self.entries.len(),
                ev == self.entries_view(),
                p == key_pred(ev, key@),
                forall|j: int| 0 <= j < i ==> !#[trigger] p(j),
            decreases self.entries.len() - i,
        {
            if str_eq(self.entries[i].0.as_str(), key) {
                proof {
                    assert(p(i as int));
                    crate::routing::lemma_first_idx(p, 0, ev.len() as int);
                    let r = first_key_index(ev, key@);
                    if r != i {
                        if r < i {
                            assert(!p(r));
                        } else {
                            assert(!p(i as int));
                        }
                    }
                }
                return Some(i);
            }
            i += 1;
        }
        proof {
            crate::routing::lemma_first_idx(p, 0, ev.len() as int);
        }
        None
    }

    /// The count for `key`.
    pub fn get(&self, key: &str) -> (r: u32)
        ensures
            r == self.count(key@),
    {
        match self.find(key) {
            Some(i) => self.entries[i].1,
            None => 0,
        }
    }

    /// Adds one to the count for `key` and returns the new count.
    pub fn increment(&mut self, key: &str) -> (r: u32)
        requires
            old(self).count(key@) < u32::MAX,
        ensures
            r == old(self).count(key@) + 1,
            final(self).count(key@) == r,
            forall|k: Seq<char>| k != key@ ==> #[trigger] final(self).count(k) == old(self).count(k),
    {
        let ghost ov = self.entries_view();
        match self.find(key) {
            Some(i) => {
                let n = self.entries[i].1 + 1;
                let name = key.to_owned();
                let ghost oe = self.entries@;
                let ghost tup = (name, n);
                self.entries.set(i, (name, n));
                proof {
                    assert(self.entries@ == oe.update(i as int, tup));
                    assert(self.entries_view() =~= ov.update(i as int, (key@, n)));
                    assert forall|k: Seq<char>| k != key@ implies #[trigger] self.count(k) == old(self).count(k) by {
                        lemma_key_update_at(ov, i as int, key@, n, k);
                    }
                    lemma_key_update_at(ov, i as int, key@, n, key@);
                }
                n
            },
            None => {
                self.entries.push((key.to_owned(), 1));
                proof {
                    assert(self.entries_view() =~= ov.push((key@, 1u32)));
                    assert forall|k: Seq<char>| k != key@ implies #[trigger] self.count(k) == old(self).count(k) by {
                        lemma_key_push(ov, key@, 1u32, k);
                    }
                    lemma_key_push(ov, key@, 1u32, key@);
                }
                1
            },
        }
    }
}

/// Two predicates that agree on `0..n` have the same first index.
pub proof fn lemma_same_pred_first(p: spec_fn(int) -> bool, q: spec_fn(int) -> bool, n: int)
    requires
        0 <= n,
        forall|j: int| #![trigger p(j)] #![trigger q(j)] 0 <= j < n ==> p(j) == q(j),
    ensures
        crate::routing::first_idx(p, 0, n) == crate::routing::first_idx(q, 0, n),
{
    crate::routing::lemma_first_idx(p, 0, n);
    crate::routing::lemma_first_idx(q, 0, n);
    let a = crate::routing::first_idx(p, 0, n);
    let b = crate::routing::first_idx(q, 0, n);
    if a != b {
        if a == -1 {
            assert(p(b));
        } else if b == -1 {
            assert(q(a));
        } else if a < b {
            assert(q(a));
        } else {
            assert(p(b));
        }
    }
}

/// The outcome of counting a visit before a node runs.
#[derive(Debug, Clone, Copy, PartialEq, Eq, Structural)]
pub enum VisitOutcome {
    /// The run executed more steps than its global cap allows.
    GlobalCapReached,
    /// The node was visited more often than the per-node cap allows.
    VisitCapReached,
    /// The visit proceeds; `iteration` is the node's loop count.
    Proceed { iteration: u32 },
}

/// Counts a visit to `node_id`: the run's step count, then the cursor's visit
/// count for the node, then its loop count; stops at the first cap exceeded.
pub fn prepare_cursor_visit(
    total_executed: &mut u32,
    max_total_steps: u32,
    max_visits_per_node: u32,
    visit_counters: &mut Counters,
    loop_counters: &mut Counters,
    node_id: &str,
) -> (r: VisitOutcome)
    requires
        *old(total_executed) < u32::MAX,
        old(visit_counters).count(node_id@) < u32::MAX,
        old(loop_counters).count(node_id@) < u32::MAX,
    ensures
        *final(total_executed) == *old(total_executed) + 1,
        *final(total_executed) > max_total_steps ==> r == VisitOutcome::GlobalCapReached
            && *final(visit_counters) == *old(visit_counters) && *final(loop_counters) == *old(
            loop_counters,
        ),
        *final(total_executed) <= max_total_steps ==> {
            &&& final(visit_counters).count(node_id@) == old(visit_counters).count(node_id@) + 1
            &&& forall|k: Seq<char>|
                k != node_id@ ==> #[trigger] final(visit_counters).count(k) == old(visit_counters).count(k)
            &&& if final(visit_counters).count(node_id@) > max_visits_per_node {
                r == VisitOutcome::VisitCapReached && *final(loop_counters) == *old(loop_counters)
            } else {
                &&& r == VisitOutcome::Proceed { iteration: final(loop_counters).count(node_id@) }
                &&& final(loop_counters).count(node_id@) == old(loop_counters).count(node_id@) + 1
                &&& forall|k: Seq<char>|
                    k != node_id@ ==> #[trigger] final(loop_counters).count(k) == old(loop_counters).count(k)
            }
        },
{
    *total_executed = *total_executed + 1;
    if *total_executed > max_total_steps {
        return VisitOutcome::GlobalCapReached;
    }
    let visits = visit_counters.increment(node_id);
    if visits > max_visits_per_node {
        return VisitOutcome::VisitCapReached;
    }
    let iteration = loop_counters.increment(node_id);
    VisitOutcome::Proceed { iteration }
}

/// How many consecutive equal outputs count as stagnation.
pub const STAGNATION_WINDOW: usize = 3;

pub open spec fn djb2_step(h: u32, b: u8) -> u32 {
    vstd::wrapping::u32_specs::wrapping_add(vstd::wrapping::u32_specs::wrapping_mul(h, 33), b as u32)
}

/// The djb2 hash of a byte sequence: start at 5381, then `h * 33 + byte` on
/// 32-bit wrapping arithmetic.
pub open spec fn djb2_spec(bytes: Seq<u8>) -> u32
    decreases bytes.len(),
{
    if bytes.len() == 0 {
        5381
    } else {
        djb2_step(djb2_spec(bytes.drop_last()), bytes.last())
    }
}

/// The djb2 hash of the UTF-8 bytes of `s`.
pub fn djb2(s: &str) -> (r: u32)
    ensures
        r == djb2_spec(s.spec_bytes()),
{
    let bytes = s.as_bytes();
    let mut h: u32 = 5381;
    let mut i: usize = 0;
    while i < bytes.len()
        invariant
            i <= bytes.len(),
            bytes@ == s.spec_bytes(),
            h == djb2_spec(bytes@.take(i as int)),
        decreases bytes.len() - i,
    {
        assert(bytes@.take(i + 1).drop_last() =~= bytes@.take(i as int));
        h = h.wrapping_mul(33).wrapping_add(bytes[i] as u32);
        i += 1;
    }
    assert(bytes@.take(bytes.len() as int) =~= bytes@);
    h
}

/// The most recent `STAGNATION_WINDOW` entries of `s`.
pub open spec fn last_window(s: Seq<u32>) -> Seq<u32> {
    if s.len() > STAGNATION_WINDOW {
        s.skip(s.len() - STAGNATION_WINDOW)
    } else {
        s
    }
}

/// The window is full and holds one value three times.
pub open spec fn stagnant(s: Seq<u32>) -> bool {
    s.len() == STAGNATION_WINDOW && s[0] == s[1] && s[1] == s[2]
}

/// Recent output hashes, by output-hash key.
#[derive(Debug)]
pub struct OutputHashes {
    entries: Vec<(String, Vec<u32>)>,
}

impl OutputHashes {
    pub closed spec fn entries_view(&self) -> Seq<(Seq<char>, Seq<u32>)> {
        hash_entries(self.entries@)
    }

    /// The recorded hashes for `k`, oldest first (empty when none).
    pub open spec fn history(&self, k: Seq<char>) -> Seq<u32> {
        match key_lookup(self.entries_view(), k) {
            Some(h) => h,
            None => seq![],
        }
    }

/// No output histories.
    pub fn new() -> (r: OutputHashes)
        ensures
            forall|k: Seq<char>| #[trigger] r.history(k) == Seq::<u32>::empty(),
            r.entries_view() == Seq::<(Seq<char>, Seq<u32>)>::empty(),
    {
        let r = OutputHashes { entries: Vec::new() };
        assert(r.entries_view() =~= Seq::<(Seq<char>, Seq<u32>)>::empty());
        assert forall|k: Seq<char>| #[trigger] r.history(k) == Seq::<u32>::empty() by {
            crate::routing::lemma_first_idx(key_pred(r.entries_view(), k), 0, 0);
        }
        r
    }

    fn find(&self, key: &str) -> (r: Option<usize>)
        ensures
            match r {
                Some(i) => i as int == first_key_index(self.entries_view(), key@) && i < self.entries.len(),
                None => first_key_index(self.entries_view(), key@) == -1,
            },
    {
        let ghost ev = self.entries_view();
        let ghost p = key_pred(ev, key@);
        let mut i: usize = 0;
        while i < self.entries.len()
            invariant
                i <= self.entries.len(),
                ev == self.entries_view(),
                p == key_pred(ev, key@),
                forall|j: int| 0 <= j < i ==> !#[trigger] p(j),
            decreases self.entries.len() - i,
        {
            if str_eq(self.entries[i].0.as_str(), key) {
                proof {
                    assert(p(i as int));
                    crate::routing::lemma_first_idx(p, 0, ev.len() as int);
                    let r = first_key_index(ev, key@);
                    if r != i {
                        if r < i {
                            assert(!p(r));
                        } else {
                            assert(!p(i as int));
                        }
                    }
                }
                return Some(i);
            }
            i += 1;
        }
        proof {
            crate::routing::lemma_first_idx(p, 0, ev.len() as int);
        }
        None
    }

    /// The recorded hashes for `key`.
    pub fn get(&self, key: &str) -> (r: Vec<u32>)
        ensures
            r@ == self.history(key@),
    {
        match self.find(key) {
            Some(i) => self.entries[i].1.clone(),
            None => Vec::new(),
        }
    }

    fn set(&mut self, key: String, hashes: Vec<u32>)
        ensures
            final(self).history(key@) == hashes@,
            forall|k: Seq<char>| k != key@ ==> #[trigger] final(self).history(k) == old(self).history(k),
    {
        let ghost ov = self.entries_view();
        let ghost kv = key@;
        let ghost hv = hashes@;
        match self.find(key.as_str()) {
            Some(i) => {
                let ghost oe = self.entries@;
                let ghost tup = (key, hashes);
                self.entries.set(i, (key, hashes));
                proof {
                    assert(self.entries@ == oe.update(i as int, tup));
                    assert(self.entries_view() =~= ov.update(i as int, (kv, hv)));
                    assert forall|k: Seq<char>| k != kv implies #[trigger] self.history(k) == old(self).history(k) by {
                        lemma_key_update_at(ov, i as int, kv, hv, k);
                    }
                    lemma_key_update_at(ov, i as int, kv, hv, kv);
                }
            },
            None => {
                let ghost oe = self.entries@;
                let ghost tup = (key, hashes);
                self.entries.push((key, hashes));
                proof {
                    assert(self.entries@ == oe.push(tup));
                    assert(self.entries_view() =~= ov.push((kv, hv)));
                    assert forall|k: Seq<char>| k != kv implies #[trigger] self.history(k) == old(self).history(k) by {
                        lemma_key_push(ov, kv, hv, k);
                    }
                    lemma_key_push(ov, kv, hv, kv);
                }
            },
        }
    }
}

/// Appends the hash of `output` to the history of `key`, keeps the last
/// `STAGNATION_WINDOW` hashes, and reports whether those are all equal.
pub fn record_output_hash(output_hashes: &mut OutputHashes, key: String, output: &str) -> (r: bool)
    ensures
        final(output_hashes).history(key@) == last_window(
            old(output_hashes).history(key@).push(djb2_spec(output.spec_bytes())),
        ),
        forall|k: Seq<char>| k != key@ ==> #[trigger] final(output_hashes).history(k) == old(
            output_hashes,
        ).history(k),
        r == stagnant(final(output_hashes).history(key@)),
{
    let hash = djb2(output);
    let mut hashes = output_hashes.get(key.as_str());
    hashes.push(hash);
    let mut window: Vec<u32> = Vec::new();
    let start: usize = if hashes.len() > STAGNATION_WINDOW { hashes.len() - STAGNATION_WINDOW } else { 0 };
    let mut i = start;
    while i < hashes.len()
        invariant
            start <= i <= hashes.len(),
            window@ == hashes@.subrange(start as int, i as int),
        decreases hashes.len() - i,
    {
        window.push(hashes[i]);
        assert(window@ =~= hashes@.subrange(start as int, i + 1));
        i += 1;
    }
    assert(window@ =~= last_window(hashes@));
    let stagnant = window.len() == STAGNATION_WINDOW && window[0] == window[1] && window[1] == window[2];
    output_hashes.set(key, window);
    stagnant
}

/// The kept history never holds more than the stagnation window.
pub proof fn lemma_history_within_window(h: Seq<u32>)
    ensures
        last_window(h).len() <= STAGNATION_WINDOW,
        last_window(h).len() == if h.len() > STAGNATION_WINDOW {
            STAGNATION_WINDOW as nat
        } else {
            h.len()
        },
{
}

/// Stagnation means the newest hash was recorded three times in a row.
pub proof fn lemma_stagnant_means_repeated(h: Seq<u32>, x: u32)
    requires
        stagnant(last_window(h.push(x))),
    ensures
        h.len() >= 2,
        h[h.len() - 1] == x,
        h[h.len() - 2] == x,
{
    let w = last_window(h.push(x));
    let n = h.push(x).len();
    assert(w[2] == h.push(x)[n - 1]);
    assert(w[1] == h.push(x)[n - 2]);
    assert(w[0] == h.push(x)[n - 3]);
}

/// Looking up a key after appending an entry: the earlier entries win.
pub proof fn lemma_key_lookup_push<V>(s: Seq<(Seq<char>, V)>, x: (Seq<char>, V), k: Seq<char>)
    ensures
        key_lookup(s.push(x), k) == match key_lookup(s, k) {
            Some(v) => Some(v),
            None => if x.0 == k {
                Some(x.1)
            } else {
                None
            },
        },
{
    let t = s.push(x);
    let ps = key_pred(s, k);
    let pt = key_pred(t, k);
    crate::routing::lemma_first_idx(ps, 0, s.len() as int);
    crate::routing::lemma_first_idx(pt, 0, t.len() as int);
    let rs = first_key_index(s, k);
    let rt = first_key_index(t, k);
    if rs >= 0 {
        assert(t[rs] == s[rs]);
        assert(pt(rs));
        if 0 <= rt < rs {
            assert(t[rt] == s[rt]);
            assert(ps(rt));
        }
        assert(rt == rs);
    } else {
        if 0 <= rt < s.len() {
            assert(t[rt] == s[rt]);
            assert(ps(rt));
        }
        if x.0 == k {
            assert(pt(s.len() as int));
            assert(rt == s.len());
        } else {
            assert(!pt(s.len() as int));
            assert(rt == -1);
        }
    }
}

/// The entries of `s` without those under `removed`, one entry further.
pub proof fn lemma_key_lookup_without<V>(
    s: Seq<(Seq<char>, V)>,
    out: Seq<(Seq<char>, V)>,
    removed: Seq<char>,
    x: (Seq<char>, V),
    next: Seq<(Seq<char>, V)>,
)
    requires
        forall|k: Seq<char>| #[trigger] key_lookup(out, k) == if k == removed {
            None
        } else {
            key_lookup(s, k)
        },
        next == if x.0 == removed {
            out
        } else {
            out.push(x)
        },
    ensures
        forall|k: Seq<char>| #[trigger] key_lookup(next, k) == if k == removed {
            None
        } else {
            key_lookup(s.push(x), k)
        },
{
    assert forall|k: Seq<char>| #[trigger] key_lookup(next, k) == if k == removed {
        None
    } else {
        key_lookup(s.push(x), k)
    } by {
        lemma_key_lookup_push(s, x, k);
        if x.0 != removed {
            lemma_key_lookup_push(out, x, k);
        }
        assert(key_lookup(out, k) == if k == removed {
            None
        } else {
            key_lookup(s, k)
        });
    }
}

pub open spec fn count_entries(v: Seq<(String, u32)>) -> Seq<(Seq<char>, u32)> {
    v.map_values(|e: (String, u32)| (e.0@, e.1))
}

pub open spec fn hash_entries(v: Seq<(String, Vec<u32>)>) -> Seq<(Seq<char>, Seq<u32>)> {
    v.map_values(|e: (String, Vec<u32>)| (e.0@, e.1@))
}

impl Counters {
    /// Forgets the count for `key`.
    pub fn remove(&mut self, key: &str)
        ensures
            final(self).count(key@) == 0,
            forall|k: Seq<char>| k != key@ ==> #[trigger] final(self).count(k) == old(self).count(k),
    {
        let ghost s = self.entries_view();
        let mut out: Vec<(String, u32)> = Vec::new();
        let mut i: usize = 0;
        while i < self.entries.len()
            invariant
                i <= self.entries.len(),
                s == self.entries_view(),
                forall|k: Seq<char>| #[trigger] key_lookup(count_entries(out@), k) == if k == key@ {
                    None
                } else {
                    key_lookup(s.take(i as int), k)
                },
            decreases self.entries.len() - i,
        {
            let ghost ov = count_entries(out@);
            let ghost x = s[i as int];
            proof {
                assert(s.take(i + 1) =~= s.take(i as int).push(x));
            }
            if !str_eq(self.entries[i].0.as_str(), key) {
                let name = self.entries[i].0.clone();
                out.push((name, self.entries[i].1));
                proof {
                    assert(count_entries(out@) =~= ov.push(x));
                }
            }
            proof {
                lemma_key_lookup_without(s.take(i as int), ov, key@, x, count_entries(out@));
            }
            i += 1;
        }
        proof {
            assert(s.take(s.len() as int) =~= s);
        }
        self.entries = out;
        proof {
            assert(self.entries_view() == count_entries(out@));
        }
    }
}

impl OutputHashes {
    /// Forgets the history under `key`.
    pub fn remove(&mut self, key: &str)
        ensures
            final(self).history(key@) == Seq::<u32>::empty(),
            forall|k: Seq<char>| k != key@ ==> #[trigger] final(self).history(k) == old(self).history(k),
    {
        let ghost s = self.entries_view();
        let mut out: Vec<(String, Vec<u32>)> = Vec::new();
        let mut i: usize = 0;
        while i < self.entries.len()
            invariant
                i <= self.entries.len(),
                s == self.entries_view(),
                forall|k: Seq<char>| #[trigger] key_lookup(hash_entries(out@), k) == if k == key@ {
                    None
                } else {
                    key_lookup(s.take(i as int), k)
                },
            decreases self.entries.len() - i,
        {
            let ghost ov = hash_entries(out@);
            let ghost x = s[i as int];
            proof {
                assert(s.take(i + 1) =~= s.take(i as int).push(x));
            }
            if !str_eq(self.entries[i].0.as_str(), key) {
                let name = self.entries[i].0.clone();
                let hs = self.entries[i].1.clone();
                out.push((name, hs));
                proof {
                    assert(hash_entries(out@) =~= ov.push(x));
                }
            }
            proof {
                lemma_key_lookup_without(s.take(i as int), ov, key@, x, hash_entries(out@));
            }
            i += 1;
        }
        proof {
            assert(s.take(s.len() as int) =~= s);
        }
        self.entries = out;
    }
}

} // verus!

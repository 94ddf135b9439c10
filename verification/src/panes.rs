//! The tmux panes that a run's cursors hold open: their keys, how a pane
//! reference is resolved, and which panes terminal cleanup targets.

use vstd::prelude::*;

use crate::strset::{lemma_lt_irreflexive, lemma_lt_total, lemma_lt_transitive, str_lt};
use crate::text::{chars_of, ends_with, ends_with_chars, extend_str, seq_lt, str_eq, string_of};

verus! {

/// The key of the pane that a cursor holds for a node: `cursor:node`.
pub open spec fn pane_key(cursor_id: Seq<char>, node_id: Seq<char>) -> Seq<char> {
    cursor_id + ":"@ + node_id
}

/// The key under which a cursor holds the pane of a node: `cursor:node`.
pub fn active_pane_key(cursor_id: &str, node_id: &str) -> (r: String)
    ensures
        r@ == pane_key(cursor_id@, node_id@),
{
    let mut out: Vec<char> = Vec::new();
    extend_str(&mut out, cursor_id);
    extend_str(&mut out, ":");
    extend_str(&mut out, node_id);
    string_of(out.as_slice())
}

/// A pane key refers to `node_id`: it is the node id itself, or it ends with
/// the node id right after a `:`.
pub open spec fn key_matches_node(key: Seq<char>, node_id: Seq<char>) -> bool {
    key == node_id || (ends_with(key, node_id) && key.len() > node_id.len() && key[key.len()
        - node_id.len() - 1] == ':')
}

/// Whether a pane key refers to `node_id`.
pub fn active_pane_key_matches_node(key: &str, node_id: &str) -> (r: bool)
    ensures
        r == key_matches_node(key@, node_id@),
{
    let k = chars_of(key);
    let n = chars_of(node_id);
    if crate::text::chars_eq(k.as_slice(), n.as_slice()) {
        return true;
    }
    if !ends_with_chars(k.as_slice(), n.as_slice()) || k.len() <= n.len() {
        return false;
    }
    k[k.len() - n.len() - 1] == ':'
}

/// A pane to kill at cleanup: the pane id and the session it lives in.
#[derive(Debug, Clone, PartialEq, Eq)]
pub struct PaneCleanupTarget {
    pub pane_id: String,
    pub session_name: Option<String>,
}

/// A pane held by a cursor.
#[derive(Debug, Clone)]
pub struct PaneEntry {
    pub key: String,
    pub target: String,
    pub session_name: Option<String>,
    pub sequence: u64,
}

pub struct PaneEntryView {
    pub key: Seq<char>,
    pub target: Seq<char>,
    pub session_name: Option<Seq<char>>,
    pub sequence: u64,
}

impl View for PaneEntry {
    type V = PaneEntryView;

    open spec fn view(&self) -> PaneEntryView {
        PaneEntryView {
            key: self.key@,
            target: self.target@,
            session_name: self.session_name.deep_view(),
            sequence: self.sequence,
        }
    }
}

pub struct CleanupView {
    pub pane_id: Seq<char>,
    pub session_name: Option<Seq<char>>,
}

impl View for PaneCleanupTarget {
    type V = CleanupView;

    open spec fn view(&self) -> CleanupView {
        CleanupView { pane_id: self.pane_id@, session_name: self.session_name.deep_view() }
    }
}

/// The panes of one run, by key, in key order, each stamped with the order in
/// which it was registered.
pub struct ActivePanes {
    entries: Vec<PaneEntry>,
    next_sequence: u64,
}

pub open spec fn keys_sorted(s: Seq<PaneEntryView>) -> bool {
    forall|i: int, j: int| 0 <= i < j < s.len() ==> seq_lt(s[i].key, s[j].key)
}

/// Cleanup targets of `s` in order, each (session, pane) pair once, the first
/// occurrence kept.
pub open spec fn dedupe_targets(s: Seq<PaneEntryView>) -> Seq<CleanupView>
    decreases s.len(),
{
    if s.len() == 0 {
        seq![]
    } else {
        let d = dedupe_targets(s.drop_last());
        let t = CleanupView { pane_id: s.last().target, session_name: s.last().session_name };
        if d.contains(t) {
            d
        } else {
            d.push(t)
        }
    }
}

/// The entry with `key`, if any.
pub open spec fn entry_for(s: Seq<PaneEntryView>, key: Seq<char>) -> Option<PaneEntryView> {
    if exists|i: int| 0 <= i < s.len() && s[i].key == key {
        Some(s[choose|i: int| 0 <= i < s.len() && s[i].key == key])
    } else {
        None
    }
}

/// `s[i]` refers to `node`, and no later-registered entry that refers to it
/// outranks it (of equal stamps the last in key order wins).
pub open spec fn newest_match(s: Seq<PaneEntryView>, node: Seq<char>, i: int) -> bool {
    &&& 0 <= i < s.len()
    &&& key_matches_node(s[i].key, node)
    &&& forall|j: int|
        0 <= j < s.len() && key_matches_node(#[trigger] s[j].key, node) ==> (s[j].sequence
            < s[i].sequence || (s[j].sequence == s[i].sequence && j <= i))
}

/// How a pane reference is resolved: by key; else as a registered pane id;
/// `active`/`current` name the only pane when there is exactly one; else the
/// newest pane whose key refers to that node.
pub open spec fn resolve_pane(s: Seq<PaneEntryView>, pane: Seq<char>) -> Option<Seq<char>> {
    if entry_for(s, pane) is Some {
        Some(entry_for(s, pane).unwrap().target)
    } else if exists|i: int| 0 <= i < s.len() && s[i].target == pane {
        Some(pane)
    } else if pane == "active"@ || pane == "current"@ {
        if s.len() == 1 {
            Some(s[0].target)
        } else {
            None
        }
    } else if exists|i: int| newest_match(s, pane, i) {
        Some(s[choose|i: int| newest_match(s, pane, i)].target)
    } else {
        None
    }
}

/// Entries whose key refers to one of `keys`.
pub open spec fn retained_by(e: PaneEntryView, keys: Seq<Seq<char>>) -> bool {
    exists|k: int| 0 <= k < keys.len() && key_matches_node(e.key, #[trigger] keys[k])
}

/// Entries that terminal cleanup may kill: those sharing neither a pane id nor
/// a session with an entry retained by `keys`.
pub open spec fn cleanable(s: Seq<PaneEntryView>, keys: Seq<Seq<char>>, e: PaneEntryView) -> bool {
    &&& !(exists|i: int| 0 <= i < s.len() && retained_by(s[i], keys) && s[i].target == e.target)
    &&& !(e.session_name is Some && exists|i: int|
        0 <= i < s.len() && retained_by(s[i], keys) && s[i].session_name == e.session_name)
}

pub open spec fn cleanup_except(s: Seq<PaneEntryView>, keys: Seq<Seq<char>>) -> Seq<CleanupView> {
    if keys.len() == 0 {
        dedupe_targets(s)
    } else {
        dedupe_targets(s.filter(|e: PaneEntryView| cleanable(s, keys, e)))
    }
}

fn clone_entry(e: &PaneEntry) -> (r: PaneEntry)
    ensures
        r@ == e@,
{
    PaneEntry {
        key: e.key.clone(),
        target: e.target.clone(),
        session_name: crate::graph::clone_opt_string(&e.session_name),
        sequence: e.sequence,
    }
}

/// Whether two optional strings are equal.
pub fn opt_str_eq(a: &Option<String>, b: &Option<String>) -> (r: bool)
    ensures
        r == (a.deep_view() == b.deep_view()),
{
    match (a, b) {
        (Some(x), Some(y)) => str_eq(x.as_str(), y.as_str()),
        (None, None) => true,
        _ => false,
    }
}

/// Cleanup targets of `s` in order, each (session, pane) pair once.
pub fn dedupe_cleanup_targets(s: &Vec<PaneEntry>) -> (r: Vec<PaneCleanupTarget>)
    ensures
        r@.map_values(|t: PaneCleanupTarget| t@) == dedupe_targets(
            s@.map_values(|e: PaneEntry| e@),
        ),
{
    let ghost sv = s@.map_values(|e: PaneEntry| e@);
    let mut out: Vec<PaneCleanupTarget> = Vec::new();
    let mut i: usize = 0;
    while i < s.len()
        invariant
            i <= s.len(),
            sv == s@.map_values(|e: PaneEntry| e@),
            out@.map_values(|t: PaneCleanupTarget| t@) == dedupe_targets(sv.take(i as int)),
        decreases s.len() - i,
    {
        let ghost ov = out@.map_values(|t: PaneCleanupTarget| t@);
        let e = &s[i];
        let mut seen = false;
        let mut k: usize = 0;
        while k < out.len()
            invariant
                k <= out.len(),
                ov == out@.map_values(|t: PaneCleanupTarget| t@),
                e@ == sv[i as int],
                i < s.len(),
                sv == s@.map_values(|e: PaneEntry| e@),
                seen == exists|j: int|
                    0 <= j < k && ov[j] == (CleanupView {
                        pane_id: e@.target,
                        session_name: e@.session_name,
                    }),
            decreases out.len() - k,
        {
            proof {
                assert(ov[k as int] == out@[k as int]@);
            }
            if str_eq(out[k].pane_id.as_str(), e.target.as_str()) && opt_str_eq(
                &out[k].session_name,
                &e.session_name,
            ) {
                seen = true;
            }
            k += 1;
        }
        proof {
            assert(sv.take(i + 1).drop_last() =~= sv.take(i as int));
            assert(sv.take(i + 1).last() == sv[i as int]);
        }
        if !seen {
            out.push(
                PaneCleanupTarget {
                    pane_id: e.target.clone(),
                    session_name: crate::graph::clone_opt_string(&e.session_name),
                },
            );
            assert(out@.map_values(|t: PaneCleanupTarget| t@) =~= ov.push(
                CleanupView { pane_id: e@.target, session_name: e@.session_name },
            ));
        }
        i += 1;
    }
    assert(sv.take(s.len() as int) =~= sv);
    out
}

impl ActivePanes {
    pub closed spec fn entries_view(&self) -> Seq<PaneEntryView> {
        self.entries@.map_values(|e: PaneEntry| e@)
    }

    pub closed spec fn next_seq(&self) -> u64 {
        self.next_sequence
    }

    /// Keys are unique and kept in order.
    pub closed spec fn wf(&self) -> bool {
        keys_sorted(self.entries_view())
    }

/// No panes.
    pub fn new() -> (r: ActivePanes)
        ensures
            r.wf(),
            r.entries_view() == Seq::<PaneEntryView>::empty(),
            r.next_seq() == 0,
    {
        ActivePanes { entries: Vec::new(), next_sequence: 0 }
    }

    /// The panes, in key order.
    pub fn entries(&self) -> (r: Vec<PaneEntry>)
        ensures
            r@.map_values(|e: PaneEntry| e@) == self.entries_view(),
    {
        let mut out: Vec<PaneEntry> = Vec::new();
        let mut i: usize = 0;
        while i < self.entries.len()
            invariant
                i <= self.entries.len(),
                out@.map_values(|e: PaneEntry| e@) == self.entries_view().take(i as int),
            decreases self.entries.len() - i,
        {
            let ghost before = out@.map_values(|e: PaneEntry| e@);
            out.push(clone_entry(&self.entries[i]));
            assert(self.entries_view()[i as int] == self.entries@[i as int]@);
            assert(out@.map_values(|e: PaneEntry| e@) =~= before.push(self.entries_view()[i as int]));
            assert(out@.map_values(|e: PaneEntry| e@) =~= self.entries_view().take(i + 1));
            i += 1;
        }
        assert(self.entries_view().take(self.entries.len() as int) =~= self.entries_view());
        out
    }

    /// Registers `target` (in `session_name`) under `key`, stamped with the
    /// next sequence number; an earlier pane under `key` is replaced.
    pub fn set_active_pane(&mut self, key: &str, target: &str, session_name: Option<String>)
        requires
            old(self).wf(),
        ensures
            final(self).wf(),
            final(self).next_seq() == old(self).next_seq().wrapping_add(1),
            entry_for(final(self).entries_view(), key@) == Some(
                PaneEntryView {
                    key: key@,
                    target: target@,
                    session_name: session_name.deep_view(),
                    sequence: old(self).next_seq().wrapping_add(1),
                },
            ),
            forall|k: Seq<char>|
                k != key@ ==> #[trigger] entry_for(final(self).entries_view(), k) == entry_for(
                    old(self).entries_view(),
                    k,
                ),
    {
        let ghost old_v = self.entries_view();
        let sequence = self.next_sequence.wrapping_add(1);
        self.next_sequence = sequence;
        let entry = PaneEntry {
            key: key.to_owned(),
            target: target.to_owned(),
            session_name,
            sequence,
        };
        let ghost ev = entry@;
        let mut i: usize = 0;
        while i < self.entries.len() && str_lt(self.entries[i].key.as_str(), key)
            invariant
                i <= self.entries.len(),
                old_v == self.entries_view(),
                keys_sorted(old_v),
                forall|j: int| 0 <= j < i ==> seq_lt(#[trigger] old_v[j].key, key@),
            decreases self.entries.len() - i,
        {
            i += 1;
        }
        if i < self.entries.len() && str_eq(self.entries[i].key.as_str(), key) {
            self.entries.set(i, entry);
            proof {
                let nv = self.entries_view();
                assert(nv =~= old_v.update(i as int, ev));
                self.lemma_update_keeps(old_v, i as int, ev, key@);
            }
        } else {
            proof {
                if i < old_v.len() {
                    lemma_lt_total(old_v[i as int].key, key@);
                }
            }
            self.entries.insert(i, entry);
            proof {
                let nv = self.entries_view();
                assert(nv =~= old_v.insert(i as int, ev));
                self.lemma_insert_keeps(old_v, i as int, ev, key@);
            }
        }
    }

    proof fn lemma_update_keeps(&self, old_v: Seq<PaneEntryView>, i: int, ev: PaneEntryView, key: Seq<char>)
        requires
            keys_sorted(old_v),
            0 <= i < old_v.len(),
            old_v[i].key == key,
            ev.key == key,
            self.entries_view() == old_v.update(i, ev),
        ensures
            keys_sorted(self.entries_view()),
            entry_for(self.entries_view(), key) == Some(ev),
            forall|k: Seq<char>|
                k != key ==> #[trigger] entry_for(self.entries_view(), k) == entry_for(old_v, k),
    {
        let nv = self.entries_view();
        lemma_unique_entry(nv, i);
        assert forall|k: Seq<char>| k != key implies #[trigger] entry_for(nv, k) == entry_for(
            old_v,
            k,
        ) by {
            if exists|j: int| 0 <= j < old_v.len() && old_v[j].key == k {
                let j = choose|j: int| 0 <= j < old_v.len() && old_v[j].key == k;
                assert(nv[j] == old_v[j]);
                lemma_unique_entry(nv, j);
                lemma_unique_entry(old_v, j);
            } else {
                assert forall|j: int| 0 <= j < nv.len() implies nv[j].key != k by {
                    if j != i {
                        assert(nv[j] == old_v[j]);
                    }
                }
            }
        }
    }

    proof fn lemma_insert_keeps(&self, old_v: Seq<PaneEntryView>, i: int, ev: PaneEntryView, key: Seq<char>)
        requires
            keys_sorted(old_v),
            0 <= i <= old_v.len(),
            forall|j: int| 0 <= j < i ==> seq_lt(#[trigger] old_v[j].key, key),
            i < old_v.len() ==> seq_lt(key, old_v[i].key),
            ev.key == key,
            self.entries_view() == old_v.insert(i, ev),
        ensures
            keys_sorted(self.entries_view()),
            entry_for(self.entries_view(), key) == Some(ev),
            forall|k: Seq<char>|
                k != key ==> #[trigger] entry_for(self.entries_view(), k) == entry_for(old_v, k),
    {
        let nv = self.entries_view();
        assert forall|a: int, b: int| 0 <= a < b < nv.len() implies seq_lt(nv[a].key, nv[b].key) by {
            if b < i {
            } else if b == i {
            } else if a < i {
                lemma_lt_transitive(nv[a].key, key, old_v[i].key);
                if b - 1 > i {
                    lemma_lt_transitive(nv[a].key, old_v[i].key, nv[b].key);
                }
            } else if a == i {
                if b - 1 > i {
                    lemma_lt_transitive(key, old_v[i].key, nv[b].key);
                }
            }
        }
        assert(nv[i] == ev);
        lemma_unique_entry(nv, i);
        assert forall|k: Seq<char>| k != key implies #[trigger] entry_for(nv, k) == entry_for(
            old_v,
            k,
        ) by {
            if exists|j: int| 0 <= j < old_v.len() && old_v[j].key == k {
                let j = choose|j: int| 0 <= j < old_v.len() && old_v[j].key == k;
                let nj = if j < i {
                    j
                } else {
                    j + 1
                };
                assert(nv[nj] == old_v[j]);
                lemma_unique_entry(nv, nj);
                lemma_unique_entry(old_v, j);
            } else {
                assert forall|j: int| 0 <= j < nv.len() implies nv[j].key != k by {
                    if j < i {
                        assert(nv[j] == old_v[j]);
                    } else if j > i {
                        assert(nv[j] == old_v[j - 1]);
                    }
                }
            }
        }
    }

    /// Drops the pane registered under `key`.
    pub fn clear_active_pane(&mut self, key: &str)
        requires
            old(self).wf(),
        ensures
            final(self).wf(),
            final(self).next_seq() == old(self).next_seq(),
            entry_for(final(self).entries_view(), key@) is None,
            forall|k: Seq<char>|
                k != key@ ==> #[trigger] entry_for(final(self).entries_view(), k) == entry_for(
                    old(self).entries_view(),
                    k,
                ),
    {
        let ghost old_v = self.entries_view();
        let mut i: usize = 0;
        while i < self.entries.len()
            invariant
                i <= self.entries.len(),
                old_v == self.entries_view(),
                keys_sorted(old_v),
                self.next_seq() == old(self).next_seq(),
                old_v == old(self).entries_view(),
                forall|j: int| 0 <= j < i ==> (#[trigger] old_v[j]).key != key@,
            decreases self.entries.len() - i,
        {
            if str_eq(self.entries[i].key.as_str(), key) {
                self.entries.remove(i);
                proof {
                    let nv = self.entries_view();
                    assert(nv =~= old_v.remove(i as int));
                    lemma_unique_entry(old_v, i as int);
                    assert forall|a: int, b: int| 0 <= a < b < nv.len() implies seq_lt(
                        nv[a].key,
                        nv[b].key,
                    ) by {
                        let oa = if a < i { a } else { a + 1 };
                        let ob = if b < i { b } else { b + 1 };
                        assert(nv[a] == old_v[oa] && nv[b] == old_v[ob]);
                    }
                    assert(old_v[i as int].key == key@);
                    assert forall|j: int| 0 <= j < nv.len() implies nv[j].key != key@ by {
                        let oj = if j < i { j } else { j + 1 };
                        assert(nv[j] == old_v[oj]);
                        lemma_lt_irreflexive(key@);
                        if oj < i {
                            assert(seq_lt(old_v[oj].key, old_v[i as int].key));
                        } else {
                            assert(seq_lt(old_v[i as int].key, old_v[oj].key));
                        }
                    }
                    assert forall|k: Seq<char>| k != key@ implies #[trigger] entry_for(nv, k)
                        == entry_for(old_v, k) by {
                        if exists|j: int| 0 <= j < old_v.len() && old_v[j].key == k {
                            let j = choose|j: int| 0 <= j < old_v.len() && old_v[j].key == k;
                            assert(j != i);
                            let nj = if j < i { j } else { j - 1 };
                            assert(nv[nj] == old_v[j]);
                            lemma_unique_entry(nv, nj);
                            lemma_unique_entry(old_v, j);
                        } else {
                            assert forall|j: int| 0 <= j < nv.len() implies nv[j].key != k by {
                                let oj = if j < i { j } else { j + 1 };
                                assert(nv[j] == old_v[oj]);
                            }
                        }
                    }
                }
                return ;
            }
            i += 1;
        }
    }

    /// Drops every pane whose id is `target`.
    pub fn clear_active_pane_target(&mut self, target: &str)
        requires
            old(self).wf(),
        ensures
            final(self).wf(),
            final(self).next_seq() == old(self).next_seq(),
            final(self).entries_view() == old(self).entries_view().filter(
                |e: PaneEntryView| e.target != target@,
            ),
    {
        let ghost old_v = self.entries_view();
        let ghost p = |e: PaneEntryView| e.target != target@;
        let mut kept: Vec<PaneEntry> = Vec::new();
        let mut i: usize = 0;
        while i < self.entries.len()
            invariant
                i <= self.entries.len(),
                old_v == self.entries_view(),
                p == (|e: PaneEntryView| e.target != target@),
                kept@.map_values(|e: PaneEntry| e@) == old_v.take(i as int).filter(p),
            decreases self.entries.len() - i,
        {
            proof {
                crate::seqs::lemma_filter_take_step(old_v, p, i as int);
            }
            let ghost before = kept@.map_values(|e: PaneEntry| e@);
            if !str_eq(self.entries[i].target.as_str(), target) {
                kept.push(clone_entry(&self.entries[i]));
                assert(kept@.map_values(|e: PaneEntry| e@) =~= before.push(old_v[i as int]));
            }
            i += 1;
        }
        proof {
            crate::seqs::lemma_take_full(old_v);
            lemma_filter_sorted(old_v, p);
        }
        self.entries = kept;
    }

    /// The pane that a reference names.
    pub fn resolve_active_pane(&self, pane: &str) -> (r: Option<String>)
        requires
            self.wf(),
        ensures
            r.deep_view() == resolve_pane(self.entries_view(), pane@),
    {
        let ghost s = self.entries_view();
        let n = self.entries.len();
        let mut i: usize = 0;
        while i < n
            invariant
                i <= n == s.len(),
                s == self.entries_view(),
                keys_sorted(s),
                forall|j: int| 0 <= j < i ==> (#[trigger] s[j]).key != pane@,
            decreases n - i,
        {
            if str_eq(self.entries[i].key.as_str(), pane) {
                proof {
                    lemma_unique_entry(s, i as int);
                }
                return Some(self.entries[i].target.clone());
            }
            i += 1;
        }
        assert(entry_for(s, pane@) is None);
        let mut i: usize = 0;
        while i < n
            invariant
                i <= n == s.len(),
                s == self.entries_view(),
                entry_for(s, pane@) is None,
                forall|j: int| 0 <= j < i ==> (#[trigger] s[j]).target != pane@,
            decreases n - i,
        {
            if str_eq(self.entries[i].target.as_str(), pane) {
                assert(s[i as int].target == pane@);
                return Some(pane.to_owned());
            }
            i += 1;
        }
        if str_eq(pane, "active") || str_eq(pane, "current") {
            if n == 1 {
                return Some(self.entries[0].target.clone());
            }
            return None;
        }
        let mut best: Option<usize> = None;
        let mut i: usize = 0;
        while i < n
            invariant
                i <= n == s.len(),
                s == self.entries_view(),
                match best {
                    Some(b) => b < i && key_matches_node(s[b as int].key, pane@) && forall|j: int|
                        0 <= j < i && key_matches_node(#[trigger] s[j].key, pane@) ==> (s[j].sequence
                            < s[b as int].sequence || (s[j].sequence == s[b as int].sequence && j
                            <= b)),
                    None => forall|j: int| 0 <= j < i ==> !key_matches_node(#[trigger] s[j].key, pane@),
                },
            decreases n - i,
        {
            if active_pane_key_matches_node(self.entries[i].key.as_str(), pane) {
                match best {
                    Some(b) => {
                        if self.entries[i].sequence >= self.entries[b].sequence {
                            best = Some(i);
                        }
                    },
                    None => {
                        best = Some(i);
                    },
                }
            }
            i += 1;
        }
        match best {
            Some(b) => {
                proof {
                    assert(newest_match(s, pane@, b as int));
                    let c = choose|c: int| newest_match(s, pane@, c);
                    assert(c == b as int);
                }
                Some(self.entries[b].target.clone())
            },
            None => {
                assert(!exists|c: int| newest_match(s, pane@, c));
                None
            },
        }
    }

    /// Every pane, each (session, pane) pair once, for cleanup on abort.
    pub fn cleanup_targets(&self) -> (r: Vec<PaneCleanupTarget>)
        ensures
            r@.map_values(|t: PaneCleanupTarget| t@) == dedupe_targets(self.entries_view()),
    {
        dedupe_cleanup_targets(&self.entries)
    }

    /// The panes that terminal cleanup kills: all of them when `retained_keys`
    /// is empty, else those sharing neither a pane id nor a session with a
    /// pane whose key refers to one of `retained_keys`.
    pub fn cleanup_targets_except_keys(&self, retained_keys: &Vec<String>) -> (r: Vec<
        PaneCleanupTarget,
    >)
        ensures
            r@.map_values(|t: PaneCleanupTarget| t@) == cleanup_except(
                self.entries_view(),
                retained_keys.deep_view(),
            ),
    {
        let ghost s = self.entries_view();
        let ghost keys = retained_keys.deep_view();
        if retained_keys.len() == 0 {
            return dedupe_cleanup_targets(&self.entries);
        }
        let n = self.entries.len();
        let mut retained: Vec<bool> = Vec::new();
        let mut i: usize = 0;
        while i < n
            invariant
                i <= n == s.len(),
                s == self.entries_view(),
                keys == retained_keys.deep_view(),
                retained@.len() == i,
                forall|j: int| 0 <= j < i ==> retained@[j] == retained_by(s[j], keys),
            decreases n - i,
        {
            let mut hit = false;
            let mut k: usize = 0;
            while k < retained_keys.len()
                invariant
                    k <= retained_keys.len(),
                    i < n == s.len(),
                    s == self.entries_view(),
                    keys == retained_keys.deep_view(),
                    hit == exists|m: int| 0 <= m < k && key_matches_node(s[i as int].key, #[trigger] keys[m]),
                decreases retained_keys.len() - k,
            {
                proof {
                    assert(keys[k as int] == retained_keys@[k as int]@);
                    assert(s[i as int] == self.entries@[i as int]@);
                }
                if active_pane_key_matches_node(self.entries[i].key.as_str(), retained_keys[k].as_str()) {
                    hit = true;
                }
                k += 1;
            }
            retained.push(hit);
            i += 1;
        }
        let ghost p = |e: PaneEntryView| cleanable(s, keys, e);
        let mut kept: Vec<PaneEntry> = Vec::new();
        let mut i: usize = 0;
        while i < n
            invariant
                i <= n == s.len(),
                s == self.entries_view(),
                keys == retained_keys.deep_view(),
                retained@.len() == n,
                forall|j: int| 0 <= j < n ==> retained@[j] == retained_by(s[j], keys),
                p == (|e: PaneEntryView| cleanable(s, keys, e)),
                kept@.map_values(|e: PaneEntry| e@) == s.take(i as int).filter(p),
            decreases n - i,
        {
            proof {
                crate::seqs::lemma_filter_take_step(s, p, i as int);
            }
            let e = &self.entries[i];
            let mut blocked = false;
            let mut j: usize = 0;
            while j < n
                invariant
                    j <= n == s.len(),
                    i < n,
                    s == self.entries_view(),
                    e@ == s[i as int],
                    retained@.len() == n,
                    forall|m: int| 0 <= m < n ==> retained@[m] == retained_by(s[m], keys),
                    blocked == exists|m: int|
                        0 <= m < j && retained_by(s[m], keys) && (s[m].target == e@.target || (
                        e@.session_name is Some && s[m].session_name == e@.session_name)),
                decreases n - j,
            {
                if retained[j] {
                    let other = &self.entries[j];
                    if str_eq(other.target.as_str(), e.target.as_str()) || (e.session_name.is_some()
                        && opt_str_eq(&other.session_name, &e.session_name)) {
                        blocked = true;
                    }
                }
                j += 1;
            }
            let ghost before = kept@.map_values(|e: PaneEntry| e@);
            if !blocked {
                kept.push(clone_entry(e));
                assert(kept@.map_values(|e: PaneEntry| e@) =~= before.push(s[i as int]));
            }
            i += 1;
        }
        proof {
            crate::seqs::lemma_take_full(s);
        }
        dedupe_cleanup_targets(&kept)
    }
}

/// In a key-sorted sequence a key occurs once, so `entry_for` finds it.
pub proof fn lemma_unique_entry(s: Seq<PaneEntryView>, i: int)
    requires
        keys_sorted(s),
        0 <= i < s.len(),
    ensures
        entry_for(s, s[i].key) == Some(s[i]),
{
    let c = choose|c: int| 0 <= c < s.len() && s[c].key == s[i].key;
    if c < i {
        lemma_lt_irreflexive(s[i].key);
    } else if c > i {
        lemma_lt_irreflexive(s[i].key);
    }
}

proof fn lemma_filter_sorted(s: Seq<PaneEntryView>, p: spec_fn(PaneEntryView) -> bool)
    requires
        keys_sorted(s),
    ensures
        keys_sorted(s.filter(p)),
    decreases s.len(),
{
    reveal(Seq::filter);
    if s.len() > 0 {
        lemma_filter_sorted(s.drop_last(), p);
        let f = s.drop_last().filter(p);
        if p(s.last()) {
            assert forall|a: int| 0 <= a < f.len() implies seq_lt(f[a].key, s.last().key) by {
                assert(f.contains(f[a]));
                s.drop_last().lemma_filter_contains_rev(p, f[a]);
                let m = choose|m: int| 0 <= m < s.len() - 1 && s.drop_last()[m] == f[a];
                assert(s[m] == f[a]);
            }
            assert(s.filter(p) == f.push(s.last()));
        }
    }
}

/// What cleanup found of one target: whether it is confirmed gone.
#[derive(Debug, Clone)]
pub struct CleanupVerdict {
    pub target: PaneCleanupTarget,
    pub absent: bool,
}

/// Session `s` is confirmed gone by some verdict.
pub open spec fn confirms_absent(vs: Seq<CleanupVerdict>, s: Seq<char>) -> bool {
    exists|i: int|
        0 <= i < vs.len() && #[trigger] vs[i].absent && vs[i].target.session_name.deep_view() == Some(s)
}

/// The sessions whose registrations terminal cleanup drops: those of the
/// targets confirmed gone, each once, in increasing order.
pub fn confirmed_absent_sessions(verdicts: &Vec<CleanupVerdict>) -> (r: Vec<String>)
    ensures
        crate::strset::strictly_sorted(r.deep_view()),
        forall|s: Seq<char>| #[trigger] r.deep_view().contains(s) <==> confirms_absent(verdicts@, s),
{
    let mut out: Vec<String> = Vec::new();
    let mut i: usize = 0;
    while i < verdicts.len()
        invariant
            i <= verdicts.len(),
            crate::strset::strictly_sorted(out.deep_view()),
            forall|s: Seq<char>| #[trigger]
                out.deep_view().contains(s) <==> confirms_absent(verdicts@.take(i as int), s),
        decreases verdicts.len() - i,
    {
        let ghost vs = verdicts@.take(i + 1);
        assert(verdicts@.take(i as int) =~= vs.take(i as int));
        if verdicts[i].absent {
            match &verdicts[i].target.session_name {
                Some(name) => {
                    crate::strset::sorted_insert(&mut out, name.clone());
                },
                None => {},
            }
        }
        assert forall|s: Seq<char>| #[trigger]
            out.deep_view().contains(s) <==> confirms_absent(vs, s) by {
            if confirms_absent(vs, s) {
                let k = choose|k: int|
                    0 <= k < vs.len() && #[trigger] vs[k].absent && vs[k].target.session_name.deep_view()
                        == Some(s);
                if k < i {
                    assert(confirms_absent(verdicts@.take(i as int), s)) by {
                        assert(verdicts@.take(i as int)[k] == vs[k]);
                    }
                }
            }
            if confirms_absent(verdicts@.take(i as int), s) {
                let k = choose|k: int|
                    0 <= k < i && #[trigger] verdicts@.take(i as int)[k].absent && verdicts@.take(
                        i as int,
                    )[k].target.session_name.deep_view() == Some(s);
                assert(vs[k] == verdicts@.take(i as int)[k]);
            }
            if verdicts@[i as int].absent && verdicts@[i as int].target.session_name.deep_view() == Some(s) {
                assert(vs[i as int] == verdicts@[i as int]);
            }
        }
        i += 1;
    }
    assert(verdicts@.take(verdicts.len() as int) =~= verdicts@);
    out
}

} // verus!

//! Collector barriers: where the branches of a split meet again. A barrier is
//! keyed by scope, collector and execution epoch, records one arrival per
//! merge key, and is released once every required key has arrived.

use vstd::prelude::*;

use crate::cursor::{
    barrier_scope, collector_barrier_scope, cursors_view, CursorRuntimeState, CursorState,
    CursorTerminalStatus, CursorView,
};
use crate::graph::{collector_required_inputs, merge_key, WorkflowGraph};
use crate::strset::{lemma_lt_irreflexive, lemma_lt_total, lemma_lt_transitive, strictly_sorted, str_lt};
use crate::text::{
    chars_of, decimal, find_char, first_index_of, last_index_of, lemma_decimal_roundtrip,
    lemma_first_index_of, lemma_last_index_of, parse_u64, parse_u64_spec, rfind_char, seq_lt,
    slice_chars, str_eq, string_of,
};

verus! {

/// Identifies one barrier: the call scope, the collector node, the epoch.
#[derive(Debug, Clone, PartialEq, Eq, PartialOrd, Ord, Hash)]
pub struct CollectorBarrierKey {
    pub scope: String,
    pub collector_id: String,
    pub execution_epoch: u64,
}

pub struct BarrierKeyView {
    pub scope: Seq<char>,
    pub collector_id: Seq<char>,
    pub execution_epoch: u64,
}

impl View for CollectorBarrierKey {
    type V = BarrierKeyView;

    open spec fn view(&self) -> BarrierKeyView {
        BarrierKeyView {
            scope: self.scope@,
            collector_id: self.collector_id@,
            execution_epoch: self.execution_epoch,
        }
    }
}

impl CollectorBarrierKey {
/// The key of the barrier of collector `collector_id` in `scope` during epoch
/// `execution_epoch`.
    pub fn new(scope: &str, collector_id: &str, execution_epoch: u64) -> (r: CollectorBarrierKey)
        ensures
            r@ == (BarrierKeyView { scope: scope@, collector_id: collector_id@, execution_epoch }),
    {
        CollectorBarrierKey {
            scope: scope.to_owned(),
            collector_id: collector_id.to_owned(),
            execution_epoch,
        }
    }

    /// The key of the barrier that `cursor` meets at `collector_id`.
    pub fn from_cursor(cursor: &CursorState, collector_id: &str, execution_epoch: u64) -> (r:
        CollectorBarrierKey)
        ensures
            r@ == (BarrierKeyView {
                scope: barrier_scope(cursor@),
                collector_id: collector_id@,
                execution_epoch,
            }),
    {
        CollectorBarrierKey::new(collector_barrier_scope(cursor), collector_id, execution_epoch)
    }
}

/// The key written in the legacy `scope:collector:epoch` form.
pub open spec fn legacy_format(k: BarrierKeyView) -> Seq<char> {
    k.scope + ":"@ + k.collector_id + ":"@ + decimal(k.execution_epoch as nat)
}

/// How a legacy string key is read: the epoch after the last `:` (0 when it
/// does not parse, or when there is no `:`), then the scope before the first
/// `:` of the rest (`root` when there is none).
pub open spec fn legacy_key(s: Seq<char>) -> BarrierKeyView {
    let k = last_index_of(s, ':');
    let head = if k >= 0 {
        s.take(k)
    } else {
        s
    };
    let epoch: u64 = if k >= 0 {
        match parse_u64_spec(s.skip(k + 1)) {
            Some(e) => e,
            None => 0,
        }
    } else {
        0
    };
    let m = first_index_of(head, ':');
    if m >= 0 {
        BarrierKeyView { scope: head.take(m), collector_id: head.skip(m + 1), execution_epoch: epoch }
    } else {
        BarrierKeyView { scope: "root"@, collector_id: head, execution_epoch: epoch }
    }
}

/// Reads a barrier key stored in the older `scope|collector|epoch` text form.
pub fn parse_legacy_collector_barrier_key(barrier_key: &str) -> (r: CollectorBarrierKey)
    ensures
        r@ == legacy_key(barrier_key@),
{
    let v = chars_of(barrier_key);
    proof {
        lemma_last_index_of(v@, ':');
    }
    let (head, execution_epoch) = match rfind_char(v.as_slice(), ':') {
        Some(k) => {
            let tail = slice_chars(v.as_slice(), k + 1, v.len());
            assert(tail@ =~= v@.skip(k + 1));
            let epoch = match parse_u64(tail.as_slice()) {
                Some(e) => e,
                None => 0,
            };
            let h = slice_chars(v.as_slice(), 0, k);
            assert(h@ =~= v@.take(k as int));
            (h, epoch)
        },
        None => (v, 0),
    };
    proof {
        lemma_first_index_of(head@, ':');
    }
    match find_char(head.as_slice(), ':') {
        Some(m) => {
            let scope = slice_chars(head.as_slice(), 0, m);
            let collector = slice_chars(head.as_slice(), m + 1, head.len());
            assert(scope@ =~= head@.take(m as int));
            assert(collector@ =~= head@.skip(m + 1));
            CollectorBarrierKey {
                scope: string_of(scope.as_slice()),
                collector_id: string_of(collector.as_slice()),
                execution_epoch,
            }
        },
        None => CollectorBarrierKey {
            scope: "root".to_owned(),
            collector_id: string_of(head.as_slice()),
            execution_epoch,
        },
    }
}

/// A key written in the legacy form reads back as itself when its scope
/// holds no `:` (the collector id may hold any).
pub proof fn lemma_legacy_key_roundtrip(k: BarrierKeyView)
    requires
        !k.scope.contains(':'),
    ensures
        legacy_key(legacy_format(k)) == k,
{
    let d = decimal(k.execution_epoch as nat);
    lemma_decimal_roundtrip(k.execution_epoch as nat);
    let head = k.scope + ":"@ + k.collector_id;
    let s = legacy_format(k);
    assert(":"@ == seq![':']) by {
        reveal_strlit(":");
    }
    assert(s =~= head + seq![':'] + d);
    let kl = head.len() as int;
    lemma_last_index_of(s, ':');
    assert(s[kl] == ':');
    assert forall|j: int| kl < j < s.len() implies s[j] != ':' by {
        assert(s[j] == d[j - kl - 1]);
    }
    let li = last_index_of(s, ':');
    if li < kl {
        assert(s[kl] != ':');
    }
    if li > kl {
        assert(s[li] != ':');
    }
    assert(li == kl);
    assert(s.take(kl) =~= head);
    assert(s.skip(kl + 1) =~= d);
    assert(d.len() > 0 && d[0] != '+');
    assert(parse_u64_spec(d) == Some(k.execution_epoch));
    let sl = k.scope.len() as int;
    lemma_first_index_of(head, ':');
    assert(head[sl] == ':');
    assert forall|j: int| 0 <= j < sl implies head[j] != ':' by {
        assert(head[j] == k.scope[j]);
        if head[j] == ':' {
            assert(k.scope.contains(':'));
        }
    }
    let m = first_index_of(head, ':');
    if m < sl {
        assert(head[m] != ':');
    }
    if m > sl {
        assert(head[sl] != ':');
    }
    assert(head.take(sl) =~= k.scope);
    assert(head.skip(sl + 1) =~= k.collector_id);
}

/// One branch's arrival at a collector.
#[derive(Debug)]
pub struct CollectorInputStatus {
    pub source_node_id: String,
    pub edge_id: String,
    pub edge_label: Option<String>,
    pub split_family_ids: Vec<String>,
    pub status: CursorTerminalStatus,
    pub success: bool,
    pub output: String,
    pub stderr: String,
    pub exit_code: i32,
}

pub struct InputView {
    pub source_node_id: Seq<char>,
    pub edge_id: Seq<char>,
    pub edge_label: Option<Seq<char>>,
    pub split_family_ids: Seq<Seq<char>>,
    pub status: CursorTerminalStatus,
    pub success: bool,
    pub output: Seq<char>,
    pub stderr: Seq<char>,
    pub exit_code: i32,
}

impl View for CollectorInputStatus {
    type V = InputView;

    open spec fn view(&self) -> InputView {
        InputView {
            source_node_id: self.source_node_id@,
            edge_id: self.edge_id@,
            edge_label: self.edge_label.deep_view(),
            split_family_ids: self.split_family_ids.deep_view(),
            status: self.status,
            success: self.success,
            output: self.output@,
            stderr: self.stderr@,
            exit_code: self.exit_code,
        }
    }
}

#[derive(Debug)]
pub struct Arrival {
    pub merge_key: String,
    pub input: CollectorInputStatus,
}

pub struct ArrivalView {
    pub merge_key: Seq<char>,
    pub input: InputView,
}

impl View for Arrival {
    type V = ArrivalView;

    open spec fn view(&self) -> ArrivalView {
        ArrivalView { merge_key: self.merge_key@, input: self.input@ }
    }
}

pub open spec fn arrivals_sorted(s: Seq<ArrivalView>) -> bool {
    forall|i: int, j: int| 0 <= i < j < s.len() ==> seq_lt(s[i].merge_key, s[j].merge_key)
}

/// The arrival recorded under `key`, if any.
pub open spec fn arrival_for(s: Seq<ArrivalView>, key: Seq<char>) -> Option<InputView> {
    if exists|i: int| 0 <= i < s.len() && s[i].merge_key == key {
        Some(s[choose|i: int| 0 <= i < s.len() && s[i].merge_key == key].input)
    } else {
        None
    }
}

proof fn lemma_unique_arrival(s: Seq<ArrivalView>, i: int)
    requires
        arrivals_sorted(s),
        0 <= i < s.len(),
    ensures
        arrival_for(s, s[i].merge_key) == Some(s[i].input),
{
    let c = choose|c: int| 0 <= c < s.len() && s[c].merge_key == s[i].merge_key;
    if c != i {
        lemma_lt_irreflexive(s[i].merge_key);
    }
}

/// The state of one barrier.
#[derive(Debug)]
pub struct CollectorBarrierState {
    required_inputs: Vec<String>,
    arrivals: Vec<Arrival>,
    waiting_cursor_ids: Vec<String>,
    representative_snapshot: Option<CursorState>,
    released: bool,
}

impl CollectorBarrierState {
    /// The merge keys the barrier waits for.
    pub closed spec fn required(&self) -> Seq<Seq<char>> {
        self.required_inputs.deep_view()
    }

    /// The arrivals, in merge key order.
    pub closed spec fn arrivals_view(&self) -> Seq<ArrivalView> {
        self.arrivals@.map_values(|a: Arrival| a@)
    }

    /// The cursors parked at the barrier, in arrival order.
    pub closed spec fn waiting(&self) -> Seq<Seq<char>> {
        self.waiting_cursor_ids.deep_view()
    }

    pub closed spec fn is_released(&self) -> bool {
        self.released
    }

    /// The cursor state kept to carry the collector on when no waiting
    /// cursor is left.
    pub closed spec fn snapshot(&self) -> Option<CursorView> {
        match self.representative_snapshot {
            Some(c) => Some(c@),
            None => None,
        }
    }

    pub closed spec fn wf(&self) -> bool {
        &&& strictly_sorted(self.required_inputs.deep_view())
        &&& arrivals_sorted(self.arrivals_view())
    }

    /// A fresh barrier for `collector_id`, waiting for the merge key of each
    /// of its inbound edges.
    pub fn new(graph: &WorkflowGraph, collector_id: &str) -> (r: CollectorBarrierState)
        ensures
            r.wf(),
            strictly_sorted(r.required()),
            forall|x: Seq<char>| #[trigger]
                r.required().contains(x) <==> exists|i: int|
                    0 <= i < graph@.edges.len() && graph@.edges[i].to == collector_id@ && merge_key(
                        #[trigger] graph@.edges[i],
                    ) == x,
            r.arrivals_view() == Seq::<ArrivalView>::empty(),
            r.waiting() == Seq::<Seq<char>>::empty(),
            r.snapshot() is None,
            !r.is_released(),
    {
        let r = CollectorBarrierState {
            required_inputs: collector_required_inputs(graph, collector_id),
            arrivals: Vec::new(),
            waiting_cursor_ids: Vec::new(),
            representative_snapshot: None,
            released: false,
        };
        assert(r.arrivals_view() =~= Seq::<ArrivalView>::empty());
        assert(r.waiting() =~= Seq::<Seq<char>>::empty());
        r
    }

    /// A released barrier entered again (a loop reaching the collector once
    /// more) starts over: fresh required keys, no arrivals, no waiters. An
    /// unreleased barrier is left as it is.
    pub fn reset_released(&mut self, graph: &WorkflowGraph, collector_id: &str)
        requires
            old(self).wf(),
        ensures
            final(self).wf(),
            !final(self).is_released(),
            old(self).is_released() ==> {
                &&& forall|x: Seq<char>| #[trigger]
                    final(self).required().contains(x) <==> exists|i: int|
                        0 <= i < graph@.edges.len() && graph@.edges[i].to == collector_id@
                            && merge_key(#[trigger] graph@.edges[i]) == x
                &&& final(self).arrivals_view() == Seq::<ArrivalView>::empty()
                &&& final(self).waiting() == Seq::<Seq<char>>::empty()
                &&& final(self).snapshot() is None
            },
            !old(self).is_released() ==> final(self).required() == old(self).required()
                && final(self).arrivals_view() == old(self).arrivals_view() && final(self).waiting()
                == old(self).waiting() && final(self).snapshot() == old(self).snapshot(),
    {
        if !self.released {
            return ;
        }
        *self = CollectorBarrierState::new(graph, collector_id);
    }

    /// Records an arrival under `merge_key`; the first arrival for a key is
    /// kept and later ones are ignored.
    pub fn insert_arrival(&mut self, merge_key: String, arrival: CollectorInputStatus)
        requires
            old(self).wf(),
        ensures
            final(self).wf(),
            final(self).required() == old(self).required(),
            final(self).waiting() == old(self).waiting(),
            final(self).is_released() == old(self).is_released(),
            final(self).snapshot() == old(self).snapshot(),
            arrival_for(old(self).arrivals_view(), merge_key@) is Some ==> final(self).arrivals_view()
                == old(self).arrivals_view(),
            arrival_for(old(self).arrivals_view(), merge_key@) is None ==> arrival_for(
                final(self).arrivals_view(),
                merge_key@,
            ) == Some(arrival@),
            forall|k: Seq<char>|
                k != merge_key@ ==> #[trigger] arrival_for(final(self).arrivals_view(), k)
                    == arrival_for(old(self).arrivals_view(), k),
    {
        let ghost old_v = self.arrivals_view();
        let mut i: usize = 0;
        while i < self.arrivals.len() && str_lt(self.arrivals[i].merge_key.as_str(), merge_key.as_str())
            invariant
                i <= self.arrivals.len(),
                old_v == self.arrivals_view(),
                arrivals_sorted(old_v),
                forall|j: int| 0 <= j < i ==> seq_lt(#[trigger] old_v[j].merge_key, merge_key@),
            decreases self.arrivals.len() - i,
        {
            i += 1;
        }
        if i < self.arrivals.len() && str_eq(self.arrivals[i].merge_key.as_str(), merge_key.as_str()) {
            proof {
                assert(old_v[i as int].merge_key == merge_key@);
                lemma_unique_arrival(old_v, i as int);
            }
            return ;
        }
        proof {
            if i < old_v.len() {
                lemma_lt_total(old_v[i as int].merge_key, merge_key@);
            }
            assert forall|j: int| 0 <= j < old_v.len() implies old_v[j].merge_key != merge_key@ by {
                lemma_lt_irreflexive(merge_key@);
                if j < i {
                } else if j > i {
                    lemma_lt_transitive(merge_key@, old_v[i as int].merge_key, old_v[j].merge_key);
                }
            }
        }
        let entry = Arrival { merge_key, input: arrival };
        let ghost ev = entry@;
        self.arrivals.insert(i, entry);
        proof {
            let nv = self.arrivals_view();
            assert(nv =~= old_v.insert(i as int, ev));
            assert forall|a: int, b: int| 0 <= a < b < nv.len() implies seq_lt(
                nv[a].merge_key,
                nv[b].merge_key,
            ) by {
                if b < i {
                } else if b == i {
                } else if a < i {
                    lemma_lt_transitive(nv[a].merge_key, ev.merge_key, old_v[i as int].merge_key);
                    if b - 1 > i {
                        lemma_lt_transitive(nv[a].merge_key, old_v[i as int].merge_key, nv[b].merge_key);
                    }
                } else if a == i {
                    if b - 1 > i {
                        lemma_lt_transitive(ev.merge_key, old_v[i as int].merge_key, nv[b].merge_key);
                    }
                }
            }
            assert(nv[i as int] == ev);
            lemma_unique_arrival(nv, i as int);
            assert forall|k: Seq<char>| k != ev.merge_key implies #[trigger] arrival_for(nv, k)
                == arrival_for(old_v, k) by {
                if exists|j: int| 0 <= j < old_v.len() && old_v[j].merge_key == k {
                    let j = choose|j: int| 0 <= j < old_v.len() && old_v[j].merge_key == k;
                    let nj = if j < i {
                        j
                    } else {
                        j + 1
                    };
                    assert(nv[nj] == old_v[j]);
                    lemma_unique_arrival(nv, nj);
                    lemma_unique_arrival(old_v, j);
                } else {
                    assert forall|j: int| 0 <= j < nv.len() implies nv[j].merge_key != k by {
                        if j < i {
                            assert(nv[j] == old_v[j]);
                        } else if j > i {
                            assert(nv[j] == old_v[j - 1]);
                        }
                    }
                }
            }
        }
    }

    /// Parks `cursor_id` at the barrier, once.
    pub fn add_waiting_cursor(&mut self, cursor_id: &str)
        requires
            old(self).wf(),
        ensures
            final(self).wf(),
            final(self).required() == old(self).required(),
            final(self).arrivals_view() == old(self).arrivals_view(),
            final(self).is_released() == old(self).is_released(),
            final(self).snapshot() == old(self).snapshot(),
            final(self).waiting() == if old(self).waiting().contains(cursor_id@) {
                old(self).waiting()
            } else {
                old(self).waiting().push(cursor_id@)
            },
    {
        if !crate::strset::contains_str(&self.waiting_cursor_ids, cursor_id) {
            self.waiting_cursor_ids.push(cursor_id.to_owned());
        }
    }

    /// Every required key has arrived and the barrier has not been released.
    pub fn is_ready(&self) -> (r: bool)
        requires
            self.wf(),
        ensures
            r == (!self.is_released() && forall|i: int|
                0 <= i < self.required().len() ==> arrival_for(
                    self.arrivals_view(),
                    #[trigger] self.required()[i],
                ) is Some),
    {
        if self.released {
            return false;
        }
        let ghost av = self.arrivals_view();
        let mut i: usize = 0;
        while i < self.required_inputs.len()
            invariant
                i <= self.required_inputs.len(),
                av == self.arrivals_view(),
                arrivals_sorted(av),
                forall|j: int| 0 <= j < i ==> arrival_for(av, #[trigger] self.required()[j]) is Some,
            decreases self.required_inputs.len() - i,
        {
            let key = self.required_inputs[i].as_str();
            let mut found = false;
            let mut k: usize = 0;
            while k < self.arrivals.len()
                invariant
                    k <= self.arrivals.len(),
                    av == self.arrivals_view(),
                    key@ == self.required()[i as int],
                    found ==> arrival_for(av, key@) is Some,
                    !found ==> forall|j: int| 0 <= j < k ==> (#[trigger] av[j]).merge_key != key@,
                decreases self.arrivals.len() - k,
            {
                if str_eq(self.arrivals[k].merge_key.as_str(), key) {
                    assert(av[k as int].merge_key == key@);
                    found = true;
                }
                k += 1;
            }
            if !found {
                assert(arrival_for(av, key@) is None);
                return false;
            }
            i += 1;
        }
        true
    }

    /// Marks the barrier released.
    pub fn release(&mut self)
        ensures
            final(self).is_released(),
            final(self).required() == old(self).required(),
            final(self).arrivals_view() == old(self).arrivals_view(),
            final(self).waiting() == old(self).waiting(),
            final(self).snapshot() == old(self).snapshot(),
            old(self).wf() ==> final(self).wf(),
    {
        self.released = true;
    }

    /// How many arrivals carry `status`.
    pub fn count_with_status(&self, status: CursorTerminalStatus) -> (r: usize)
        ensures
            r == self.arrivals_view().filter(|a: ArrivalView| a.input.status == status).len(),
    {
        let ghost av = self.arrivals_view();
        let ghost p = |a: ArrivalView| a.input.status == status;
        let mut n: usize = 0;
        let mut i: usize = 0;
        while i < self.arrivals.len()
            invariant
                i <= self.arrivals.len(),
                av == self.arrivals_view(),
                p == (|a: ArrivalView| a.input.status == status),
                n == av.take(i as int).filter(p).len(),
                n <= i,
            decreases self.arrivals.len() - i,
        {
            proof {
                crate::seqs::lemma_filter_take_step(av, p, i as int);
            }
            if self.arrivals[i].input.status == status {
                n += 1;
            }
            i += 1;
        }
        proof {
            crate::seqs::lemma_take_full(av);
        }
        n
    }
}


/// Some cursor in `cs` has the id.
pub open spec fn is_live(cs: Seq<CursorView>, cursor_id: Seq<char>) -> bool {
    exists|i: int| 0 <= i < cs.len() && (#[trigger] cs[i]).cursor_id == cursor_id
}

/// The first waiting cursor that is still live, as a position in the
/// waiting list, or -1.
pub open spec fn first_live_waiting(waiting: Seq<Seq<char>>, cs: Seq<CursorView>) -> int {
    crate::routing::first_idx(|i: int| is_live(cs, waiting[i]), 0, waiting.len() as int)
}

/// The waiting cursors that a release removes: the live ones other than the
/// representative, in waiting order.
pub open spec fn released_siblings(waiting: Seq<Seq<char>>, cs: Seq<CursorView>, representative: Seq<char>) -> Seq<Seq<char>> {
    waiting.filter(|id: Seq<char>| id != representative && is_live(cs, id))
}

/// What a released collector reports of its arrivals.
#[derive(Debug, Clone, Copy, PartialEq, Eq, Structural)]
pub struct CollectorSummary {
    pub total: usize,
    pub succeeded: usize,
    pub failed: usize,
    pub timed_out: usize,
    pub cancelled: usize,
}

pub open spec fn status_count(s: Seq<ArrivalView>, status: CursorTerminalStatus) -> nat {
    s.filter(|a: ArrivalView| a.input.status == status).len()
}

/// A barrier is idle once released, when no cursor waits at its collector
/// in its scope any more.
pub open spec fn barrier_idle(key: BarrierKeyView, released: bool, cs: Seq<CursorView>) -> bool {
    released && !exists|i: int|
        0 <= i < cs.len() && (#[trigger] cs[i]).state == CursorRuntimeState::WaitingCollector
            && cs[i].node_id == key.collector_id && barrier_scope(cs[i]) == key.scope
}

fn cursor_is_live(cursors: &Vec<CursorState>, cursor_id: &str) -> (r: bool)
    ensures
        r == is_live(cursors_view(cursors@), cursor_id@),
{
    match crate::cursor::find_cursor_index(cursors, cursor_id) {
        Some(k) => {
            assert(cursors_view(cursors@)[k as int].cursor_id == cursor_id@);
            true
        },
        None => false,
    }
}

impl CollectorBarrierState {
    /// Keeps `cursor` as the snapshot unless one is kept already.
    pub fn keep_snapshot(&mut self, cursor: &CursorState)
        ensures
            final(self).snapshot() == (match old(self).snapshot() {
                Some(c) => Some(c),
                None => Some(cursor@),
            }),
            final(self).required() == old(self).required(),
            final(self).arrivals_view() == old(self).arrivals_view(),
            final(self).waiting() == old(self).waiting(),
            final(self).is_released() == old(self).is_released(),
            old(self).wf() ==> final(self).wf(),
    {
        if self.representative_snapshot.is_none() {
            self.representative_snapshot = Some(cursor.duplicate());
        }
    }

    /// A copy of the snapshot.
    pub fn snapshot_copy(&self) -> (r: Option<CursorState>)
        ensures
            match r {
                Some(c) => self.snapshot() == Some(c@),
                None => self.snapshot() is None,
            },
    {
        match &self.representative_snapshot {
            Some(c) => Some(c.duplicate()),
            None => None,
        }
    }

    /// The position in the waiting list of the cursor that carries the
    /// collector on: the first waiting cursor that is still live.
    pub fn representative_waiting(&self, cursors: &Vec<CursorState>) -> (r: Option<usize>)
        ensures
            match r {
                Some(i) => i < self.waiting().len() && i as int == first_live_waiting(
                    self.waiting(),
                    cursors_view(cursors@),
                ),
                None => first_live_waiting(self.waiting(), cursors_view(cursors@)) == -1,
            },
    {
        let ghost w = self.waiting();
        let ghost cs = cursors_view(cursors@);
        let ghost p = |i: int| is_live(cs, w[i]);
        let mut i: usize = 0;
        while i < self.waiting_cursor_ids.len()
            invariant
                i <= self.waiting_cursor_ids.len(),
                w == self.waiting(),
                cs == cursors_view(cursors@),
                p == (|i: int| is_live(cs, w[i])),
                forall|j: int| 0 <= j < i ==> !#[trigger] p(j),
            decreases self.waiting_cursor_ids.len() - i,
        {
            if cursor_is_live(cursors, self.waiting_cursor_ids[i].as_str()) {
                proof {
                    assert(p(i as int));
                    crate::routing::lemma_first_idx_is(p, w.len() as int, i as int);
                }
                return Some(i);
            }
            i += 1;
        }
        proof {
            crate::routing::lemma_first_idx(p, 0, w.len() as int);
        }
        None
    }

    /// The id at a position of the waiting list.
    pub fn waiting_id(&self, i: usize) -> (r: &str)
        requires
            i < self.waiting().len(),
        ensures
            r@ == self.waiting()[i as int],
    {
        self.waiting_cursor_ids[i].as_str()
    }

    /// The live waiting cursors other than `representative`, in waiting order.
    pub fn released_siblings(&self, cursors: &Vec<CursorState>, representative: &str) -> (r: Vec<String>)
        ensures
            r.deep_view() == released_siblings(self.waiting(), cursors_view(cursors@), representative@),
    {
        let ghost w = self.waiting();
        let ghost cs = cursors_view(cursors@);
        let ghost p = |id: Seq<char>| id != representative@ && is_live(cs, id);
        let mut out: Vec<String> = Vec::new();
        let mut i: usize = 0;
        while i < self.waiting_cursor_ids.len()
            invariant
                i <= self.waiting_cursor_ids.len(),
                w == self.waiting(),
                cs == cursors_view(cursors@),
                p == (|id: Seq<char>| id != representative@ && is_live(cs, id)),
                out.deep_view() == w.take(i as int).filter(p),
            decreases self.waiting_cursor_ids.len() - i,
        {
            proof {
                crate::seqs::lemma_filter_take_step(w, p, i as int);
            }
            let id = self.waiting_cursor_ids[i].as_str();
            assert(id@ == w[i as int]);
            if !str_eq(id, representative) && cursor_is_live(cursors, id) {
                let ghost before = out.deep_view();
                out.push(id.to_owned());
                assert(out.deep_view() =~= before.push(w[i as int]));
            }
            i += 1;
        }
        proof {
            crate::seqs::lemma_take_full(w);
        }
        out
    }

    /// The summary a release reports: how many inputs were required, and how
    /// many arrivals carry each terminal status.
    pub fn summary(&self) -> (r: CollectorSummary)
        ensures
            r.total == self.required().len(),
            r.succeeded == status_count(self.arrivals_view(), CursorTerminalStatus::Success),
            r.failed == status_count(self.arrivals_view(), CursorTerminalStatus::Failure),
            r.timed_out == status_count(self.arrivals_view(), CursorTerminalStatus::Timeout),
            r.cancelled == status_count(self.arrivals_view(), CursorTerminalStatus::Cancelled),
    {
        CollectorSummary {
            total: self.required_inputs.len(),
            succeeded: self.count_with_status(CursorTerminalStatus::Success),
            failed: self.count_with_status(CursorTerminalStatus::Failure),
            timed_out: self.count_with_status(CursorTerminalStatus::Timeout),
            cancelled: self.count_with_status(CursorTerminalStatus::Cancelled),
        }
    }
}

/// The barrier under `key` is released and no cursor waits on it any more.
pub fn collector_barrier_is_idle(key: &CollectorBarrierKey, barrier: &CollectorBarrierState, cursors: &Vec<CursorState>) -> (r: bool)
    ensures
        r == barrier_idle(key@, barrier.is_released(), cursors_view(cursors@)),
{
    if !barrier.released {
        return false;
    }
    let ghost cs = cursors_view(cursors@);
    let mut i: usize = 0;
    while i < cursors.len()
        invariant
            i <= cursors.len(),
            cs == cursors_view(cursors@),
            forall|j: int|
                0 <= j < i ==> !((#[trigger] cs[j]).state == CursorRuntimeState::WaitingCollector
                    && cs[j].node_id == key@.collector_id && barrier_scope(cs[j]) == key@.scope),
        decreases cursors.len() - i,
    {
        let c = &cursors[i];
        assert(cs[i as int] == c@);
        if c.state == CursorRuntimeState::WaitingCollector && str_eq(c.node_id.as_str(), key.collector_id.as_str())
            && str_eq(collector_barrier_scope(c), key.scope.as_str()) {
            return false;
        }
        i += 1;
    }
    true
}

/// A cursor made from a barrier's snapshot when no waiting cursor is left:
/// it carries the collector on under a fresh id.
pub open spec fn revived(snapshot: CursorView, cursor_id: Seq<char>, collector_id: Seq<char>) -> CursorView {
    CursorView {
        cursor_id,
        node_id: collector_id,
        state: CursorRuntimeState::WaitingCollector,
        ..snapshot
    }
}

/// The cursor a released barrier continues with: its snapshot under a new id, at the
/// collector.
pub fn revive_from_snapshot(snapshot: CursorState, cursor_id: String, collector_id: &str) -> (r: CursorState)
    ensures
        r@ == revived(snapshot@, cursor_id@, collector_id@),
{
    let mut c = snapshot;
    c.cursor_id = cursor_id;
    c.node_id = collector_id.to_owned();
    c.state = CursorRuntimeState::WaitingCollector;
    c
}


/// Everything a barrier holds, as one value.
pub struct BarrierView {
    pub required: Seq<Seq<char>>,
    pub arrivals: Seq<ArrivalView>,
    pub waiting: Seq<Seq<char>>,
    pub released: bool,
    pub snapshot: Option<CursorView>,
}

impl CollectorBarrierState {
    pub open spec fn bview(&self) -> BarrierView {
        BarrierView {
            required: self.required(),
            arrivals: self.arrivals_view(),
            waiting: self.waiting(),
            released: self.is_released(),
            snapshot: self.snapshot(),
        }
    }
}

/// The barriers of a run, each key at most once.
#[derive(Debug)]
pub struct CollectorBarriers {
    entries: Vec<(CollectorBarrierKey, CollectorBarrierState)>,
}

impl CollectorBarriers {
    pub closed spec fn keys(&self) -> Seq<BarrierKeyView> {
        self.entries@.map_values(|e: (CollectorBarrierKey, CollectorBarrierState)| e.0@)
    }

    pub closed spec fn barriers(&self) -> Seq<BarrierView> {
        self.entries@.map_values(|e: (CollectorBarrierKey, CollectorBarrierState)| e.1.bview())
    }

    pub closed spec fn wf(&self) -> bool {
        &&& forall|i: int, j: int|
            0 <= i < j < self.entries@.len() ==> (#[trigger] self.entries@[i]).0@ != (#[trigger] self.entries@[j]).0@
        &&& forall|i: int| 0 <= i < self.entries@.len() ==> (#[trigger] self.entries@[i]).1.wf()
    }

    /// There is one barrier per key.
    pub proof fn lemma_view_lengths(&self)
        ensures
            self.keys().len() == self.barriers().len(),
    {
    }

    /// A barrier table holds each key once.
    pub proof fn lemma_unique_keys(&self)
        requires
            self.wf(),
        ensures
            forall|i: int, j: int|
                0 <= i < j < self.keys().len() ==> (#[trigger] self.keys()[i]) != (#[trigger] self.keys()[j]),
    {
        assert forall|i: int, j: int| 0 <= i < j < self.keys().len() implies (#[trigger] self.keys()[i])
            != (#[trigger] self.keys()[j]) by {
            assert(self.keys()[i] == self.entries@[i].0@);
            assert(self.keys()[j] == self.entries@[j].0@);
        }
    }

/// An empty table of barriers.
    pub fn new() -> (r: CollectorBarriers)
        ensures
            r.wf(),
            r.keys() == Seq::<BarrierKeyView>::empty(),
            r.barriers() == Seq::<BarrierView>::empty(),
    {
        let r = CollectorBarriers { entries: Vec::new() };
        assert(r.keys() =~= Seq::<BarrierKeyView>::empty());
        assert(r.barriers() =~= Seq::<BarrierView>::empty());
        r
    }

/// The number of barriers.
    pub fn len(&self) -> (r: usize)
        ensures
            r == self.keys().len(),
            r == self.barriers().len(),
    {
        self.entries.len()
    }

/// The key of barrier `i`.
    pub fn key_at(&self, i: usize) -> (r: &CollectorBarrierKey)
        requires
            i < self.keys().len(),
        ensures
            r@ == self.keys()[i as int],
    {
        &self.entries[i].0
    }

/// Barrier `i`.
    pub fn barrier_at(&self, i: usize) -> (r: &CollectorBarrierState)
        requires
            self.wf(),
            i < self.barriers().len(),
        ensures
            r.bview() == self.barriers()[i as int],
            r.wf(),
    {
        &self.entries[i].1
    }

    /// Position of the barrier under `key`.
    pub fn find(&self, key: &CollectorBarrierKey) -> (r: Option<usize>)
        ensures
            match r {
                Some(i) => i < self.keys().len() && self.keys()[i as int] == key@,
                None => !self.keys().contains(key@),
            },
    {
        let mut i: usize = 0;
        while i < self.entries.len()
            invariant
                i <= self.entries.len(),
                forall|j: int| 0 <= j < i ==> self.keys()[j] != key@,
            decreases self.entries.len() - i,
        {
            let k = &self.entries[i].0;
            assert(self.keys()[i as int] == k@);
            if str_eq(k.scope.as_str(), key.scope.as_str()) && str_eq(k.collector_id.as_str(), key.collector_id.as_str())
                && k.execution_epoch == key.execution_epoch {
                return Some(i);
            }
            i += 1;
        }
        None
    }

    /// The position of the barrier under `key`, made fresh for
    /// `collector_id` when there is none.
    pub fn entry_for(&mut self, key: CollectorBarrierKey, graph: &WorkflowGraph, collector_id: &str) -> (r: usize)
        requires
            old(self).wf(),
        ensures
            final(self).wf(),
            r < final(self).keys().len(),
            final(self).keys()[r as int] == key@,
            old(self).keys().contains(key@) ==> final(self).keys() == old(self).keys() && final(self).barriers()
                == old(self).barriers(),
            !old(self).keys().contains(key@) ==> {
                &&& final(self).keys() == old(self).keys().push(key@)
                &&& final(self).barriers().drop_last() == old(self).barriers()
                &&& !final(self).barriers()[r as int].released
                &&& final(self).barriers()[r as int].arrivals == Seq::<ArrivalView>::empty()
                &&& final(self).barriers()[r as int].waiting == Seq::<Seq<char>>::empty()
                &&& final(self).barriers()[r as int].snapshot is None
                &&& forall|x: Seq<char>| #[trigger]
                    final(self).barriers()[r as int].required.contains(x) <==> exists|i: int|
                        0 <= i < graph@.edges.len() && graph@.edges[i].to == collector_id@ && merge_key(
                            #[trigger] graph@.edges[i],
                        ) == x
            },
    {
        match self.find(&key) {
            Some(i) => i,
            None => {
                let ghost ok = self.keys();
                let ghost ob = self.barriers();
                let ghost kv = key@;
                let b = CollectorBarrierState::new(graph, collector_id);
                let ghost bv = b.bview();
                self.entries.push((key, b));
                proof {
                    assert(self.keys() =~= ok.push(kv));
                    assert(self.barriers() =~= ob.push(bv));
                    assert forall|i: int, j: int|
                        0 <= i < j < self.entries@.len() implies (#[trigger] self.entries@[i]).0@ != (
                        #[trigger] self.entries@[j]).0@ by {
                        if j == ok.len() {
                            assert(self.entries@[i].0@ == ok[i]);
                            assert(ok.contains(ok[i]));
                        } else {
                            assert(self.entries@[i] == old(self).entries@[i]);
                            assert(self.entries@[j] == old(self).entries@[j]);
                        }
                    }
                    assert forall|i: int| 0 <= i < self.entries@.len() implies (#[trigger] self.entries@[i]).1.wf() by {
                        if i < ok.len() {
                            assert(self.entries@[i] == old(self).entries@[i]);
                        }
                    }
                    assert(self.barriers().drop_last() =~= ob);
                }
                self.entries.len() - 1
            },
        }
    }
}

impl CollectorBarriers {
    /// Barrier `i`, entered again after its release, starts over.
    pub fn reset_released_at(&mut self, i: usize, graph: &WorkflowGraph, collector_id: &str)
        requires
            old(self).wf(),
            i < old(self).keys().len(),
        ensures
            final(self).wf(),
            final(self).keys() == old(self).keys(),
            final(self).barriers().len() == old(self).barriers().len(),
            forall|j: int| 0 <= j < old(self).barriers().len() && j != i ==> final(self).barriers()[j] == old(
                self,
            ).barriers()[j],
            !final(self).barriers()[i as int].released,
            old(self).barriers()[i as int].released ==> {
                &&& final(self).barriers()[i as int].arrivals == Seq::<ArrivalView>::empty()
                &&& final(self).barriers()[i as int].waiting == Seq::<Seq<char>>::empty()
                &&& final(self).barriers()[i as int].snapshot is None
                &&& forall|x: Seq<char>| #[trigger]
                    final(self).barriers()[i as int].required.contains(x) <==> exists|k: int|
                        0 <= k < graph@.edges.len() && graph@.edges[k].to == collector_id@ && merge_key(
                            #[trigger] graph@.edges[k],
                        ) == x
            },
            !old(self).barriers()[i as int].released ==> final(self).barriers() == old(self).barriers(),
    {
        let ghost oe = self.entries@;
        assert(oe[i as int].1.wf());
        self.entries[i].1.reset_released(graph, collector_id);
        proof {
            self.lemma_same_elsewhere(oe, i as int);
        }
    }

    /// Records an arrival at barrier `i` (the first arrival per key is kept).
    pub fn insert_arrival_at(&mut self, i: usize, merge_key: String, arrival: CollectorInputStatus)
        requires
            old(self).wf(),
            i < old(self).keys().len(),
        ensures
            final(self).wf(),
            final(self).keys() == old(self).keys(),
            final(self).barriers().len() == old(self).barriers().len(),
            forall|j: int| 0 <= j < old(self).barriers().len() && j != i ==> final(self).barriers()[j] == old(
                self,
            ).barriers()[j],
            ({
                let o = old(self).barriers()[i as int];
                let n = final(self).barriers()[i as int];
                &&& n.required == o.required && n.waiting == o.waiting && n.released == o.released
                    && n.snapshot == o.snapshot
                &&& arrival_for(o.arrivals, merge_key@) is Some ==> n.arrivals == o.arrivals
                &&& arrival_for(o.arrivals, merge_key@) is None ==> arrival_for(n.arrivals, merge_key@) == Some(
                    arrival@,
                )
                &&& forall|k: Seq<char>|
                    k != merge_key@ ==> #[trigger] arrival_for(n.arrivals, k) == arrival_for(o.arrivals, k)
            }),
    {
        let ghost oe = self.entries@;
        assert(oe[i as int].1.wf());
        self.entries[i].1.insert_arrival(merge_key, arrival);
        proof {
            self.lemma_same_elsewhere(oe, i as int);
        }
    }

    /// Parks `cursor_id` at barrier `i`, once.
    pub fn add_waiting_at(&mut self, i: usize, cursor_id: &str)
        requires
            old(self).wf(),
            i < old(self).keys().len(),
        ensures
            final(self).wf(),
            final(self).keys() == old(self).keys(),
            final(self).barriers() == old(self).barriers().update(
                i as int,
                BarrierView {
                    waiting: if old(self).barriers()[i as int].waiting.contains(cursor_id@) {
                        old(self).barriers()[i as int].waiting
                    } else {
                        old(self).barriers()[i as int].waiting.push(cursor_id@)
                    },
                    ..old(self).barriers()[i as int]
                },
            ),
    {
        let ghost oe = self.entries@;
        assert(oe[i as int].1.wf());
        self.entries[i].1.add_waiting_cursor(cursor_id);
        proof {
            self.lemma_same_elsewhere(oe, i as int);
            assert(self.barriers() =~= old(self).barriers().update(
                i as int,
                BarrierView {
                    waiting: if old(self).barriers()[i as int].waiting.contains(cursor_id@) {
                        old(self).barriers()[i as int].waiting
                    } else {
                        old(self).barriers()[i as int].waiting.push(cursor_id@)
                    },
                    ..old(self).barriers()[i as int]
                },
            ));
        }
    }

    /// Keeps `cursor` as barrier `i`'s snapshot unless it has one.
    pub fn keep_snapshot_at(&mut self, i: usize, cursor: &CursorState)
        requires
            old(self).wf(),
            i < old(self).keys().len(),
        ensures
            final(self).wf(),
            final(self).keys() == old(self).keys(),
            final(self).barriers() == old(self).barriers().update(
                i as int,
                BarrierView {
                    snapshot: match old(self).barriers()[i as int].snapshot {
                        Some(c) => Some(c),
                        None => Some(cursor@),
                    },
                    ..old(self).barriers()[i as int]
                },
            ),
    {
        let ghost oe = self.entries@;
        assert(oe[i as int].1.wf());
        self.entries[i].1.keep_snapshot(cursor);
        proof {
            self.lemma_same_elsewhere(oe, i as int);
            assert(self.barriers() =~= old(self).barriers().update(
                i as int,
                BarrierView {
                    snapshot: match old(self).barriers()[i as int].snapshot {
                        Some(c) => Some(c),
                        None => Some(cursor@),
                    },
                    ..old(self).barriers()[i as int]
                },
            ));
        }
    }

    /// Marks barrier `i` released.
    pub fn release_at(&mut self, i: usize)
        requires
            old(self).wf(),
            i < old(self).keys().len(),
        ensures
            final(self).wf(),
            final(self).keys() == old(self).keys(),
            final(self).barriers() == old(self).barriers().update(
                i as int,
                BarrierView { released: true, ..old(self).barriers()[i as int] },
            ),
    {
        let ghost oe = self.entries@;
        assert(oe[i as int].1.wf());
        self.entries[i].1.release();
        proof {
            self.lemma_same_elsewhere(oe, i as int);
            assert(self.barriers() =~= old(self).barriers().update(
                i as int,
                BarrierView { released: true, ..old(self).barriers()[i as int] },
            ));
        }
    }

    proof fn lemma_same_elsewhere(&self, oe: Seq<(CollectorBarrierKey, CollectorBarrierState)>, i: int)
        requires
            0 <= i < oe.len(),
            self.entries@.len() == oe.len(),
            forall|j: int| 0 <= j < oe.len() && j != i ==> self.entries@[j] == oe[j],
            self.entries@[i].0 == oe[i].0,
            self.entries@[i].1.wf(),
            forall|a: int, b: int| 0 <= a < b < oe.len() ==> (#[trigger] oe[a]).0@ != (#[trigger] oe[b]).0@,
            forall|a: int| 0 <= a < oe.len() ==> (#[trigger] oe[a]).1.wf(),
        ensures
            self.wf(),
            self.keys() == oe.map_values(|e: (CollectorBarrierKey, CollectorBarrierState)| e.0@),
            forall|j: int|
                0 <= j < oe.len() && j != i ==> self.barriers()[j] == (#[trigger] oe[j]).1.bview(),
            self.barriers().len() == oe.len(),
    {
        assert(self.keys() =~= oe.map_values(|e: (CollectorBarrierKey, CollectorBarrierState)| e.0@));
        assert forall|a: int, b: int| 0 <= a < b < self.entries@.len() implies (#[trigger] self.entries@[a]).0@
            != (#[trigger] self.entries@[b]).0@ by {
            assert(self.entries@[a].0 == oe[a].0);
            assert(self.entries@[b].0 == oe[b].0);
        }
        assert forall|a: int| 0 <= a < self.entries@.len() implies (#[trigger] self.entries@[a]).1.wf() by {
            if a != i {
                assert(self.entries@[a] == oe[a]);
            }
        }
    }

    /// The positions of the barriers ready for release, in order.
    pub fn ready_indices(&self) -> (r: Vec<usize>)
        requires
            self.wf(),
        ensures
            r@.map_values(|i: usize| i as int) == Seq::new(self.barriers().len(), |i: int| i).filter(
                |i: int| barrier_ready(self.barriers()[i]),
            ),
    {
        let ghost n = self.barriers().len();
        let ghost idx = Seq::new(n, |i: int| i);
        let ghost bs = self.barriers();
        let ghost p = |i: int| barrier_ready(bs[i]);
        let mut out: Vec<usize> = Vec::new();
        let mut i: usize = 0;
        while i < self.entries.len()
            invariant
                i <= self.entries.len(),
                self.wf(),
                n == self.barriers().len(),
                bs == self.barriers(),
                idx == Seq::new(n, |i: int| i),
                p == (|i: int| barrier_ready(bs[i])),
                out@.map_values(|i: usize| i as int) == idx.take(i as int).filter(p),
            decreases self.entries.len() - i,
        {
            proof {
                crate::seqs::lemma_filter_take_step(idx, p, i as int);
                assert(self.entries@[i as int].1.wf());
                assert(bs[i as int] == self.entries@[i as int].1.bview());
            }
            if self.entries[i].1.is_ready() {
                let ghost before = out@;
                out.push(i);
                proof {
                    assert(out@.map_values(|i: usize| i as int) =~= before.map_values(|i: usize| i as int).push(
                        i as int,
                    ));
                }
            }
            i += 1;
        }
        proof {
            crate::seqs::lemma_take_full(idx);
        }
        out
    }

    /// Drops the released barriers that no cursor waits on any more.
    pub fn evict_idle(&mut self, cursors: &Vec<CursorState>)
        requires
            old(self).wf(),
        ensures
            final(self).wf(),
            ({
                let cs = cursors_view(cursors@);
                let keep = Seq::new(old(self).keys().len(), |i: int| i).filter(
                    |i: int| !barrier_idle(old(self).keys()[i], old(self).barriers()[i].released, cs),
                );
                &&& final(self).keys() == keep.map_values(|i: int| old(self).keys()[i])
                &&& final(self).barriers() == keep.map_values(|i: int| old(self).barriers()[i])
            }),
    {
        let ghost ok = self.keys();
        let ghost ob = self.barriers();
        let ghost cs = cursors_view(cursors@);
        let ghost idx = Seq::new(ok.len(), |i: int| i);
        let ghost p = |i: int| !barrier_idle(ok[i], ob[i].released, cs);
        let mut rest: Vec<(CollectorBarrierKey, CollectorBarrierState)> = Vec::new();
        std::mem::swap(&mut rest, &mut self.entries);
        let ghost src = rest@;
        assert(src.len() == rest.len());
        let mut kept: Vec<(CollectorBarrierKey, CollectorBarrierState)> = Vec::new();
        let mut i: usize = 0;
        while rest.len() > 0
            invariant
                i + rest.len() == src.len(),
                src.len() <= usize::MAX,
                rest@ == src.skip(i as int),
                ok == src.map_values(|e: (CollectorBarrierKey, CollectorBarrierState)| e.0@),
                ob == src.map_values(|e: (CollectorBarrierKey, CollectorBarrierState)| e.1.bview()),
                idx == Seq::new(ok.len(), |i: int| i),
                cs == cursors_view(cursors@),
                p == (|i: int| !barrier_idle(ok[i], ob[i].released, cs)),
                forall|a: int| 0 <= a < src.len() ==> (#[trigger] src[a]).1.wf(),
                kept@.len() == idx.take(i as int).filter(p).len(),
                forall|a: int|
                    0 <= a < kept@.len() ==> (#[trigger] kept@[a]) == src[idx.take(i as int).filter(p)[a]],
            decreases rest.len(),
        {
            let e = rest.remove(0);
            proof {
                assert(e == src[i as int]);
                crate::seqs::lemma_filter_take_step(idx, p, i as int);
                assert(rest@ =~= src.skip(i + 1));
                assert(ok[i as int] == e.0@);
                assert(ob[i as int] == e.1.bview());
            }
            if !collector_barrier_is_idle(&e.0, &e.1, cursors) {
                let ghost before = kept@;
                kept.push(e);
                proof {
                    assert(idx[i as int] == i);
                }
            }
            i += 1;
        }
        proof {
            crate::seqs::lemma_take_full(idx);
        }
        self.entries = kept;
        proof {
            let keep = idx.filter(p);
            lemma_filter_indices_increasing(idx, p);
            assert(self.keys() =~= keep.map_values(|i: int| ok[i]));
            assert(self.barriers() =~= keep.map_values(|i: int| ob[i]));
            assert forall|a: int, b: int| 0 <= a < b < self.entries@.len() implies (#[trigger] self.entries@[a]).0@
                != (#[trigger] self.entries@[b]).0@ by {
                assert(keep[a] < keep[b]);
                assert(old(self).entries@[keep[a]].0@ != old(self).entries@[keep[b]].0@);
            }
        }
    }
}

/// The positions a filter of `0..n` keeps rise strictly.
proof fn lemma_filter_indices_increasing(idx: Seq<int>, p: spec_fn(int) -> bool)
    requires
        forall|i: int| 0 <= i < idx.len() ==> idx[i] == i,
    ensures
        forall|a: int, b: int| 0 <= a < b < idx.filter(p).len() ==> idx.filter(p)[a] < idx.filter(p)[b],
        forall|a: int| 0 <= a < idx.filter(p).len() ==> 0 <= #[trigger] idx.filter(p)[a] < idx.len(),
    decreases idx.len(),
{
    reveal(Seq::filter);
    if idx.len() > 0 {
        let init = idx.drop_last();
        lemma_filter_indices_increasing(init, p);
        if p(idx.last()) {
            assert(idx.filter(p) == init.filter(p).push(idx.last()));
        } else {
            assert(idx.filter(p) == init.filter(p));
        }
    }
}

/// A barrier is ready when it is not released and every required key has
/// arrived.
pub open spec fn barrier_ready(b: BarrierView) -> bool {
    !b.released && forall|i: int| 0 <= i < b.required.len() ==> arrival_for(b.arrivals, #[trigger] b.required[i]) is Some
}
} // verus!

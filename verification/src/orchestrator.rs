//! The orchestrator: the single serialized consumer of control commands. It
//! reconciles the desired target set against the running probe tasks,
//! propagates interval changes without losing counters, and answers export
//! requests with a consistent snapshot. Callers perform the returned plan
//! (spawn, notify, stop) outside; the state recorded here is the single
//! source of truth for which tasks run and which records exist.

use vstd::prelude::*;
use crate::order::{
    lex_lt, key_cmp, KeyOrder, copy_key, lemma_lex_trichotomy, lemma_lex_trans,
};
use crate::stat::{PingStat, StatModel, zero_stat};
use crate::store::{StatsStore, has_key, has_record, sorted_strict};
use crate::target::{valid_target, validate_target};
use crate::export::{csv_of, csv_export};

verus! {

/// The identities a list of keys holds.
pub open spec fn key_views(v: Seq<Vec<u8>>) -> Seq<Seq<u8>> {
    v.map_values(|k: Vec<u8>| k@)
}

/// Keys strictly ordered (so also unique).
pub open spec fn keys_sorted(s: Seq<Seq<u8>>) -> bool {
    forall|i: int, j: int| 0 <= i < j < s.len() ==> lex_lt(s[i], s[j])
}

/// The key occurs in the list.
pub open spec fn key_in(s: Seq<Seq<u8>>, k: Seq<u8>) -> bool {
    exists|i: int| 0 <= i < s.len() && s[i] == k
}

/// A target the command asks to run and the admission check accepts.
pub open spec fn desired(ips: Seq<Seq<u8>>, k: Seq<u8>) -> bool {
    key_in(ips, k) && valid_target(k)
}

/// Whether the key occurs in the list (no order assumed).
fn key_list_contains(v: &Vec<Vec<u8>>, key: &Vec<u8>) -> (r: bool)
    ensures
        r == key_in(key_views(v@), key@),
{
    let mut i: usize = 0;
    while i < v.len()
        invariant
            i <= v@.len(),
            forall|j: int| 0 <= j < i ==> key_views(v@)[j] != key@,
        decreases v@.len() - i,
    {
        match key_cmp(&v[i], key) {
            KeyOrder::Same => {
                assert(key_views(v@)[i as int] == key@);
                return true;
            },
            _ => {
                proof {
                    lemma_lex_trichotomy(v@[i as int]@, key@);
                }
            },
        }
        i = i + 1;
    }
    false
}

/// Insert a key at its position, all earlier keys below it and the key at
/// `i`, if any, above it.
fn insert_at(v: &mut Vec<Vec<u8>>, i: usize, key: Vec<u8>)
    requires
        keys_sorted(key_views(old(v)@)),
        i <= old(v)@.len(),
        forall|j: int| 0 <= j < i ==> lex_lt(#[trigger] key_views(old(v)@)[j], key@),
        i < old(v)@.len() ==> lex_lt(key@, key_views(old(v)@)[i as int]),
    ensures
        keys_sorted(key_views(final(v)@)),
        forall|k: Seq<u8>| key_in(key_views(final(v)@), k)
            <==> (key_in(key_views(old(v)@), k) || k == key@),
{
    let ghost olds = key_views(v@);
    let ghost idx = i as int;
    v.insert(i, key);
    proof {
        let news = key_views(v@);
        assert(news =~= olds.insert(idx, key@));
        assert forall|a: int, b: int| 0 <= a < b < news.len()
            implies lex_lt(news[a], news[b]) by {
            if b < idx {
                assert(news[a] == olds[a] && news[b] == olds[b]);
            } else if a > idx {
                assert(news[a] == olds[a - 1] && news[b] == olds[b - 1]);
            } else if a < idx && b == idx {
                assert(news[a] == olds[a]);
            } else if a == idx && b > idx {
                assert(news[b] == olds[b - 1]);
                if b - 1 > idx {
                    lemma_lex_trans(key@, olds[idx], olds[b - 1]);
                }
            } else {
                assert(news[a] == olds[a] && news[b] == olds[b - 1]);
                if b - 1 == idx {
                    lemma_lex_trans(olds[a], key@, olds[b - 1]);
                } else {
                    lemma_lex_trans(key@, olds[idx], olds[b - 1]);
                    lemma_lex_trans(olds[a], key@, olds[b - 1]);
                }
            }
        }
        assert(news[idx] == key@);
        assert forall|k: Seq<u8>| key_in(news, k)
            implies (key_in(olds, k) || k == key@) by {
            let i0 = choose|i0: int| 0 <= i0 < news.len() && news[i0] == k;
            if i0 < idx {
                assert(olds[i0] == k);
            } else if i0 > idx {
                assert(olds[i0 - 1] == k);
            }
        }
        assert forall|k: Seq<u8>| (key_in(olds, k) || k == key@)
            implies key_in(news, k) by {
            if k == key@ {
                assert(news[idx] == k);
            } else {
                let i0 = choose|i0: int| 0 <= i0 < olds.len() && olds[i0] == k;
                if i0 < idx {
                    assert(news[i0] == k);
                } else {
                    assert(news[i0 + 1] == k);
                }
            }
        }
    }
}

/// Insert a key into a sorted list unless it is already there.
fn insert_sorted(v: &mut Vec<Vec<u8>>, key: Vec<u8>)
    requires
        keys_sorted(key_views(old(v)@)),
    ensures
        keys_sorted(key_views(final(v)@)),
        forall|k: Seq<u8>| key_in(key_views(final(v)@), k)
            <==> (key_in(key_views(old(v)@), k) || k == key@),
{
    let ghost olds = key_views(v@);
    let mut i: usize = 0;
    while i < v.len()
        invariant
            i <= v@.len(),
            olds == key_views(v@),
            olds == key_views(old(v)@),
            keys_sorted(olds),
            forall|j: int| 0 <= j < i ==> lex_lt(#[trigger] olds[j], key@),
        decreases v@.len() - i,
    {
        match key_cmp(&v[i], &key) {
            KeyOrder::Before => {
                assert(olds[i as int] == v@[i as int]@);
                i = i + 1;
            },
            KeyOrder::Same => {
                assert(olds[i as int] == key@);
                assert forall|k: Seq<u8>| key_in(key_views(v@), k)
                    implies (key_in(olds, k) || k == key@) by {}
                return;
            },
            KeyOrder::After => {
                assert(lex_lt(key@, olds[i as int]));
                insert_at(v, i, key);
                return;
            },
        }
    }
    insert_at(v, i, key);
}

/// The orchestrator's owned state: the current interval, the running
/// targets, and the statistics store.
pub struct Orchestrator {
    interval_ms: u64,
    running: Vec<Vec<u8>>,
    store: StatsStore,
}

/// The mathematical shape of that state.
pub struct OrchModel {
    pub interval: int,
    pub running: Seq<Seq<u8>>,
    pub records: Seq<StatModel>,
}

impl View for Orchestrator {
    type V = OrchModel;

    closed spec fn view(&self) -> OrchModel {
        OrchModel {
            interval: self.interval_ms as int,
            running: key_views(self.running@),
            records: self.store.records(),
        }
    }
}

/// The orchestrator's invariant: targets and records sorted, a record
/// exists exactly for each running target, and only admitted targets run.
pub open spec fn orch_wf(m: OrchModel) -> bool {
    &&& keys_sorted(m.running)
    &&& sorted_strict(m.records)
    &&& (forall|k: Seq<u8>| #![trigger key_in(m.running, k)] #![trigger has_key(m.records, k)]
        key_in(m.running, k) <==> has_key(m.records, k))
    &&& (forall|k: Seq<u8>| #[trigger] key_in(m.running, k) ==> valid_target(k))
}

impl Orchestrator {
    pub open spec fn wf(self) -> bool {
        orch_wf(self@)
    }

    pub fn new(interval_ms: u64) -> (o: Orchestrator)
        ensures
            o.wf(),
            o@.interval == interval_ms,
            o@.running.len() == 0,
            o@.records.len() == 0,
    {
        let o = Orchestrator {
            interval_ms,
            running: Vec::new(),
            store: StatsStore::new(),
        };
        proof {
            assert(key_views(o.running@) =~= Seq::<Seq<u8>>::empty());
        }
        o
    }

    pub fn interval_ms(&self) -> (r: u64)
        ensures
            r == self@.interval,
    {
        self.interval_ms
    }

    /// An independent copy of the running target list.
    fn running_copy(&self) -> (r: Vec<Vec<u8>>)
        ensures
            key_views(r@) == self@.running,
    {
        let mut r: Vec<Vec<u8>> = Vec::new();
        let mut i: usize = 0;
        while i < self.running.len()
            invariant
                i <= self.running@.len(),
                r@.len() == i,
                forall|j: int| 0 <= j < i ==> (#[trigger] r@[j])@ == self.running@[j]@,
            decreases self.running@.len() - i,
        {
            r.push(copy_key(&self.running[i]));
            i = i + 1;
        }
        proof {
            assert(key_views(r@) =~= key_views(self.running@));
        }
        r
    }

    /// Store the new interval and say which tasks to notify: every running
    /// one. Nothing else changes; in particular no record is touched, so no
    /// counter resets.
    pub fn handle_set_interval(&mut self, interval_ms: u64) -> (to_update: Vec<Vec<u8>>)
        requires
            old(self).wf(),
        ensures
            final(self).wf(),
            final(self)@.interval == interval_ms,
            final(self)@.running == old(self)@.running,
            final(self)@.records == old(self)@.records,
            key_views(to_update@) == old(self)@.running,
    {
        self.interval_ms = interval_ms;
        self.running_copy()
    }

    /// Stop everything: say which tasks to stop (all of them), forget them,
    /// and clear the store. From a state with nothing running this stops
    /// nothing and leaves both sides empty, without error.
    pub fn handle_stop(&mut self) -> (to_stop: Vec<Vec<u8>>)
        requires
            old(self).wf(),
        ensures
            final(self).wf(),
            final(self)@.interval == old(self)@.interval,
            final(self)@.running.len() == 0,
            final(self)@.records.len() == 0,
            key_views(to_stop@) == old(self)@.running,
    {
        let to_stop = self.running_copy();
        self.running = Vec::new();
        self.store.clear();
        proof {
            assert(key_views(self.running@) =~= Seq::<Seq<u8>>::empty());
        }
        to_stop
    }

    /// A consistent snapshot of the store, as records and as the CSV
    /// export: exactly the current records, in sorted target order, under
    /// the fixed header.
    pub fn export(&self) -> (r: (Vec<PingStat>, Vec<u8>))
        requires
            self.wf(),
        ensures
            r.0@.map_values(|p: PingStat| p@) == self@.records,
            r.1@ == csv_of(self@.records),
    {
        let rows = self.store.snapshot();
        let csv = csv_export(&rows);
        (rows, csv)
    }
}

/// One new task to spawn, with its staggered start delay.
pub struct StartEntry {
    pub target: Vec<u8>,
    pub delay_ms: u64,
}

/// What the caller must do after a start command: stop these tasks, spawn
/// those (each after its delay, at the plan's interval), send the new
/// interval to the kept ones; the rejected entries got no task.
pub struct StartPlan {
    pub interval_ms: u64,
    pub to_stop: Vec<Vec<u8>>,
    pub to_start: Vec<StartEntry>,
    pub to_update: Vec<Vec<u8>>,
    pub rejected: Vec<Vec<u8>>,
}

/// The staggered start delay of the n-th new task: ten milliseconds more
/// per task, saturating at the largest representable delay.
pub open spec fn stagger(n: int) -> int {
    if n <= u64::MAX as int / 10 {
        10 * n
    } else {
        u64::MAX as int
    }
}

/// The targets of the tasks a plan spawns.
pub open spec fn start_targets(es: Seq<StartEntry>) -> Seq<Seq<u8>> {
    es.map_values(|e: StartEntry| e.target@)
}

/// Membership among the first `n` keys.
pub open spec fn prefix_in(s: Seq<Seq<u8>>, n: int, k: Seq<u8>) -> bool {
    exists|j: int| 0 <= j < n && j < s.len() && s[j] == k
}

/// How a record carries over a reconciliation: a target that already had a
/// record keeps it unchanged; a fresh target gets the zero record.
pub open spec fn carried(pre_records: Seq<StatModel>, m: StatModel) -> bool {
    if has_key(pre_records, m.ip) {
        has_record(pre_records, m)
    } else {
        m == zero_stat(m.ip)
    }
}

/// Appending a key adds exactly that key's identity.
proof fn lemma_key_in_push(s: Seq<Seq<u8>>, x: Seq<u8>)
    ensures
        forall|k: Seq<u8>| #[trigger] key_in(s.push(x), k) == (key_in(s, k) || k == x),
{
    assert forall|k: Seq<u8>| #[trigger] key_in(s.push(x), k) == (key_in(s, k) || k == x) by {
        if key_in(s.push(x), k) {
            let a = choose|a: int| 0 <= a < s.push(x).len() && s.push(x)[a] == k;
            if a < s.len() {
                assert(s[a] == k);
            }
        }
        if key_in(s, k) {
            let a = choose|a: int| 0 <= a < s.len() && s[a] == k;
            assert(s.push(x)[a] == k);
        }
        if k == x {
            assert(s.push(x)[s.len() as int] == k);
        }
    }
}

/// Membership among the first `len` keys is membership.
proof fn lemma_prefix_full(s: Seq<Seq<u8>>)
    ensures
        forall|k: Seq<u8>| #[trigger] prefix_in(s, s.len() as int, k) == key_in(s, k),
{
}

/// Everything a start command guarantees. After `Start(ips, interval)`:
/// the admitted, deduplicated targets run — no others; kept targets keep
/// their records, new ones start at zero, dropped ones lose theirs; and the
/// plan names exactly the dropped, new and kept targets, the new ones with
/// staggered delays.
pub open spec fn start_post(
    pre: OrchModel,
    post: OrchModel,
    ips: Seq<Seq<u8>>,
    interval_ms: u64,
    plan: StartPlan,
) -> bool {
    &&& post.interval == interval_ms as int
    &&& (forall|k: Seq<u8>| #[trigger] key_in(post.running, k) <==> desired(ips, k))
    &&& (forall|m: StatModel| #[trigger] has_record(post.records, m)
        <==> (desired(ips, m.ip) && carried(pre.records, m)))
    &&& plan.interval_ms == interval_ms
    &&& keys_sorted(key_views(plan.to_stop@))
    &&& (forall|k: Seq<u8>| #[trigger] key_in(key_views(plan.to_stop@), k)
        <==> (key_in(pre.running, k) && !desired(ips, k)))
    &&& keys_sorted(key_views(plan.to_update@))
    &&& (forall|k: Seq<u8>| #[trigger] key_in(key_views(plan.to_update@), k)
        <==> (key_in(pre.running, k) && desired(ips, k)))
    &&& keys_sorted(start_targets(plan.to_start@))
    &&& (forall|k: Seq<u8>| #[trigger] key_in(start_targets(plan.to_start@), k)
        <==> (desired(ips, k) && !key_in(pre.running, k)))
    &&& (forall|n: int| 0 <= n < plan.to_start@.len()
        ==> (#[trigger] plan.to_start@[n]).delay_ms == stagger(n))
    &&& keys_sorted(key_views(plan.rejected@))
    &&& (forall|k: Seq<u8>| #[trigger] key_in(key_views(plan.rejected@), k)
        <==> (key_in(ips, k) && !valid_target(k)))
}

impl Orchestrator {
    /// Reconcile the running tasks against a desired target list: admit and
    /// deduplicate the list, stop what is no longer wanted, start what is
    /// new (with staggered delays), update the interval of what is kept.
    pub fn handle_start(&mut self, ips: &Vec<Vec<u8>>, interval_ms: u64) -> (plan: StartPlan)
        requires
            old(self).wf(),
        ensures
            final(self).wf(),
            start_post(old(self)@, final(self)@, key_views(ips@), interval_ms, plan),
    {
        let ghost pre = self@;
        let ghost ipsv = key_views(ips@);

        // Admit and deduplicate the desired targets.
        let mut new_keys: Vec<Vec<u8>> = Vec::new();
        let mut rejected: Vec<Vec<u8>> = Vec::new();
        let mut i: usize = 0;
        while i < ips.len()
            invariant
                i <= ips@.len(),
                ipsv == key_views(ips@),
                keys_sorted(key_views(new_keys@)),
                keys_sorted(key_views(rejected@)),
                forall|k: Seq<u8>| #[trigger] key_in(key_views(new_keys@), k)
                    <==> (prefix_in(ipsv, i as int, k) && valid_target(k)),
                forall|k: Seq<u8>| #[trigger] key_in(key_views(rejected@), k)
                    <==> (prefix_in(ipsv, i as int, k) && !valid_target(k)),
            decreases ips@.len() - i,
        {
            let key = copy_key(&ips[i]);
            assert(key@ == ipsv[i as int]);
            let ghost nk0 = key_views(new_keys@);
            let ghost rj0 = key_views(rejected@);
            if validate_target(&key) {
                insert_sorted(&mut new_keys, key);
            } else {
                insert_sorted(&mut rejected, key);
            }
            proof {
                assert forall|k: Seq<u8>|
                    prefix_in(ipsv, (i + 1) as int, k)
                        == (prefix_in(ipsv, i as int, k) || k == ipsv[i as int]) by {
                    if prefix_in(ipsv, (i + 1) as int, k) {
                        let j = choose|j: int| 0 <= j < i + 1 && j < ipsv.len() && ipsv[j] == k;
                        if j < i {
                            assert(prefix_in(ipsv, i as int, k));
                        }
                    }
                    if prefix_in(ipsv, i as int, k) {
                        assert(prefix_in(ipsv, (i + 1) as int, k));
                    }
                    if k == ipsv[i as int] {
                        assert(0 <= i < i + 1 && (i as int) < ipsv.len() && ipsv[i as int] == k);
                        assert(prefix_in(ipsv, (i + 1) as int, k));
                    }
                }
            }
            i = i + 1;
        }
        proof {
            assert forall|k: Seq<u8>|
                prefix_in(ipsv, ipsv.len() as int, k) == key_in(ipsv, k) by {}
        }
        let ghost newk = key_views(new_keys@);

        // Split the running targets into kept and dropped.
        let mut to_stop: Vec<Vec<u8>> = Vec::new();
        let mut to_update: Vec<Vec<u8>> = Vec::new();
        let mut i: usize = 0;
        while i < self.running.len()
            invariant
                i <= self.running@.len(),
                pre.running == key_views(self.running@),
                keys_sorted(pre.running),
                newk == key_views(new_keys@),
                keys_sorted(key_views(to_stop@)),
                keys_sorted(key_views(to_update@)),
                forall|a: int| 0 <= a < key_views(to_stop@).len()
                    ==> exists|j: int| 0 <= j < i && #[trigger] key_views(to_stop@)[a]
                        == pre.running[j],
                forall|a: int| 0 <= a < key_views(to_update@).len()
                    ==> exists|j: int| 0 <= j < i && #[trigger] key_views(to_update@)[a]
                        == pre.running[j],
                forall|k: Seq<u8>| #[trigger] key_in(key_views(to_stop@), k)
                    <==> (prefix_in(pre.running, i as int, k) && !key_in(newk, k)),
                forall|k: Seq<u8>| #[trigger] key_in(key_views(to_update@), k)
                    <==> (prefix_in(pre.running, i as int, k) && key_in(newk, k)),
            decreases self.running@.len() - i,
        {
            let keep = key_list_contains(&new_keys, &self.running[i]);
            assert(self.running@[i as int]@ == pre.running[i as int]);
            let ghost st0 = key_views(to_stop@);
            let ghost up0 = key_views(to_update@);
            if keep {
                to_update.push(copy_key(&self.running[i]));
                proof {
                    assert(key_views(to_update@) =~= up0.push(pre.running[i as int]));
                    lemma_key_in_push(up0, pre.running[i as int]);
                    assert forall|a: int, b: int|
                        0 <= a < b < key_views(to_update@).len()
                        implies lex_lt(key_views(to_update@)[a], key_views(to_update@)[b]) by {
                        if b == key_views(to_update@).len() - 1 {
                            let j = choose|j: int| 0 <= j < i
                                && up0[a] == pre.running[j];
                            assert(lex_lt(pre.running[j], pre.running[i as int]));
                        }
                    }
                }
            } else {
                to_stop.push(copy_key(&self.running[i]));
                proof {
                    assert(key_views(to_stop@) =~= st0.push(pre.running[i as int]));
                    lemma_key_in_push(st0, pre.running[i as int]);
                    assert forall|a: int, b: int|
                        0 <= a < b < key_views(to_stop@).len()
                        implies lex_lt(key_views(to_stop@)[a], key_views(to_stop@)[b]) by {
                        if b == key_views(to_stop@).len() - 1 {
                            let j = choose|j: int| 0 <= j < i
                                && st0[a] == pre.running[j];
                            assert(lex_lt(pre.running[j], pre.running[i as int]));
                        }
                    }
                }
            }
            proof {
                assert forall|k: Seq<u8>|
                    prefix_in(pre.running, (i + 1) as int, k)
                        == (prefix_in(pre.running, i as int, k) || k == pre.running[i as int]) by {
                    if prefix_in(pre.running, (i + 1) as int, k) {
                        let j = choose|j: int| 0 <= j < i + 1 && j < pre.running.len()
                            && pre.running[j] == k;
                        if j < i {
                            assert(prefix_in(pre.running, i as int, k));
                        }
                    }
                    if k == pre.running[i as int] {
                        assert(prefix_in(pre.running, (i + 1) as int, k));
                    }
                }
            }
            i = i + 1;
        }

        // The new targets, in order, each with its staggered delay.
        let mut to_start: Vec<StartEntry> = Vec::new();
        let mut i: usize = 0;
        while i < new_keys.len()
            invariant
                i <= new_keys@.len(),
                pre.running == key_views(self.running@),
                newk == key_views(new_keys@),
                keys_sorted(newk),
                keys_sorted(start_targets(to_start@)),
                forall|a: int| 0 <= a < start_targets(to_start@).len()
                    ==> exists|j: int| 0 <= j < i && #[trigger] start_targets(to_start@)[a]
                        == newk[j],
                forall|k: Seq<u8>| #[trigger] key_in(start_targets(to_start@), k)
                    <==> (prefix_in(newk, i as int, k) && !key_in(pre.running, k)),
                forall|n: int| 0 <= n < to_start@.len()
                    ==> (#[trigger] to_start@[n]).delay_ms == stagger(n),
            decreases new_keys@.len() - i,
        {
            let fresh = !key_list_contains(&self.running, &new_keys[i]);
            assert(new_keys@[i as int]@ == newk[i as int]);
            let ghost ts0 = start_targets(to_start@);
            if fresh {
                let n = to_start.len() as u64;
                let delay: u64 = if n <= u64::MAX / 10 {
                    n * 10
                } else {
                    u64::MAX
                };
                assert(delay == stagger(to_start@.len() as int));
                to_start.push(StartEntry { target: copy_key(&new_keys[i]), delay_ms: delay });
                proof {
                    assert(start_targets(to_start@) =~= ts0.push(newk[i as int]));
                    lemma_key_in_push(ts0, newk[i as int]);
                    assert forall|a: int, b: int|
                        0 <= a < b < start_targets(to_start@).len()
                        implies lex_lt(start_targets(to_start@)[a], start_targets(to_start@)[b]) by {
                        if b == start_targets(to_start@).len() - 1 {
                            let j = choose|j: int| 0 <= j < i && ts0[a] == newk[j];
                            assert(lex_lt(newk[j], newk[i as int]));
                        }
                    }
                }
            }
            proof {
                assert forall|k: Seq<u8>|
                    prefix_in(newk, (i + 1) as int, k)
                        == (prefix_in(newk, i as int, k) || k == newk[i as int]) by {
                    if prefix_in(newk, (i + 1) as int, k) {
                        let j = choose|j: int| 0 <= j < i + 1 && j < newk.len() && newk[j] == k;
                        if j < i {
                            assert(prefix_in(newk, i as int, k));
                        }
                    }
                    if k == newk[i as int] {
                        assert(prefix_in(newk, (i + 1) as int, k));
                    }
                }
                if !fresh && key_in(start_targets(to_start@), newk[i as int]) {
                    assert(prefix_in(newk, i as int, newk[i as int])
                        && !key_in(pre.running, newk[i as int]));
                }
            }
            i = i + 1;
        }

        // Rebuild the store: kept targets keep their records, new targets
        // start from zero, everything else is gone.
        let mut snap = StatsStore::new();
        let mut i: usize = 0;
        while i < new_keys.len()
            invariant
                i <= new_keys@.len(),
                self.store.wf(),
                self.store.records() == pre.records,
                newk == key_views(new_keys@),
                keys_sorted(newk),
                snap.wf(),
                forall|m: StatModel| #[trigger] has_record(snap.records(), m)
                    <==> (prefix_in(newk, i as int, m.ip) && carried(pre.records, m)),
            decreases new_keys@.len() - i,
        {
            let ghost sn0 = snap.records();
            let ghost key = newk[i as int];
            assert(new_keys@[i as int]@ == key);
            let entry = match self.store.get(&new_keys[i]) {
                Some(p) => p.duplicate(),
                None => PingStat::new(copy_key(&new_keys[i])),
            };
            proof {
                assert(entry@.ip == key);
                assert(carried(pre.records, entry@));
            }
            snap.upsert(entry);
            proof {
                // this key is new to the snapshot: it cannot sit among the
                // first i keys of a strictly sorted list
                assert(!prefix_in(newk, i as int, key)) by {
                    if prefix_in(newk, i as int, key) {
                        let j = choose|j: int| 0 <= j < i && j < newk.len() && newk[j] == key;
                        assert(lex_lt(newk[j], newk[i as int]));
                        lemma_lex_trichotomy(newk[j], newk[i as int]);
                    }
                }
                assert forall|k: Seq<u8>|
                    prefix_in(newk, (i + 1) as int, k)
                        == (prefix_in(newk, i as int, k) || k == key) by {
                    if prefix_in(newk, (i + 1) as int, k) {
                        let j = choose|j: int| 0 <= j < i + 1 && j < newk.len() && newk[j] == k;
                        if j < i {
                            assert(prefix_in(newk, i as int, k));
                        }
                    }
                    if k == key {
                        assert(prefix_in(newk, (i + 1) as int, k));
                    }
                }
                assert forall|m: StatModel| #[trigger] has_record(snap.records(), m)
                    implies (prefix_in(newk, (i + 1) as int, m.ip) && carried(pre.records, m)) by {
                    if m == entry@ {
                        assert(prefix_in(newk, (i + 1) as int, m.ip));
                    }
                }
                assert forall|m: StatModel|
                    (prefix_in(newk, (i + 1) as int, m.ip) && carried(pre.records, m))
                    implies #[trigger] has_record(snap.records(), m) by {
                    if m.ip == key {
                        // the carried record of this key is exactly `entry`
                        if has_key(pre.records, key) {
                            let j = choose|j: int| 0 <= j < pre.records.len()
                                && pre.records[j] == m;
                            let j2 = choose|j2: int| 0 <= j2 < pre.records.len()
                                && pre.records[j2] == entry@;
                            if j != j2 {
                                if j < j2 {
                                    assert(lex_lt(pre.records[j].ip, pre.records[j2].ip));
                                } else {
                                    assert(lex_lt(pre.records[j2].ip, pre.records[j].ip));
                                }
                                lemma_lex_trichotomy(pre.records[j].ip, pre.records[j2].ip);
                            }
                            assert(m == entry@);
                        } else {
                            assert(m == zero_stat(key) && entry@ == zero_stat(key));
                        }
                    }
                }
            }
            i = i + 1;
        }

        // Commit the new state.
        self.store = snap;
        self.running = new_keys;
        self.interval_ms = interval_ms;
        proof {
            let post = self@;
            assert(post.running == newk);
            lemma_prefix_full(pre.running);
            lemma_prefix_full(newk);
            lemma_prefix_full(ipsv);
            assert(ipsv.len() == ips@.len());
            assert forall|k: Seq<u8>| #[trigger] key_in(newk, k) == desired(ipsv, k) by {}
            assert forall|m: StatModel| #[trigger] has_record(post.records, m)
                == (desired(ipsv, m.ip) && carried(pre.records, m)) by {
                assert(has_record(post.records, m)
                    == (prefix_in(newk, new_keys@.len() as int, m.ip)
                        && carried(pre.records, m)));
            }
            assert forall|k: Seq<u8>| #[trigger] key_in(post.running, k)
                implies has_key(post.records, k) by {
                if has_key(pre.records, k) {
                    let j = choose|j: int| 0 <= j < pre.records.len()
                        && pre.records[j].ip == k;
                    assert(has_record(pre.records, pre.records[j]));
                    assert(carried(pre.records, pre.records[j]));
                    assert(has_record(post.records, pre.records[j]));
                    let m = pre.records[j];
                    let x = choose|x: int| 0 <= x < post.records.len() && post.records[x] == m;
                    assert(post.records[x].ip == k);
                } else {
                    let m = zero_stat(k);
                    assert(carried(pre.records, m));
                    assert(has_record(post.records, m));
                    let x = choose|x: int| 0 <= x < post.records.len() && post.records[x] == m;
                    assert(post.records[x].ip == k);
                }
            }
            assert forall|k: Seq<u8>| #[trigger] has_key(post.records, k)
                implies key_in(post.running, k) by {
                let x = choose|x: int| 0 <= x < post.records.len() && post.records[x].ip == k;
                assert(has_record(post.records, post.records[x]));
            }
            assert forall|k: Seq<u8>| #[trigger] key_in(post.running, k)
                implies valid_target(k) by {}
        }
        StartPlan { interval_ms, to_stop, to_start, to_update, rejected }
    }
}

impl Orchestrator {
    /// Write one probe task's updated record, replacing the prior one in a
    /// single step. A record is accepted only for a running target, so a
    /// task stopped and already dropped writes nothing.
    pub fn record_probe(&mut self, stat: PingStat) -> (accepted: bool)
        requires
            old(self).wf(),
        ensures
            final(self).wf(),
            final(self)@.interval == old(self)@.interval,
            final(self)@.running == old(self)@.running,
            accepted == key_in(old(self)@.running, stat@.ip),
            accepted ==> forall|m: StatModel| #[trigger] has_record(final(self)@.records, m)
                <==> (m == stat@ || (has_record(old(self)@.records, m) && m.ip != stat@.ip)),
            !accepted ==> final(self)@.records == old(self)@.records,
    {
        let ghost pre = self@;
        if key_list_contains(&self.running, &stat.ip) {
            let ghost key = stat@.ip;
            let ghost statm = stat@;
            self.store.upsert(stat);
            proof {
                let post = self@;
                assert forall|k: Seq<u8>| #[trigger] key_in(post.running, k)
                    implies has_key(post.records, k) by {
                    if k == key {
                        assert(has_record(post.records, statm));
                        let x = choose|x: int| 0 <= x < post.records.len()
                            && post.records[x] == statm;
                        assert(post.records[x].ip == k);
                    } else {
                        assert(has_key(pre.records, k));
                        let j = choose|j: int| 0 <= j < pre.records.len()
                            && pre.records[j].ip == k;
                        assert(has_record(pre.records, pre.records[j]));
                        assert(has_record(post.records, pre.records[j]));
                        let x = choose|x: int| 0 <= x < post.records.len()
                            && post.records[x] == pre.records[j];
                    }
                }
                assert forall|k: Seq<u8>| #[trigger] has_key(post.records, k)
                    implies key_in(post.running, k) by {
                    let x = choose|x: int| 0 <= x < post.records.len()
                        && post.records[x].ip == k;
                    assert(has_record(post.records, post.records[x]));
                    if post.records[x] == statm {
                    } else {
                        assert(has_record(pre.records, post.records[x]));
                        let j = choose|j: int| 0 <= j < pre.records.len()
                            && pre.records[j] == post.records[x];
                        assert(has_key(pre.records, k));
                    }
                }
            }
            true
        } else {
            false
        }
    }

    /// Read the current record of one target, if it is running.
    pub fn get_stat(&self, key: &Vec<u8>) -> (r: Option<&PingStat>)
        requires
            self.wf(),
        ensures
            match r {
                Some(p) => has_record(self@.records, p@) && p@.ip == key@,
                None => !has_key(self@.records, key@),
            },
    {
        self.store.get(key)
    }

    /// How many targets are running.
    pub fn target_count(&self) -> (n: usize)
        ensures
            n == self@.records.len(),
    {
        self.store.len()
    }
}

/// One command from the transport, as the orchestrator consumes it.
pub enum ControlCommand {
    Start { ips: Vec<Vec<u8>>, interval_ms: u64 },
    SetInterval { interval_ms: u64 },
    Stop,
    Export,
}

/// What a handled command asks the caller to do: the side effects stay
/// outside, the recorded state is already updated.
pub enum CommandEffect {
    Started(StartPlan),
    IntervalChanged { interval_ms: u64, to_update: Vec<Vec<u8>> },
    Stopped { to_stop: Vec<Vec<u8>> },
    Exported { rows: Vec<PingStat>, csv: Vec<u8> },
}

impl Orchestrator {
    /// Consume one command. Commands are handled one at a time by a single
    /// caller, so no two reconfigurations interleave.
    pub fn handle_command(&mut self, cmd: ControlCommand) -> (eff: CommandEffect)
        requires
            old(self).wf(),
        ensures
            final(self).wf(),
            match cmd {
                ControlCommand::Start { ips, interval_ms } => {
                    &&& eff matches CommandEffect::Started(plan)
                    &&& eff matches CommandEffect::Started(plan)
                        ==> start_post(old(self)@, final(self)@, key_views(ips@), interval_ms, plan)
                },
                ControlCommand::SetInterval { interval_ms } => {
                    &&& eff matches CommandEffect::IntervalChanged { interval_ms: iv, to_update }
                    &&& (eff matches CommandEffect::IntervalChanged { interval_ms: iv, to_update } ==> {
                        &&& iv == interval_ms
                        &&& final(self)@.interval == interval_ms as int
                        &&& final(self)@.running == old(self)@.running
                        &&& final(self)@.records == old(self)@.records
                        &&& key_views(to_update@) == old(self)@.running
                    })
                },
                ControlCommand::Stop => {
                    &&& eff matches CommandEffect::Stopped { to_stop }
                    &&& (eff matches CommandEffect::Stopped { to_stop } ==> {
                        &&& final(self)@.running.len() == 0
                        &&& final(self)@.records.len() == 0
                        &&& final(self)@.interval == old(self)@.interval
                        &&& key_views(to_stop@) == old(self)@.running
                    })
                },
                ControlCommand::Export => {
                    &&& eff matches CommandEffect::Exported { rows, csv }
                    &&& (eff matches CommandEffect::Exported { rows, csv } ==> {
                        &&& final(self)@ == old(self)@
                        &&& rows@.map_values(|p: PingStat| p@) == old(self)@.records
                        &&& csv@ == csv_of(old(self)@.records)
                    })
                },
            },
    {
        match cmd {
            ControlCommand::Start { ips, interval_ms } => {
                let plan = self.handle_start(&ips, interval_ms);
                CommandEffect::Started(plan)
            },
            ControlCommand::SetInterval { interval_ms } => {
                let to_update = self.handle_set_interval(interval_ms);
                CommandEffect::IntervalChanged { interval_ms, to_update }
            },
            ControlCommand::Stop => {
                let to_stop = self.handle_stop();
                CommandEffect::Stopped { to_stop }
            },
            ControlCommand::Export => {
                let (rows, csv) = self.export();
                CommandEffect::Exported { rows, csv }
            },
        }
    }
}

/// Reconciliation correctness: after a start command the running targets
/// and the stored records both cover exactly the deduplicated admitted
/// targets of the command — each asked-for, admissible target once, and
/// nothing else.
pub proof fn lemma_reconciliation(
    pre: OrchModel,
    post: OrchModel,
    ips: Seq<Seq<u8>>,
    interval_ms: u64,
    plan: StartPlan,
)
    requires
        orch_wf(post),
        start_post(pre, post, ips, interval_ms, plan),
    ensures
        forall|k: Seq<u8>| #[trigger] key_in(post.running, k)
            <==> (key_in(ips, k) && valid_target(k)),
        forall|k: Seq<u8>| #[trigger] has_key(post.records, k)
            <==> (key_in(ips, k) && valid_target(k)),
{
    assert forall|k: Seq<u8>| #[trigger] has_key(post.records, k)
        == (key_in(ips, k) && valid_target(k)) by {
        assert(key_in(post.running, k) == desired(ips, k));
        assert(key_in(post.running, k) == has_key(post.records, k));
    }
}

/// Idempotent stop: stopping with no running tasks asks no task to stop and
/// leaves the running set and the store empty.
pub proof fn lemma_stop_idempotent(pre: OrchModel, post: OrchModel, to_stop: Seq<Seq<u8>>)
    requires
        pre.running.len() == 0,
        to_stop == pre.running,
        post.running.len() == 0,
        post.records.len() == 0,
    ensures
        to_stop.len() == 0,
        post.running == pre.running,
{
    assert(post.running =~= pre.running);
}

} // verus!

//! The statistics store: one record per running target, kept sorted by
//! target identity so that snapshots and exports are deterministic. Reads
//! hand out copies, never live views.

use vstd::prelude::*;
use crate::order::{
    lex_lt, key_cmp, KeyOrder, lemma_lex_trichotomy, lemma_lex_trans,
};
use crate::stat::{PingStat, StatModel};

verus! {

/// Records strictly ordered by target identity (keys are unique).
pub open spec fn sorted_strict(s: Seq<StatModel>) -> bool {
    forall|i: int, j: int| 0 <= i < j < s.len() ==> lex_lt(s[i].ip, s[j].ip)
}

/// Some record carries this target.
pub open spec fn has_key(s: Seq<StatModel>, k: Seq<u8>) -> bool {
    exists|i: int| 0 <= i < s.len() && s[i].ip == k
}

/// This very record is present.
pub open spec fn has_record(s: Seq<StatModel>, m: StatModel) -> bool {
    exists|i: int| 0 <= i < s.len() && s[i] == m
}

/// A key below everything from `idx` on, and above everything before it,
/// occurs nowhere.
proof fn lemma_key_absent(s: Seq<StatModel>, k: Seq<u8>, idx: int)
    requires
        sorted_strict(s),
        0 <= idx <= s.len(),
        forall|i: int| 0 <= i < idx ==> lex_lt(#[trigger] s[i].ip, k),
        idx < s.len() ==> lex_lt(k, s[idx].ip),
    ensures
        !has_key(s, k),
{
    assert forall|i: int| 0 <= i < s.len() implies s[i].ip != k by {
        if i < idx {
            lemma_lex_trichotomy(s[i].ip, k);
        } else {
            if i > idx {
                lemma_lex_trans(k, s[idx].ip, s[i].ip);
            }
            lemma_lex_trichotomy(k, s[i].ip);
        }
    }
}

/// The store itself.
pub struct StatsStore {
    entries: Vec<PingStat>,
}

impl StatsStore {
    /// The records the store holds, in their stored order.
    pub closed spec fn records(self) -> Seq<StatModel> {
        self.entries@.map_values(|p: PingStat| p@)
    }

    /// The store keeps its records strictly sorted by target.
    pub open spec fn wf(self) -> bool {
        sorted_strict(self.records())
    }

    pub fn new() -> (s: StatsStore)
        ensures
            s.wf(),
            s.records() == Seq::<StatModel>::empty(),
    {
        let s = StatsStore { entries: Vec::new() };
        proof {
            assert(s.records() =~= Seq::<StatModel>::empty());
        }
        s
    }

    pub fn len(&self) -> (n: usize)
        ensures
            n == self.records().len(),
    {
        self.entries.len()
    }

    /// Where `key` sits: its index if present, else the index where it
    /// would be inserted to keep the order.
    fn position(&self, key: &Vec<u8>) -> (r: (usize, bool))
        requires
            self.wf(),
        ensures
            r.1 <==> has_key(self.records(), key@),
            r.1 ==> r.0 < self.records().len() && self.records()[r.0 as int].ip == key@,
            !r.1 ==> r.0 <= self.records().len()
                && (forall|i: int| 0 <= i < r.0 ==> lex_lt(#[trigger] self.records()[i].ip, key@))
                && (r.0 < self.records().len() ==> lex_lt(key@, self.records()[r.0 as int].ip)),
    {
        let mut i: usize = 0;
        while i < self.entries.len()
            invariant
                self.wf(),
                i <= self.records().len(),
                self.records().len() == self.entries@.len(),
                forall|j: int| 0 <= j < i ==> lex_lt(#[trigger] self.records()[j].ip, key@),
            decreases self.entries.len() - i,
        {
            match key_cmp(&self.entries[i].ip, key) {
                KeyOrder::Before => {
                    assert(self.records()[i as int].ip == self.entries@[i as int].ip@);
                    i = i + 1;
                },
                KeyOrder::Same => {
                    assert(self.records()[i as int].ip == key@);
                    return (i, true);
                },
                KeyOrder::After => {
                    proof {
                        assert(lex_lt(key@, self.records()[i as int].ip));
                        lemma_key_absent(self.records(), key@, i as int);
                    }
                    return (i, false);
                },
            }
        }
        proof {
            lemma_key_absent(self.records(), key@, self.records().len() as int);
        }
        (i, false)
    }

    /// Read the record of one target, if it has one.
    pub fn get(&self, key: &Vec<u8>) -> (r: Option<&PingStat>)
        requires
            self.wf(),
        ensures
            match r {
                Some(p) => has_record(self.records(), p@) && p@.ip == key@,
                None => !has_key(self.records(), key@),
            },
    {
        let (idx, found) = self.position(key);
        if found {
            let p = &self.entries[idx];
            assert(self.records()[idx as int] == p@);
            Some(p)
        } else {
            None
        }
    }

    /// Write a target's record, replacing any prior one atomically: the new
    /// record set is the old one with every record of this target replaced
    /// by exactly this record.
    pub fn upsert(&mut self, stat: PingStat)
        requires
            old(self).wf(),
        ensures
            final(self).wf(),
            has_record(final(self).records(), stat@),
            forall|m: StatModel| #[trigger] has_record(final(self).records(), m)
                <==> (m == stat@
                    || (has_record(old(self).records(), m) && m.ip != stat@.ip)),
            final(self).records().len() == old(self).records().len()
                + (if has_key(old(self).records(), stat@.ip) { 0int } else { 1int }),
    {
        let ghost olds = self.records();
        let ghost key = stat@.ip;
        let (idx, found) = self.position(&stat.ip);
        if found {
            self.entries.set(idx, stat);
            proof {
                let news = self.records();
                assert(news =~= olds.update(idx as int, stat@));
                assert forall|i: int, j: int| 0 <= i < j < news.len()
                    implies lex_lt(news[i].ip, news[j].ip) by {
                    assert(news[i].ip == olds[i].ip);
                    assert(news[j].ip == olds[j].ip);
                }
                assert(news[idx as int] == stat@);
                assert forall|m: StatModel| #[trigger] has_record(news, m)
                    implies (m == stat@ || (has_record(olds, m) && m.ip != stat@.ip)) by {
                    let i = choose|i: int| 0 <= i < news.len() && news[i] == m;
                    if i != idx {
                        assert(olds[i] == m);
                        if i < idx {
                            assert(lex_lt(olds[i].ip, olds[idx as int].ip));
                        } else {
                            assert(lex_lt(olds[idx as int].ip, olds[i].ip));
                        }
                        lemma_lex_trichotomy(olds[i].ip, olds[idx as int].ip);
                    }
                }
                assert forall|m: StatModel|
                    (m == stat@ || (has_record(olds, m) && m.ip != stat@.ip))
                    implies #[trigger] has_record(news, m) by {
                    if m == stat@ {
                        assert(news[idx as int] == m);
                    } else {
                        let i = choose|i: int| 0 <= i < olds.len() && olds[i] == m;
                        assert(olds[idx as int].ip == key);
                        assert(i != idx);
                        assert(news[i] == m);
                    }
                }
            }
        } else {
            self.entries.insert(idx, stat);
            proof {
                let news = self.records();
                assert(news =~= olds.insert(idx as int, stat@));
                assert forall|i: int, j: int| 0 <= i < j < news.len()
                    implies lex_lt(news[i].ip, news[j].ip) by {
                    if j < idx {
                        assert(news[i] == olds[i] && news[j] == olds[j]);
                    } else if i > idx {
                        assert(news[i] == olds[i - 1] && news[j] == olds[j - 1]);
                    } else if i < idx && j == idx {
                        assert(news[i] == olds[i]);
                        assert(lex_lt(olds[i].ip, key));
                    } else if i == idx && j > idx {
                        assert(news[j] == olds[j - 1]);
                        if idx < olds.len() {
                            if j - 1 > idx {
                                lemma_lex_trans(key, olds[idx as int].ip, olds[j - 1].ip);
                            }
                        }
                    } else {
                        // i < idx < j
                        assert(news[i] == olds[i] && news[j] == olds[j - 1]);
                        assert(lex_lt(olds[i].ip, key));
                        if j - 1 == idx {
                            assert(lex_lt(key, olds[idx as int].ip));
                            lemma_lex_trans(olds[i].ip, key, olds[j - 1].ip);
                        } else {
                            assert(lex_lt(key, olds[idx as int].ip));
                            lemma_lex_trans(key, olds[idx as int].ip, olds[j - 1].ip);
                            lemma_lex_trans(olds[i].ip, key, olds[j - 1].ip);
                        }
                    }
                }
                assert(news[idx as int] == stat@);
                assert forall|m: StatModel| #[trigger] has_record(news, m)
                    implies (m == stat@ || (has_record(olds, m) && m.ip != stat@.ip)) by {
                    let i = choose|i: int| 0 <= i < news.len() && news[i] == m;
                    if i < idx {
                        assert(olds[i] == m);
                        assert(lex_lt(m.ip, key));
                        lemma_lex_trichotomy(m.ip, key);
                    } else if i > idx {
                        assert(olds[i - 1] == m);
                        if i - 1 > idx {
                            lemma_lex_trans(key, olds[idx as int].ip, olds[i - 1].ip);
                        }
                        lemma_lex_trichotomy(key, m.ip);
                    }
                }
                assert forall|m: StatModel|
                    (m == stat@ || (has_record(olds, m) && m.ip != stat@.ip))
                    implies #[trigger] has_record(news, m) by {
                    if m == stat@ {
                        assert(news[idx as int] == m);
                    } else {
                        let i = choose|i: int| 0 <= i < olds.len() && olds[i] == m;
                        if i < idx {
                            assert(news[i] == m);
                        } else {
                            assert(news[i + 1] == m);
                        }
                    }
                }
            }
        }
    }

    /// Drop a target's record; other targets' records stay as they are.
    pub fn remove(&mut self, key: &Vec<u8>)
        requires
            old(self).wf(),
        ensures
            final(self).wf(),
            !has_key(final(self).records(), key@),
            forall|m: StatModel| #[trigger] has_record(final(self).records(), m)
                <==> (has_record(old(self).records(), m) && m.ip != key@),
            final(self).records().len() == old(self).records().len()
                - (if has_key(old(self).records(), key@) { 1int } else { 0int }),
    {
        let ghost olds = self.records();
        let (idx, found) = self.position(key);
        if found {
            self.entries.remove(idx);
            proof {
                let news = self.records();
                assert(news =~= olds.remove(idx as int));
                assert forall|i: int, j: int| 0 <= i < j < news.len()
                    implies lex_lt(news[i].ip, news[j].ip) by {
                    assert(news[i] == if i < idx { olds[i] } else { olds[i + 1] });
                    assert(news[j] == if j < idx { olds[j] } else { olds[j + 1] });
                }
                assert forall|m: StatModel| #[trigger] has_record(news, m)
                    implies (has_record(olds, m) && m.ip != key@) by {
                    let i = choose|i: int| 0 <= i < news.len() && news[i] == m;
                    if i < idx {
                        assert(olds[i] == m);
                        assert(lex_lt(olds[i].ip, olds[idx as int].ip));
                    } else {
                        assert(olds[i + 1] == m);
                        assert(lex_lt(olds[idx as int].ip, olds[i + 1].ip));
                    }
                    lemma_lex_trichotomy(m.ip, olds[idx as int].ip);
                }
                assert forall|m: StatModel|
                    (has_record(olds, m) && m.ip != key@)
                    implies #[trigger] has_record(news, m) by {
                    let i = choose|i: int| 0 <= i < olds.len() && olds[i] == m;
                    assert(i != idx);
                    if i < idx {
                        assert(news[i] == m);
                    } else {
                        assert(news[i - 1] == m);
                    }
                }
                lemma_key_absent(news, key@, idx as int);
            }
        } else {
            proof {
                assert(self.records() =~= olds);
            }
        }
    }

    /// Forget every record.
    pub fn clear(&mut self)
        ensures
            final(self).wf(),
            final(self).records() == Seq::<StatModel>::empty(),
    {
        self.entries.clear();
        proof {
            assert(self.records() =~= Seq::<StatModel>::empty());
        }
    }

    /// A point-in-time copy of every record, in sorted order, unaffected by
    /// later mutation of the store.
    pub fn snapshot(&self) -> (r: Vec<PingStat>)
        ensures
            r@.map_values(|p: PingStat| p@) == self.records(),
    {
        let mut r: Vec<PingStat> = Vec::new();
        let mut i: usize = 0;
        while i < self.entries.len()
            invariant
                i <= self.entries@.len(),
                r@.len() == i,
                forall|j: int| 0 <= j < i ==> (#[trigger] r@[j])@ == self.records()[j],
                self.records().len() == self.entries@.len(),
            decreases self.entries.len() - i,
        {
            let p = self.entries[i].duplicate();
            assert(p@ == self.records()[i as int]);
            r.push(p);
            i = i + 1;
        }
        proof {
            assert(r@.map_values(|p: PingStat| p@) =~= self.records());
        }
        r
    }
}

} // verus!

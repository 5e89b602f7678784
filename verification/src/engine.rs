//! The engine: a name-indexed registry of series.
//!
//! Registration is idempotent, and `append` creates a missing series
//! implicitly — the common construction path — rather than dropping the
//! sample; this is a deliberate decision where earlier behaviour differed.

use vstd::prelude::*;

verus! {

use crate::Sample;
use crate::series::{TS, BlockView, append_effect};
use crate::date_time::{dec_str, u64_to_string};
use vstd::string::StringExecFns;

/// One raw ingest request: the series name and the sample.
#[derive(Debug)]
pub struct Raw {
    pub table_name: String,
    pub data_point: Sample,
}

/// The rendering of a raw request: `name:{time,value}`, the value as its
/// 64-bit pattern in decimal.
pub open spec fn raw_str(name: Seq<char>, dp: Sample) -> Seq<char> {
    name + seq![':', '{'] + dec_str(dp.time as int) + seq![','] + dec_str(dp.value as int) + seq![
        '}',
    ]
}

impl Raw {
    /// Render this request for a log line.
    pub fn to_string(&self) -> (s: String)
        ensures
            s@ == raw_str(self.table_name@, self.data_point),
    {
        proof {
            reveal_strlit(":{");
            reveal_strlit(",");
            reveal_strlit("}");
            assert(":{"@ =~= seq![':', '{']);
            assert(","@ =~= seq![',']);
            assert("}"@ =~= seq!['}']);
        }
        let mut s = self.table_name.clone();
        s.append(":{");
        s.append(u64_to_string(self.data_point.time).as_str());
        s.append(",");
        s.append(u64_to_string(self.data_point.value).as_str());
        s.append("}");
        proof {
            assert(s@ =~= raw_str(self.table_name@, self.data_point));
        }
        s
    }
}

/// The first index whose entry carries `name`, or -1.
pub open spec fn name_idx(s: Seq<(String, TS)>, name: Seq<char>) -> int
    decreases s.len(),
{
    if s.len() == 0 {
        -1
    } else if s[0].0@ == name {
        0
    } else {
        let r = name_idx(s.drop_first(), name);
        if r == -1 {
            -1
        } else {
            r + 1
        }
    }
}

/// `name_idx` finds `i` when entry `i` carries the name and no earlier one
/// does.
proof fn lemma_name_idx_at(s: Seq<(String, TS)>, name: Seq<char>, i: int)
    requires
        0 <= i < s.len(),
        s[i].0@ == name,
        forall|j: int| 0 <= j < i ==> (#[trigger] s[j]).0@ != name,
    ensures
        name_idx(s, name) == i,
    decreases i,
{
    if i > 0 {
        lemma_name_idx_at(s.drop_first(), name, i - 1);
    }
}

/// `name_idx` finds nothing when no entry carries the name.
proof fn lemma_name_idx_none(s: Seq<(String, TS)>, name: Seq<char>)
    requires
        forall|j: int| 0 <= j < s.len() ==> (#[trigger] s[j]).0@ != name,
    ensures
        name_idx(s, name) == -1,
    decreases s.len(),
{
    if s.len() > 0 {
        lemma_name_idx_none(s.drop_first(), name);
    }
}

/// The series registry: entries under distinct names, never removed.
pub struct BTreeEngine {
    ts_store: Vec<(String, TS)>,
}

impl BTreeEngine {
    /// The registry's entries, in registration order.
    pub closed spec fn store(&self) -> Seq<(String, TS)> {
        self.ts_store@
    }

    /// Whether a series is registered under `name`.
    pub open spec fn has_name(&self, name: Seq<char>) -> bool {
        name_idx(self.store(), name) >= 0
    }

    /// Entries carry distinct names, and every series is sound with the
    /// reference period.
    pub closed spec fn wf(&self) -> bool {
        &&& forall|i: int, j: int|
            0 <= i < j < self.ts_store@.len() ==> (#[trigger] self.ts_store@[i]).0@ != (
            #[trigger] self.ts_store@[j]).0@
        &&& forall|i: int|
            0 <= i < self.ts_store@.len() ==> (#[trigger] self.ts_store@[i]).1.wf()
        &&& forall|i: int|
            0 <= i < self.ts_store@.len() ==> (#[trigger] self.ts_store@[i]).1.period_spec() == 7200
    }

    /// Room for more samples in every registered series.
    pub open spec fn size_ok(&self) -> bool {
        forall|i: int| 0 <= i < self.store().len() ==> (#[trigger] self.store()[i]).1.size_ok()
    }

    /// A fresh, empty registry.
    pub fn new() -> (e: BTreeEngine)
        ensures
            e.wf(),
            e.store() == Seq::<(String, TS)>::empty(),
    {
        BTreeEngine { ts_store: Vec::new() }
    }

    /// The index of `name`'s entry, if any.
    fn find(&self, ts_name: &String) -> (r: Option<usize>)
        requires
            self.wf(),
        ensures
            (r matches Some(i) ==> 0 <= i < self.store().len() && name_idx(
                self.store(),
                ts_name@,
            ) == i && self.store()[i as int].0@ == ts_name@),
            (r is None ==> name_idx(self.store(), ts_name@) == -1),
            (r is None ==> forall|j: int|
                0 <= j < self.store().len() ==> (#[trigger] self.store()[j]).0@ != ts_name@),
    {
        let n = self.ts_store.len();
        let mut i: usize = 0;
        while i < n
            invariant
                self.wf(),
                n == self.ts_store@.len(),
                i <= n,
                forall|j: int| 0 <= j < i ==> (#[trigger] self.ts_store@[j]).0@ != ts_name@,
            decreases n - i,
        {
            if self.ts_store[i].0 == *ts_name {
                proof {
                    lemma_name_idx_at(self.store(), ts_name@, i as int);
                }
                return Some(i);
            }
            i = i + 1;
        }
        proof {
            lemma_name_idx_none(self.store(), ts_name@);
        }
        None
    }

    /// Register a series under `ts_name` if none exists; idempotent.
    pub fn create_table(&mut self, ts_name: String)
        requires
            old(self).wf(),
        ensures
            final(self).wf(),
            old(self).has_name(ts_name@) ==> final(self).store() == old(self).store(),
            !old(self).has_name(ts_name@) ==> {
                &&& final(self).store().len() == old(self).store().len() + 1
                &&& final(self).store().take(old(self).store().len() as int) =~= old(self).store()
                &&& final(self).store().last().0@ == ts_name@
                &&& final(self).store().last().1.wf()
                &&& final(self).store().last().1.open_view() == Seq::<BlockView>::empty()
                &&& final(self).store().last().1.closed_view() == Seq::<BlockView>::empty()
                &&& final(self).store().last().1.period_spec() == 7200
            },
            final(self).has_name(ts_name@),
    {
        let ghost pre = self.store();
        match self.find(&ts_name) {
            Some(_) => {},
            None => {
                let ts = TS::new();
                let ghost gname = ts_name@;
                let entry = (ts_name, ts);
                let ghost gentry = entry;
                self.ts_store.push(entry);
                proof {
                    assert(pre.push(gentry)[pre.len() as int] == gentry);
                    assert(self.store().take(pre.len() as int) =~= pre);
                    lemma_name_idx_at(self.store(), gname, pre.len() as int);
                }
            },
        }
    }

    /// Ingest one sample, creating the series on first touch.
    pub fn append(&mut self, raw: Raw)
        requires
            old(self).wf(),
            old(self).size_ok(),
            raw.data_point.time <= u64::MAX - 7200,
        ensures
            final(self).wf(),
            ({
                let pre = old(self).store();
                let post = final(self).store();
                let i = name_idx(pre, raw.table_name@);
                if i >= 0 {
                    &&& post.len() == pre.len()
                    &&& forall|j: int| 0 <= j < pre.len() && j != i ==> post[j] == pre[j]
                    &&& post[i].0@ == raw.table_name@
                    &&& post[i].1.wf()
                    &&& append_effect(
                        pre[i].1.open_view(),
                        post[i].1.open_view(),
                        7200,
                        raw.data_point,
                    )
                    &&& post[i].1.closed_view() == pre[i].1.closed_view()
                } else {
                    &&& post.len() == pre.len() + 1
                    &&& post.take(pre.len() as int) =~= pre
                    &&& post.last().0@ == raw.table_name@
                    &&& post.last().1.wf()
                    &&& append_effect(
                        Seq::<BlockView>::empty(),
                        post.last().1.open_view(),
                        7200,
                        raw.data_point,
                    )
                    &&& post.last().1.closed_view() == Seq::<BlockView>::empty()
                }
            }),
    {
        let ghost pre = self.store();
        match self.find(&raw.table_name) {
            Some(i) => {
                proof {
                    assert(pre[i as int].1.wf());
                    assert(pre[i as int].1.size_ok());
                    assert(pre[i as int].1.period_spec() == 7200);
                }
                let (nm, mut ts) = self.ts_store.remove(i);
                ts.append(raw.data_point);
                let entry = (nm, ts);
                let ghost gentry = entry;
                self.ts_store.insert(i, entry);
                proof {
                    assert(self.store() == pre.remove(i as int).insert(i as int, gentry));
                    assert(pre.remove(i as int).insert(i as int, gentry) =~= pre.update(
                        i as int,
                        gentry,
                    ));
                    assert(self.store()[i as int] == gentry);
                }
            },
            None => {
                let mut ts = TS::new();
                ts.append(raw.data_point);
                let ghost gname = raw.table_name@;
                let entry = (raw.table_name, ts);
                let ghost gentry = entry;
                self.ts_store.push(entry);
                proof {
                    assert(pre.push(gentry)[pre.len() as int] == gentry);
                    assert(self.store().take(pre.len() as int) =~= pre);
                }
            },
        }
    }

    /// The series registered under `ts_name`, if any.
    pub fn get(&self, ts_name: &String) -> (r: Option<&TS>)
        requires
            self.wf(),
        ensures
            (r matches Some(ts) ==> {
                let i = name_idx(self.store(), ts_name@);
                &&& i >= 0
                &&& *ts == self.store()[i].1
                &&& ts.wf()
            }),
            (r is None ==> !self.has_name(ts_name@)),
            r is Some <==> self.has_name(ts_name@),
    {
        match self.find(ts_name) {
            Some(i) => Some(&self.ts_store[i].1),
            None => None,
        }
    }

    /// One compaction pass: every registered series gets one `roll_down`
    /// against the wall clock.
    pub fn roll_down_all(&mut self, timeout: u64)
        requires
            old(self).wf(),
        ensures
            final(self).wf(),
            final(self).store().len() == old(self).store().len(),
            forall|i: int|
                0 <= i < old(self).store().len() ==> {
                    &&& (#[trigger] final(self).store()[i]).0@ == old(self).store()[i].0@
                    &&& exists|now: u64|
                        TS::rolled_down(
                            old(self).store()[i].1.open_view(),
                            old(self).store()[i].1.closed_view(),
                            final(self).store()[i].1.open_view(),
                            final(self).store()[i].1.closed_view(),
                            now,
                            timeout,
                        )
                },
    {
        let ghost pre = self.store();
        let n = self.ts_store.len();
        let mut i: usize = 0;
        while i < n
            invariant
                self.wf(),
                n == self.ts_store@.len(),
                i <= n,
                n == pre.len(),
                forall|j: int| i <= j < n ==> #[trigger] self.store()[j] == pre[j],
                forall|j: int|
                    0 <= j < i ==> {
                        &&& (#[trigger] self.store()[j]).0@ == pre[j].0@
                        &&& exists|now: u64|
                            TS::rolled_down(
                                pre[j].1.open_view(),
                                pre[j].1.closed_view(),
                                self.store()[j].1.open_view(),
                                self.store()[j].1.closed_view(),
                                now,
                                timeout,
                            )
                    },
            decreases n - i,
        {
            let ghost cur = self.store();
            proof {
                assert(cur[i as int] == pre[i as int]);
                assert(pre[i as int].1.wf());
            }
            let (nm, mut ts) = self.ts_store.remove(i);
            ts.roll_down(timeout);
            let entry = (nm, ts);
            let ghost gentry = entry;
            self.ts_store.insert(i, entry);
            proof {
                assert(self.store() == cur.remove(i as int).insert(i as int, gentry));
                assert(cur.remove(i as int).insert(i as int, gentry) =~= cur.update(
                    i as int,
                    gentry,
                ));
                assert(self.store() == cur.update(i as int, gentry));
                assert(self.store()[i as int] == gentry);
                assert forall|j: int| 0 <= j < cur.len() && j != i as int implies self.store()[j]
                    == cur[j] by {}
                assert forall|j: int| 0 <= j < i + 1 implies {
                    &&& (#[trigger] self.store()[j]).0@ == pre[j].0@
                    &&& exists|now: u64|
                        TS::rolled_down(
                            pre[j].1.open_view(),
                            pre[j].1.closed_view(),
                            self.store()[j].1.open_view(),
                            self.store()[j].1.closed_view(),
                            now,
                            timeout,
                        )
                } by {
                    if j == i as int {
                        let w = choose|now: u64|
                            TS::rolled_down(
                                cur[i as int].1.open_view(),
                                cur[i as int].1.closed_view(),
                                gentry.1.open_view(),
                                gentry.1.closed_view(),
                                now,
                                timeout,
                            );
                        assert(TS::rolled_down(
                            pre[j].1.open_view(),
                            pre[j].1.closed_view(),
                            self.store()[j].1.open_view(),
                            self.store()[j].1.closed_view(),
                            w,
                            timeout,
                        ));
                    } else {
                        assert(self.store()[j] == cur[j]);
                    }
                }
            }
            i = i + 1;
        }
    }
}

} // verus!

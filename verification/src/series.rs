//! A single time series: a time-ascending list of open blocks, a separate
//! list of sealed blocks, and the fixed partition width.

use vstd::prelude::*;

verus! {

use crate::Sample;
use crate::block::{AppendOnlyBlock, ClosedBlock, time_align, time_align_spec, max_period,
    lemma_time_align_partition};
use crate::codec::{init_state, dec_init, chain_ok, encode_stream};
use crate::decode::Decoder;
use crate::date_time::now_timestamp_secs;
use vstd::arithmetic::div_mod::lemma_fundamental_div_mod;

/// What a block holds, for contracts: its partition bounds and its samples
/// in arrival order.
pub ghost struct BlockView {
    pub begin: int,
    pub end: int,
    pub samples: Seq<Sample>,
}

/// Whether sample `k` of block view `b` lies in its partition.
pub open spec fn sample_in_block(b: BlockView, k: int) -> bool {
    b.begin <= b.samples[k].time && b.samples[k].time < b.end
}

/// The view of an open block.
pub open spec fn view_of_open(b: AppendOnlyBlock) -> BlockView {
    BlockView { begin: b.begin_spec() as int, end: b.end_spec() as int, samples: b.samples() }
}

/// The view of a sealed block.
pub open spec fn view_of_closed(b: ClosedBlock) -> BlockView {
    BlockView { begin: b.begin_spec() as int, end: b.end_spec() as int, samples: b.samples() }
}

/// The first index whose block's partition holds `t`, or -1.
pub open spec fn find_block(s: Seq<BlockView>, t: int) -> int
    decreases s.len(),
{
    if s.len() == 0 {
        -1
    } else if s[0].begin <= t < s[0].end {
        0
    } else {
        let r = find_block(s.drop_first(), t);
        if r == -1 {
            -1
        } else {
            r + 1
        }
    }
}

/// The index at which a block starting at `b` belongs: before the first
/// block starting later.
pub open spec fn insert_pos(s: Seq<BlockView>, b: int) -> int
    decreases s.len(),
{
    if s.len() == 0 {
        0
    } else if b < s[0].begin {
        0
    } else {
        1 + insert_pos(s.drop_first(), b)
    }
}

/// Total number of samples held by a run of blocks.
pub open spec fn total_samples(s: Seq<BlockView>) -> int
    decreases s.len(),
{
    if s.len() == 0 {
        0int
    } else {
        s[0].samples.len() + total_samples(s.drop_first())
    }
}

/// `find_block` finds `i` when block `i` holds `t` and no earlier one does.
proof fn lemma_find_block_at(s: Seq<BlockView>, t: int, i: int)
    requires
        0 <= i < s.len(),
        s[i].begin <= t < s[i].end,
        forall|j: int| 0 <= j < i ==> !((#[trigger] s[j]).begin <= t < s[j].end),
    ensures
        find_block(s, t) == i,
    decreases i,
{
    if i > 0 {
        lemma_find_block_at(s.drop_first(), t, i - 1);
    }
}

/// `find_block` finds nothing when no block holds `t`.
proof fn lemma_find_block_none(s: Seq<BlockView>, t: int)
    requires
        forall|j: int| 0 <= j < s.len() ==> !((#[trigger] s[j]).begin <= t < s[j].end),
    ensures
        find_block(s, t) == -1,
    decreases s.len(),
{
    if s.len() > 0 {
        lemma_find_block_none(s.drop_first(), t);
    }
}

/// `insert_pos` is the first index starting after `b`.
proof fn lemma_insert_pos_at(s: Seq<BlockView>, b: int, i: int)
    requires
        0 <= i <= s.len(),
        forall|j: int| 0 <= j < i ==> (#[trigger] s[j]).begin <= b,
        i < s.len() ==> b < s[i].begin,
    ensures
        insert_pos(s, b) == i,
    decreases i,
{
    if i > 0 {
        lemma_insert_pos_at(s.drop_first(), b, i - 1);
    }
}

/// Updating one block's samples moves the total by the difference.
proof fn lemma_total_update(s: Seq<BlockView>, i: int, b: BlockView)
    requires
        0 <= i < s.len(),
    ensures
        total_samples(s.update(i, b)) == total_samples(s) - s[i].samples.len()
            + b.samples.len(),
    decreases i,
{
    if i == 0 {
        assert(s.update(0, b)[0] == b);
        assert(s.update(0, b).drop_first() =~= s.drop_first());
    } else {
        assert(s.update(i, b)[0] == s[0]);
        assert(s.update(i, b).drop_first() =~= s.drop_first().update(i - 1, b));
        lemma_total_update(s.drop_first(), i - 1, b);
    }
}

/// Inserting one block adds its samples to the total.
proof fn lemma_total_insert(s: Seq<BlockView>, i: int, b: BlockView)
    requires
        0 <= i <= s.len(),
    ensures
        total_samples(s.insert(i, b)) == total_samples(s) + b.samples.len(),
    decreases i,
{
    if i == 0 {
        assert(s.insert(0, b)[0] == b);
        assert(s.insert(0, b).drop_first() =~= s);
    } else {
        assert(s.insert(i, b)[0] == s[0]);
        assert(s.insert(i, b).drop_first() =~= s.drop_first().insert(i - 1, b));
        lemma_total_insert(s.drop_first(), i - 1, b);
    }
}

/// Two distinct multiples of `p` lie at least `p` apart.
proof fn lemma_aligned_gap(b: int, c: int, p: int)
    requires
        p >= 1,
        b % p == 0,
        c % p == 0,
        b < c,
    ensures
        b + p <= c,
{
    lemma_fundamental_div_mod(b, p);
    lemma_fundamental_div_mod(c, p);
    assert(b == p * (b / p));
    assert(c == p * (c / p));
    assert(b / p < c / p) by (nonlinear_arith)
        requires
            p >= 1,
            b == p * (b / p),
            c == p * (c / p),
            b < c,
    ;
    assert(p * (b / p) + p <= p * (c / p)) by (nonlinear_arith)
        requires
            p >= 1,
            b / p < c / p,
    ;
}



/// What one `append` does to the open-block list: create the first block,
/// drop a late point, land in the holding block, or insert a fresh block
/// in time order.
pub open spec fn append_effect(ov: Seq<BlockView>, nv: Seq<BlockView>, period: u64, dp: Sample) -> bool {
    let t = dp.time as int;
    let al = time_align_spec(dp.time, period);
    if ov.len() == 0 {
        nv =~= seq![BlockView { begin: al.0, end: al.1, samples: seq![dp] }]
    } else if t < ov[0].begin {
        nv =~= ov
    } else if find_block(ov, t) >= 0 {
        nv =~= ov.update(
            find_block(ov, t),
            BlockView {
                begin: ov[find_block(ov, t)].begin,
                end: ov[find_block(ov, t)].end,
                samples: ov[find_block(ov, t)].samples.push(dp),
            },
        )
    } else {
        nv =~= ov.insert(
            insert_pos(ov, al.0),
            BlockView { begin: al.0, end: al.1, samples: seq![dp] },
        )
    }
}

/// Whether a block's partition overlaps the half-open window `[lo, hi)`.
pub open spec fn overlaps(b: BlockView, lo: int, hi: int) -> bool {
    b.begin < hi && lo < b.end
}

/// The samples a window scan yields: each overlapping block contributes
/// its whole content, in order.
pub open spec fn scan_blocks(s: Seq<BlockView>, lo: int, hi: int) -> Seq<Sample>
    decreases s.len(),
{
    if s.len() == 0 {
        Seq::empty()
    } else {
        (if overlaps(s[0], lo, hi) {
            s[0].samples
        } else {
            Seq::empty()
        }) + scan_blocks(s.drop_first(), lo, hi)
    }
}

/// The overlapping blocks themselves, in order.
pub open spec fn overlapping(s: Seq<BlockView>, lo: int, hi: int) -> Seq<BlockView>
    decreases s.len(),
{
    if s.len() == 0 {
        Seq::empty()
    } else {
        (if overlaps(s[0], lo, hi) {
            seq![s[0]]
        } else {
            Seq::empty()
        }) + overlapping(s.drop_first(), lo, hi)
    }
}

/// Scanning one more block appends its contribution.
proof fn lemma_scan_push(s: Seq<BlockView>, b: BlockView, lo: int, hi: int)
    ensures
        scan_blocks(s.push(b), lo, hi) =~= scan_blocks(s, lo, hi) + (if overlaps(b, lo, hi) {
            b.samples
        } else {
            Seq::empty()
        }),
    decreases s.len(),
{
    if s.len() == 0 {
        reveal_with_fuel(scan_blocks, 2);
        assert(s.push(b)[0] == b);
        assert(s.push(b).drop_first() =~= Seq::<BlockView>::empty());
    } else {
        assert(s.push(b)[0] == s[0]);
        assert(s.push(b).drop_first() =~= s.drop_first().push(b));
        lemma_scan_push(s.drop_first(), b, lo, hi);
    }
}

/// Filtering one more block appends it when it overlaps.
proof fn lemma_overlapping_push(s: Seq<BlockView>, b: BlockView, lo: int, hi: int)
    ensures
        overlapping(s.push(b), lo, hi) =~= overlapping(s, lo, hi) + (if overlaps(b, lo, hi) {
            seq![b]
        } else {
            Seq::empty()
        }),
    decreases s.len(),
{
    if s.len() == 0 {
        reveal_with_fuel(overlapping, 2);
        assert(s.push(b)[0] == b);
        assert(s.push(b).drop_first() =~= Seq::<BlockView>::empty());
    } else {
        assert(s.push(b)[0] == s[0]);
        assert(s.push(b).drop_first() =~= s.drop_first().push(b));
        lemma_overlapping_push(s.drop_first(), b, lo, hi);
    }
}

/// One named time series: open blocks in ascending time order, sealed
/// blocks in seal order, and the partition width in seconds.
pub struct TS {
    append_only_blocks: Vec<AppendOnlyBlock>,
    closed_blocks: Vec<ClosedBlock>,
    period: u64,
}

impl TS {
    /// The views of the open blocks, in list order.
    pub closed spec fn open_view(&self) -> Seq<BlockView> {
        self.append_only_blocks@.map_values(|b: AppendOnlyBlock| view_of_open(b))
    }

    /// The views of the sealed blocks, in seal order.
    pub closed spec fn closed_view(&self) -> Seq<BlockView> {
        self.closed_blocks@.map_values(|b: ClosedBlock| view_of_closed(b))
    }

    /// The partition width in seconds.
    pub closed spec fn period_spec(&self) -> u64 {
        self.period
    }

    /// Every block is sound, one period wide, aligned, holds only its own
    /// partition's samples, and the open list is ascending and disjoint.
    pub closed spec fn wf(&self) -> bool {
        &&& 1 <= self.period <= max_period()
        &&& forall|i: int|
            0 <= i < self.append_only_blocks@.len() ==> (#[trigger] self.append_only_blocks@[i]).wf()
        &&& forall|i: int|
            0 <= i < self.open_view().len() ==> {
                let b = #[trigger] self.open_view()[i];
                b.end - b.begin == self.period && b.begin % (self.period as int) == 0
            }
        &&& forall|i: int, j: int|
            0 <= i < j < self.open_view().len() ==> (#[trigger] self.open_view()[i]).end <= (
            #[trigger] self.open_view()[j]).begin
        &&& forall|i: int|
            0 <= i < self.closed_blocks@.len() ==> (#[trigger] self.closed_blocks@[i]).wf()
    }

    /// Room for more samples in every open block.
    pub open spec fn size_ok(&self) -> bool {
        forall|i: int|
            0 <= i < self.open_view().len() ==> 128 * ((#[trigger] self.open_view()[i]).samples.len()
                + 2) + 64 <= usize::MAX
    }

    /// A fresh series with the reference two-hour partition width.
    pub fn new() -> (ts: TS)
        ensures
            ts.wf(),
            ts.open_view() == Seq::<BlockView>::empty(),
            ts.closed_view() == Seq::<BlockView>::empty(),
            ts.period_spec() == 7200,
    {
        Self::with_period(7200)
    }

    /// A fresh series with the given partition width.
    pub fn with_period(period: u64) -> (ts: TS)
        requires
            1 <= period <= max_period(),
        ensures
            ts.wf(),
            ts.open_view() == Seq::<BlockView>::empty(),
            ts.closed_view() == Seq::<BlockView>::empty(),
            ts.period_spec() == period,
    {
        let ts = TS { append_only_blocks: Vec::new(), closed_blocks: Vec::new(), period };
        proof {
            assert(ts.open_view() =~= Seq::<BlockView>::empty());
            assert(ts.closed_view() =~= Seq::<BlockView>::empty());
        }
        ts
    }

    /// The partition width in seconds.
    pub fn period(&self) -> (p: u64)
        ensures
            p == self.period_spec(),
    {
        self.period
    }

    /// The partition holding `timestamp`, for this series' width.
    pub fn time_align(&self, timestamp: u64, period: u64) -> (r: (u64, u64))
        requires
            period >= 1,
            timestamp <= u64::MAX - period,
        ensures
            (r.0 as int, r.1 as int) == time_align_spec(timestamp, period),
            r.0 <= timestamp < r.1,
            r.1 - r.0 == period,
    {
        time_align(timestamp, period)
    }

    /// The open-block list stays sorted, pairwise disjoint, aligned and one
    /// period wide, and every sample lies in its block's partition.
    pub proof fn lemma_open_blocks_sorted(&self)
        requires
            self.wf(),
        ensures
            forall|i: int, j: int|
                0 <= i < j < self.open_view().len() ==> (#[trigger] self.open_view()[i]).end <= (
                #[trigger] self.open_view()[j]).begin,
            forall|i: int|
                0 <= i < self.open_view().len() ==> {
                    let b = #[trigger] self.open_view()[i];
                    b.end - b.begin == self.period_spec() && b.begin % (self.period_spec() as int)
                        == 0
                },
            forall|i: int, k: int|
                0 <= i < self.open_view().len() && 0 <= k < self.open_view()[i].samples.len()
                    ==> #[trigger] sample_in_block(self.open_view()[i], k),
    {
        assert forall|i: int, k: int|
            0 <= i < self.open_view().len() && 0 <= k
                < self.open_view()[i].samples.len() implies #[trigger] sample_in_block(
            self.open_view()[i],
            k,
        ) by {
            assert(self.open_view()[i] == view_of_open(self.append_only_blocks@[i]));
            self.append_only_blocks@[i].lemma_wf();
        }
    }

    /// Ingest one sample.
    ///
    /// With no block yet, a block for the sample's partition is created and
    /// the sample lands there. A sample before the oldest open block is
    /// dropped and the series is unchanged. A sample inside an existing
    /// partition lands in exactly that block. Otherwise a fresh block for
    /// its partition is inserted in time order. The total number of stored
    /// samples grows by one exactly when the sample is accepted.
    pub fn append(&mut self, dp: Sample)
        requires
            old(self).wf(),
            old(self).size_ok(),
            dp.time <= u64::MAX - old(self).period_spec(),
        ensures
            final(self).wf(),
            final(self).period_spec() == old(self).period_spec(),
            final(self).closed_view() == old(self).closed_view(),
            append_effect(
                old(self).open_view(),
                final(self).open_view(),
                old(self).period_spec(),
                dp,
            ),
            total_samples(final(self).open_view()) == total_samples(old(self).open_view()) + (
            if old(self).open_view().len() == 0 || dp.time as int >= old(self).open_view()[0].begin {
                1int
            } else {
                0int
            }),
    {
        let ghost ov = self.open_view();
        let ghost p = self.period as int;
        // no block yet: create one for the sample's partition
        if self.append_only_blocks.len() == 0 {
            let (b, e) = time_align(dp.time, self.period);
            let mut aob = AppendOnlyBlock::new(b, e);
            aob.append(dp);
            let ghost vb = view_of_open(aob);
            let ghost gaob = aob;
            self.append_only_blocks.push(aob);
            proof {
                assert(Seq::<Sample>::empty().push(dp) =~= seq![dp]);
                assert(self.open_view().len() == 1);
                assert(old(self).append_only_blocks@.push(gaob)[0] == gaob);
                assert(self.append_only_blocks@[0] == gaob);
                assert(self.open_view()[0] == view_of_open(self.append_only_blocks@[0]));
                assert(self.open_view() =~= seq![vb]);
                assert(total_samples(Seq::<BlockView>::empty()) == 0);
                assert(total_samples(self.open_view()) == 1) by {
                    assert(self.open_view().drop_first() =~= Seq::<BlockView>::empty());
                }
            }
            return ;
        }
        // hard lower bound: drop anything before the oldest open block
        let first_begin = self.append_only_blocks[0].time_begin();
        if dp.time < first_begin {
            proof {
                assert(self.open_view() =~= ov);
            }
            return ;
        }
        // find the block whose partition holds the sample
        let n = self.append_only_blocks.len();
        let mut i: usize = 0;
        while i < n
            invariant
                self.wf(),
                self.size_ok(),
                self == old(self),
                dp.time <= u64::MAX - self.period_spec(),
                n == self.append_only_blocks@.len(),
                i <= n,
                ov == self.open_view(),
                0 < ov.len(),
                ov[0].begin <= dp.time as int,
                forall|j: int|
                    0 <= j < i ==> !((#[trigger] ov[j]).begin <= dp.time as int && (dp.time as int) < ov[j].end),
            decreases n - i,
        {
            let bb = self.append_only_blocks[i].time_begin();
            let be = self.append_only_blocks[i].time_end();
            proof {
                assert(ov[i as int] == view_of_open(self.append_only_blocks@[i as int]));
            }
            if bb <= dp.time && dp.time < be {
                proof {
                    lemma_find_block_at(ov, dp.time as int, i as int);
                }
                let mut blk = self.append_only_blocks.remove(i);
                blk.append(dp);
                self.append_only_blocks.insert(i, blk);
                proof {
                    let nb = BlockView {
                        begin: ov[i as int].begin,
                        end: ov[i as int].end,
                        samples: ov[i as int].samples.push(dp),
                    };
                    assert(self.append_only_blocks@ =~= old(
                        self,
                    ).append_only_blocks@.update(i as int, self.append_only_blocks@[i as int]));
                    assert(self.open_view() =~= ov.update(i as int, nb));
                    lemma_total_update(ov, i as int, nb);
                }
                return ;
            }
            i = i + 1;
        }
        proof {
            lemma_find_block_none(ov, dp.time as int);
        }
        // no partition holds it: open a fresh block in time order
        let (b, e) = time_align(dp.time, self.period);
        let mut aob = AppendOnlyBlock::new(b, e);
        aob.append(dp);
        let ghost nb = view_of_open(aob);
        let mut k: usize = 0;
        while k < n
            invariant
                n == self.append_only_blocks@.len(),
                k <= n,
                ov == self.open_view(),
                forall|j: int| 0 <= j < k ==> (#[trigger] ov[j]).begin <= b as int,
            ensures
                k <= n,
                forall|j: int| 0 <= j < k ==> (#[trigger] ov[j]).begin <= b as int,
                k < n ==> (b as int) < ov[k as int].begin,
            decreases n - k,
        {
            proof {
                assert(ov[k as int] == view_of_open(self.append_only_blocks@[k as int]));
            }
            if b < self.append_only_blocks[k].time_begin() {
                break ;
            }
            proof {
                assert(ov[k as int].begin <= b as int);
            }
            k = k + 1;
        }
        proof {
            lemma_insert_pos_at(ov, b as int, k as int);
            lemma_time_align_partition(dp.time, self.period);
        }
        self.append_only_blocks.insert(k, aob);
        proof {
            assert(self.open_view() =~= ov.insert(k as int, nb));
            lemma_total_insert(ov, k as int, nb);
            // the new list stays sorted: the fresh aligned block is a full
            // period away from its distinct aligned neighbours
            let nv = self.open_view();
            assert forall|x: int, y: int| 0 <= x < y < nv.len() implies (#[trigger] nv[x]).end
                <= (#[trigger] nv[y]).begin by {
                if x < k && y > k {
                    assert(nv[x] == ov[x]);
                    assert(nv[y] == ov[y - 1]);
                } else if y == k {
                    assert(nv[x] == ov[x]);
                    assert(ov[x].begin <= b as int);
                    assert(ov[x].begin != b as int) by {
                        if ov[x].begin == b as int {
                            assert(ov[x].begin <= dp.time as int && (dp.time as int) < ov[x].end);
                        }
                    }
                    lemma_aligned_gap(ov[x].begin, b as int, p);
                } else if x == k {
                    assert(nv[y] == ov[y - 1]);
                    assert((b as int) < ov[y - 1].begin) by {
                        if y - 1 > k - 1 + 1 {
                        }
                        assert(k <= y - 1 < ov.len());
                        if k < ov.len() {
                            assert((b as int) < ov[k as int].begin);
                            if y - 1 > k {
                                assert(ov[k as int].end <= ov[y - 1].begin);
                            }
                        }
                    }
                    lemma_aligned_gap(b as int, ov[y - 1].begin, p);
                } else if x < k && y < k {
                    assert(nv[x] == ov[x]);
                    assert(nv[y] == ov[y]);
                } else {
                    assert(nv[x] == ov[x - 1]);
                    assert(nv[y] == ov[y - 1]);
                }
            }
        }
    }

    /// What one `roll_down` pass at wall time `now` does: when the oldest
    /// open block's age reaches `timeout`, it moves to the closed list;
    /// otherwise nothing changes.
    pub open spec fn rolled_down(
        pre_open: Seq<BlockView>,
        pre_closed: Seq<BlockView>,
        post_open: Seq<BlockView>,
        post_closed: Seq<BlockView>,
        now: u64,
        timeout: u64,
    ) -> bool {
        if pre_open.len() > 0 && pre_open[0].begin <= now as int && now as int - pre_open[0].begin
            >= timeout as int {
            post_open =~= pre_open.drop_first() && post_closed =~= pre_closed.push(pre_open[0])
        } else {
            post_open =~= pre_open && post_closed =~= pre_closed
        }
    }

    /// Seal the oldest open block into the closed list if its age at `now`
    /// reaches `timeout`; the next write to that partition opens a fresh
    /// block.
    pub fn roll_down_at(&mut self, now: u64, timeout: u64)
        requires
            old(self).wf(),
        ensures
            final(self).wf(),
            final(self).period_spec() == old(self).period_spec(),
            TS::rolled_down(
                old(self).open_view(),
                old(self).closed_view(),
                final(self).open_view(),
                final(self).closed_view(),
                now,
                timeout,
            ),
    {
        let ghost ov = self.open_view();
        let ghost cv = self.closed_view();
        if self.append_only_blocks.len() == 0 {
            proof {
                assert(self.open_view() =~= ov);
                assert(self.closed_view() =~= cv);
            }
            return ;
        }
        proof {
            assert(ov[0] == view_of_open(self.append_only_blocks@[0]));
        }
        let b0 = self.append_only_blocks[0].time_begin();
        if now >= b0 && now - b0 >= timeout {
            let blk = self.append_only_blocks.remove(0);
            let cb = ClosedBlock::new(&blk);
            let ghost gcb = cb;
            self.closed_blocks.push(cb);
            proof {
                assert(self.open_view() =~= ov.drop_first());
                assert(old(self).closed_blocks@.push(gcb)[cv.len() as int] == gcb);
                assert(view_of_closed(gcb) == ov[0]);
                assert(self.closed_view() =~= cv.push(ov[0]));
            }
        } else {
            proof {
                assert(self.open_view() =~= ov);
                assert(self.closed_view() =~= cv);
            }
        }
    }

    /// One periodic compaction pass against the wall clock.
    pub fn roll_down(&mut self, timeout: u64)
        requires
            old(self).wf(),
        ensures
            final(self).wf(),
            final(self).period_spec() == old(self).period_spec(),
            exists|now: u64|
                TS::rolled_down(
                    old(self).open_view(),
                    old(self).closed_view(),
                    final(self).open_view(),
                    final(self).closed_view(),
                    now,
                    timeout,
                ),
    {
        let now = now_timestamp_secs();
        self.roll_down_at(now, timeout);
    }

    /// Collect the samples of every open block overlapping the window, in
    /// block order then arrival order.
    pub fn scan(&self, begin_time: u64, end_time: u64) -> (out: Vec<Sample>)
        requires
            self.wf(),
        ensures
            out@ == scan_blocks(self.open_view(), begin_time as int, end_time as int),
    {
        let ghost ov = self.open_view();
        let ghost lo = begin_time as int;
        let ghost hi = end_time as int;
        let mut out: Vec<Sample> = Vec::new();
        let n = self.append_only_blocks.len();
        let mut i: usize = 0;
        proof {
            assert(ov.take(0) =~= Seq::<BlockView>::empty());
        }
        while i < n
            invariant
                self.wf(),
                n == self.append_only_blocks@.len(),
                i <= n,
                ov == self.open_view(),
                lo == begin_time as int,
                hi == end_time as int,
                out@ == scan_blocks(ov.take(i as int), lo, hi),
            decreases n - i,
        {
            proof {
                assert(ov[i as int] == view_of_open(self.append_only_blocks@[i as int]));
            }
            let bb = self.append_only_blocks[i].time_begin();
            let be = self.append_only_blocks[i].time_end();
            if bb < end_time && begin_time < be {
                let mut part = self.append_only_blocks[i].read();
                out.append(&mut part);
            }
            proof {
                lemma_scan_push(ov.take(i as int), ov[i as int], lo, hi);
                assert(ov.take(i + 1) =~= ov.take(i as int).push(ov[i as int]));
            }
            i = i + 1;
        }
        proof {
            assert(ov.take(n as int) =~= ov);
        }
        out
    }

    /// One fresh decoder per open block overlapping the window, in block
    /// order.
    pub fn get_decoder(&self, begin_time: u64, end_time: u64) -> (out: Vec<Decoder>)
        requires
            self.wf(),
        ensures
            ({
                let bs = overlapping(self.open_view(), begin_time as int, end_time as int);
                &&& out@.len() == bs.len()
                &&& forall|i: int|
                    0 <= i < bs.len() ==> {
                        let d = #[trigger] out@[i];
                        &&& d.wf()
                        &&& d.pos() == 0
                        &&& d.state() == dec_init()
                        &&& d.bits() == encode_stream(bs[i].begin as u64, bs[i].samples)
                        &&& chain_ok(init_state(bs[i].begin as u64), bs[i].samples)
                    }
            }),
    {
        let ghost ov = self.open_view();
        let ghost lo = begin_time as int;
        let ghost hi = end_time as int;
        let mut out: Vec<Decoder> = Vec::new();
        let n = self.append_only_blocks.len();
        let mut i: usize = 0;
        proof {
            assert(ov.take(0) =~= Seq::<BlockView>::empty());
        }
        while i < n
            invariant
                self.wf(),
                n == self.append_only_blocks@.len(),
                i <= n,
                ov == self.open_view(),
                lo == begin_time as int,
                hi == end_time as int,
                out@.len() == overlapping(ov.take(i as int), lo, hi).len(),
                forall|j: int|
                    0 <= j < out@.len() ==> {
                        let bs = overlapping(ov.take(i as int), lo, hi);
                        let d = #[trigger] out@[j];
                        &&& d.wf()
                        &&& d.pos() == 0
                        &&& d.state() == dec_init()
                        &&& d.bits() == encode_stream(bs[j].begin as u64, bs[j].samples)
                        &&& chain_ok(init_state(bs[j].begin as u64), bs[j].samples)
                    },
            decreases n - i,
        {
            proof {
                assert(ov[i as int] == view_of_open(self.append_only_blocks@[i as int]));
            }
            let bb = self.append_only_blocks[i].time_begin();
            let be = self.append_only_blocks[i].time_end();
            proof {
                lemma_overlapping_push(ov.take(i as int), ov[i as int], lo, hi);
                assert(ov.take(i + 1) =~= ov.take(i as int).push(ov[i as int]));
            }
            if bb < end_time && begin_time < be {
                let d = self.append_only_blocks[i].get_decoder();
                out.push(d);
                proof {
                    let bs = overlapping(ov.take(i + 1), lo, hi);
                    assert(bs =~= overlapping(ov.take(i as int), lo, hi).push(ov[i as int]));
                }
            }
            i = i + 1;
        }
        proof {
            assert(ov.take(n as int) =~= ov);
        }
        out
    }

    /// Number of open blocks.
    pub fn open_count(&self) -> (n: usize)
        ensures
            n == self.open_view().len(),
    {
        self.append_only_blocks.len()
    }

    /// Number of sealed blocks.
    pub fn closed_count(&self) -> (n: usize)
        ensures
            n == self.closed_view().len(),
    {
        self.closed_blocks.len()
    }

    /// Decode the `i`-th sealed block back into its samples.
    pub fn read_closed(&self, i: usize) -> (out: Vec<Sample>)
        requires
            self.wf(),
            i < self.closed_view().len(),
        ensures
            out@ == self.closed_view()[i as int].samples,
    {
        proof {
            assert(self.closed_view()[i as int] == view_of_closed(self.closed_blocks@[i as int]));
        }
        self.closed_blocks[i].read()
    }
}

} // verus!

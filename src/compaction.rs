use vstd::prelude::*;
use crate::config::{CompactionConfig, CompactionStats, CompactionStrategy};
use crate::keymap::{bytes_view, keys_increasing, lemma_bytes_view_push, lemma_keys_increasing_take, KeyMap};
use crate::keys::copy_bytes;
use crate::lsm::{read_of, LsmStorage};
use crate::memtable::{entries_size, MemTable};
use crate::sstable::{drop_tombstones, live_only, runs_from, RunCatalog, SSTable};
use crate::types::{DbError, VersionTimestamp};

verus! {

/// Bytes of level 1 before the size multiplier applies (10 MiB).
pub const LEVEL_BASE_BYTES: u64 = 10485760;

/// The sum of the runs' sizes from position `i` on.
pub open spec fn sizes_from(rs: Seq<SSTable>, i: int) -> nat
    decreases rs.len() - i,
{
    if i < 0 || i >= rs.len() {
        0
    } else {
        rs[i].size as nat + sizes_from(rs, i + 1)
    }
}

/// What merging runs `rs[start..end]` yields: newer runs win on equal keys;
/// at the bottom level tombstones are dropped.
pub open spec fn merged_view(rs: Seq<SSTable>, start: int, end: int, bottom: bool) -> Map<Seq<u8>, Seq<u8>> {
    if bottom {
        live_only(runs_from(rs.subrange(start, end), 0))
    } else {
        runs_from(rs.subrange(start, end), 0)
    }
}

pub proof fn lemma_entries_size_take(s: Seq<(Vec<u8>, Vec<u8>)>, i: int)
    requires
        0 <= i <= s.len(),
    ensures
        entries_size(s.take(i)) <= entries_size(s),
    decreases s.len(),
{
    if i == s.len() {
        assert(s.take(i) =~= s);
    } else {
        assert(s.drop_last().take(i) =~= s.take(i));
        lemma_entries_size_take(s.drop_last(), i);
    }
}

pub proof fn lemma_runs_from_skip(a: Seq<SSTable>, i: int)
    requires
        0 <= i <= a.len(),
    ensures
        runs_from(a, i) == runs_from(a.skip(i), 0),
    decreases a.len() - i,
{
    if i < a.len() {
        lemma_runs_from_skip(a, i + 1);
        lemma_runs_from_skip(a.skip(i), 1);
        assert(a.skip(i).skip(1) =~= a.skip(i + 1));
        assert(a.skip(i)[0] == a[i]);
    } else {
        assert(a.skip(i).len() == 0);
    }
}

/// The runs from `s` on hold the runs from `e` on, overridden by `rs[s..e]`.
pub proof fn lemma_runs_from_split(rs: Seq<SSTable>, s: int, e: int)
    requires
        0 <= s <= e <= rs.len(),
    ensures
        runs_from(rs, s) == runs_from(rs, e).union_prefer_right(runs_from(rs.subrange(s, e), 0)),
    decreases e - s,
{
    let w = rs.subrange(s, e);
    if s == e {
        assert(runs_from(w, 0) =~= Map::<Seq<u8>, Seq<u8>>::empty());
        assert(runs_from(rs, s) =~= runs_from(rs, e).union_prefer_right(runs_from(w, 0)));
    } else {
        lemma_runs_from_split(rs, s + 1, e);
        lemma_runs_from_skip(w, 1);
        assert(w.skip(1) =~= rs.subrange(s + 1, e));
        assert(w[0] == rs[s]);
        assert(runs_from(rs, s) =~= runs_from(rs, e).union_prefer_right(runs_from(w, 0)));
    }
}

/// Sum of the sizes of `rs[start..end]`, if it fits in a `u64`.
fn window_size(rs: &Vec<SSTable>, start: usize, end: usize) -> (r: Option<u64>)
    requires
        start <= end <= rs@.len(),
    ensures
        r is Some <==> sizes_from(rs@.subrange(start as int, end as int), 0) <= u64::MAX,
        r matches Some(n) ==> n == sizes_from(rs@.subrange(start as int, end as int), 0),
{
    let ghost w = rs@.subrange(start as int, end as int);
    let mut total: u64 = 0;
    let mut i: usize = end;
    while i > start
        invariant
            start <= i <= end <= rs@.len(),
            w == rs@.subrange(start as int, end as int),
            total == sizes_from(w, i - start),
        decreases i,
    {
        i = i - 1;
        assert(w[i - start] == rs@[i as int]);
        if rs[i].size > u64::MAX - total {
            proof {
                lemma_sizes_from_le(w, i - start);
            }
            return None;
        }
        total = total + rs[i].size;
    }
    Some(total)
}

pub proof fn lemma_sizes_from_le(w: Seq<SSTable>, i: int)
    requires
        0 <= i <= w.len(),
    ensures
        sizes_from(w, i) <= sizes_from(w, 0),
    decreases i,
{
    if i > 0 {
        lemma_sizes_from_le(w, i - 1);
    }
}

/// The total of the key and value lengths of `s`.
fn entries_byte_size(s: &Vec<(Vec<u8>, Vec<u8>)>) -> (r: u64)
    requires
        entries_size(s@) <= u64::MAX,
    ensures
        r == entries_size(s@),
{
    let mut total: u64 = 0;
    let mut i: usize = 0;
    while i < s.len()
        invariant
            i <= s@.len(),
            entries_size(s@) <= u64::MAX,
            total == entries_size(s@.take(i as int)),
        decreases s@.len() - i,
    {
        proof {
            assert(s@.take(i + 1).drop_last() =~= s@.take(i as int));
            assert(s@.take(i + 1).last() == s@[i as int]);
            lemma_entries_size_take(s@, i + 1);
        }
        total = total + s[i].0.len() as u64 + s[i].1.len() as u64;
        i = i + 1;
    }
    assert(s@.take(i as int) =~= s@);
    total
}

/// Merges the runs `rs[start..end]` (in read order: earlier runs are newer)
/// into one run at `target_level`. Fails only when the runs' sizes add up to
/// more than a `u64` holds.
pub fn merge_sstables(
    rs: &Vec<SSTable>,
    start: usize,
    end: usize,
    target_level: u32,
    created_ts: u64,
    bottom: bool,
) -> (r: Result<SSTable, DbError>)
    requires
        start <= end <= rs@.len(),
        forall|i: int| 0 <= i < rs@.len() ==> (#[trigger] rs@[i]).wf(),
    ensures
        r is Ok <==> sizes_from(rs@.subrange(start as int, end as int), 0) <= u64::MAX,
        r matches Err(e) ==> e is Compaction,
        r matches Ok(t) ==> {
            &&& t.wf()
            &&& t@ == merged_view(rs@, start as int, end as int, bottom)
            &&& t.level == target_level
            &&& t.created_ts == created_ts
        },
{
    let ghost w = rs@.subrange(start as int, end as int);
    let limit = match window_size(rs, start, end) {
        Some(n) => n,
        None => return Err(DbError::Compaction("merged run would be too large".to_string())),
    };
    let mut acc = MemTable::with_threshold(u64::MAX);
    let mut i: usize = end;
    proof {
        assert(acc@ =~= runs_from(w, end - start));
    }
    while i > start
        invariant
            start <= i <= end <= rs@.len(),
            w == rs@.subrange(start as int, end as int),
            forall|j: int| 0 <= j < rs@.len() ==> (#[trigger] rs@[j]).wf(),
            acc.wf(),
            limit == sizes_from(w, 0),
            acc.size <= sizes_from(w, i - start),
            acc@ == runs_from(w, i - start),
        decreases i,
    {
        i = i - 1;
        let ghost base = acc@;
        let ghost base_size = acc.size;
        assert(w[i - start] == rs@[i as int]);
        assert(rs@[i as int].wf());
        let entries = &rs[i].data.entries;
        let mut j: usize = 0;
        proof {
            assert(entries@.take(0) =~= Seq::<(Vec<u8>, Vec<u8>)>::empty());
            assert(bytes_view(entries@.take(0)) =~= Map::<Seq<u8>, Seq<u8>>::empty());
            assert(acc@ =~= base.union_prefer_right(bytes_view(entries@.take(0))));
            lemma_sizes_from_le(w, i - start);
        }
        while j < entries.len()
            invariant
                0 <= j <= entries@.len(),
                entries == &rs@[i as int].data.entries,
                keys_increasing(entries@),
                acc.wf(),
                base_size + entries_size(entries@) <= u64::MAX,
                acc.size <= base_size + entries_size(entries@.take(j as int)),
                acc@ == base.union_prefer_right(bytes_view(entries@.take(j as int))),
            decreases entries@.len() - j,
        {
            proof {
                assert(entries@.take(j + 1) =~= entries@.take(j as int).push(entries@[j as int]));
                assert(entries@.take(j + 1).drop_last() =~= entries@.take(j as int));
                lemma_keys_increasing_take(entries@, j + 1);
                lemma_bytes_view_push(entries@.take(j as int), entries@[j as int]);
                lemma_entries_size_take(entries@, j + 1);
            }
            let k = copy_bytes(entries[j].0.as_slice());
            let v = copy_bytes(entries[j].1.as_slice());
            let ghost before = acc@;
            acc.insert(k, v);
            proof {
                assert(acc@ =~= base.union_prefer_right(bytes_view(entries@.take(j + 1))));
            }
            j = j + 1;
        }
        proof {
            assert(entries@.take(j as int) =~= entries@);
            assert(acc@ =~= runs_from(w, i - start));
        }
    }
    if bottom {
        let live = drop_tombstones(&acc.data.entries);
        let size = entries_byte_size(&live);
        let t = SSTable { level: target_level, created_ts, data: KeyMap { entries: live }, size };
        Ok(t)
    } else {
        Ok(SSTable::from_memtable(target_level, created_ts, acc))
    }
}

/// Reads against `rest` over-layered by `a` or by `b` agree when `b` is `a`
/// without its tombstones and nothing lies beneath them.
pub proof fn lemma_read_bottom(a: Map<Seq<u8>, Seq<u8>>, top: Map<Seq<u8>, Seq<u8>>, k: Seq<u8>)
    ensures
        read_of(live_only(a).union_prefer_right(top), k) == read_of(a.union_prefer_right(top), k),
{
}

impl RunCatalog {
    /// Replaces the runs `runs[start..end]` with `output`, in their place.
    pub fn install_compaction(&mut self, start: usize, end: usize, output: SSTable)
        requires
            old(self).wf(),
            start < end <= old(self).runs@.len(),
            output.wf(),
        ensures
            final(self).wf(),
            final(self).runs@ == old(self).runs@.subrange(0, start as int) + seq![output]
                + old(self).runs@.subrange(end as int, old(self).runs@.len() as int),
    {
        let ghost o = output;
        let mut i: usize = start;
        let ghost orig = self.runs@;
        while i < end
            invariant
                start <= i <= end <= orig.len(),
                self.runs@ == orig.subrange(0, start as int) + orig.subrange(i as int, orig.len() as int),
                forall|j: int| 0 <= j < orig.len() ==> (#[trigger] orig[j]).wf(),
            decreases end - i,
        {
            self.runs.remove(start);
            assert(self.runs@ =~= orig.subrange(0, start as int) + orig.subrange(i + 1, orig.len() as int));
            i = i + 1;
        }
        self.runs.insert(start, output);
        assert(self.runs@ =~= orig.subrange(0, start as int) + seq![o] + orig.subrange(end as int, orig.len() as int));
        assert forall|j: int| 0 <= j < self.runs@.len() implies (#[trigger] self.runs@[j]).wf() by {
            if j < start {
                assert(self.runs@[j] == orig[j]);
            } else if j > start {
                assert(self.runs@[j] == orig[j - start - 1 + end]);
            }
        }
    }
}

/// Replacing a window of runs by their merge leaves every read unchanged; at
/// the bottom the merge may drop tombstones.
pub proof fn lemma_install_preserves_reads(
    rs: Seq<SSTable>,
    start: int,
    end: int,
    out: SSTable,
    top: Map<Seq<u8>, Seq<u8>>,
    k: Seq<u8>,
)
    requires
        0 <= start < end <= rs.len(),
        out@ == merged_view(rs, start, end, end == rs.len()),
    ensures
        read_of(runs_from(rs.subrange(0, start) + seq![out] + rs.subrange(end, rs.len() as int), 0).union_prefer_right(top), k)
            == read_of(runs_from(rs, 0).union_prefer_right(top), k),
{
    let ns = rs.subrange(0, start) + seq![out] + rs.subrange(end, rs.len() as int);
    let w = runs_from(rs.subrange(start, end), 0);
    lemma_runs_from_split(rs, 0, start);
    lemma_runs_from_split(rs, start, end);
    lemma_runs_from_split(ns, 0, start);
    assert(ns.subrange(0, start) =~= rs.subrange(0, start));
    lemma_runs_from_skip(ns, start + 1);
    lemma_runs_from_skip(rs, end);
    assert(ns.skip(start + 1) =~= rs.skip(end));
    assert(ns[start] == out);
    let p = runs_from(rs.subrange(0, start), 0);
    let re = runs_from(rs, end);
    assert(runs_from(ns, start) == runs_from(ns, start + 1).union_prefer_right(out@));
    if end == rs.len() {
        assert(re =~= Map::<Seq<u8>, Seq<u8>>::empty());
        assert(runs_from(ns, 0).union_prefer_right(top) =~= live_only(w).union_prefer_right(p.union_prefer_right(top)));
        assert(runs_from(rs, 0).union_prefer_right(top) =~= w.union_prefer_right(p.union_prefer_right(top)));
        lemma_read_bottom(w, p.union_prefer_right(top), k);
    } else {
        assert(runs_from(ns, 0) =~= runs_from(rs, 0));
    }
}

/// A contiguous window `runs[start..end]` to merge into one run at `level`.
pub struct CompactionPlan {
    pub start: usize,
    pub end: usize,
    pub level: u32,
}

/// Number of leading runs at level `level`, from position `i` on.
pub open spec fn run_of_level(rs: Seq<SSTable>, i: int, level: u32) -> int
    decreases rs.len() - i,
{
    if i < 0 || i >= rs.len() || rs[i].level != level {
        0
    } else {
        1 + run_of_level(rs, i + 1, level)
    }
}

/// Counts the runs at `level` that follow each other from position `i`.
fn count_block(rs: &Vec<SSTable>, i: usize, level: u32) -> (r: usize)
    requires
        i <= rs@.len(),
    ensures
        r == run_of_level(rs@, i as int, level),
        i + r <= rs@.len(),
        i < rs@.len() && rs@[i as int].level == level ==> r >= 1,
        rs@.len() <= usize::MAX,
{
    let _n = rs.len();
    let mut j: usize = i;
    while j < rs.len() && rs[j].level == level
        invariant
            i <= j <= rs@.len(),
            forall|t: int| i <= t < j ==> (#[trigger] rs@[t]).level == level,
            run_of_level(rs@, i as int, level) == (j - i) + run_of_level(rs@, j as int, level),
        decreases rs@.len() - j,
    {
        j = j + 1;
    }
    j - i
}

/// `base` times `m` to the power `level`, saturating at `u64::MAX`.
pub open spec fn level_cap(base: u64, m: u64, level: u32) -> int
    decreases level,
{
    if level == 0 {
        base as int
    } else {
        let c = level_cap(base, m, (level - 1) as u32) * m;
        if c > u64::MAX { u64::MAX as int } else { c }
    }
}

fn level_cap_exec(base: u64, m: u64, level: u32) -> (r: u64)
    ensures
        r == level_cap(base, m, level),
    decreases level,
{
    if level == 0 {
        base
    } else {
        let c = level_cap_exec(base, m, level - 1);
        if m != 0 && c > u64::MAX / m {
            proof {
                assert(c as int * m as int > u64::MAX) by (nonlinear_arith)
                    requires
                        m != 0,
                        c > u64::MAX / m,
                ;
            }
            u64::MAX
        } else {
            proof {
                if m != 0 {
                    assert(c as int * m as int <= u64::MAX) by (nonlinear_arith)
                        requires
                            m != 0,
                            c <= u64::MAX / m,
                    ;
                }
            }
            c * m
        }
    }
}

/// The leveled strategy's level-0 job: once at least `trigger` runs lead
/// the catalog at level 0, they are merged with the level-1 runs right
/// after them into level 1.
pub open spec fn leveled_l0_plan(rs: Seq<SSTable>, trigger: usize) -> Option<(int, int)> {
    let n0 = run_of_level(rs, 0, 0);
    if n0 >= trigger && n0 > 0 {
        Some((0, n0 + run_of_level(rs, n0, 1)))
    } else {
        None
    }
}

/// A window that lies within `n` runs and holds at least one.
pub open spec fn plan_valid(r: Option<CompactionPlan>, n: int) -> bool {
    r matches Some(p) ==> p.start < p.end <= n
}

/// `x`, or `u64::MAX` when `x` is larger.
pub open spec fn capped(x: int) -> int {
    if x > u64::MAX {
        u64::MAX as int
    } else {
        x
    }
}

/// The leveled strategy's job below level 0: the first block of runs of one
/// level L >= 1 whose bytes exceed that level's cap is merged with the
/// block of level L + 1 right after it, into level L + 1.
pub open spec fn leveled_deep_plan(rs: Seq<SSTable>, multiplier: u64, i: int) -> Option<(int, int, u32)>
    decreases rs.len() - i,
{
    if i < 0 || i >= rs.len() {
        None
    } else {
        let level = rs[i].level;
        let n = run_of_level(rs, i, level);
        if n <= 0 || i + n > rs.len() {
            None
        } else if level >= 1 && level < u32::MAX && capped(sizes_from(rs.subrange(i, i + n), 0) as int) > level_cap(
            LEVEL_BASE_BYTES,
            multiplier,
            level,
        ) {
            Some((i, i + n + run_of_level(rs, i + n, (level + 1) as u32), (level + 1) as u32))
        } else {
            leveled_deep_plan(rs, multiplier, i + n)
        }
    }
}

/// The leveled strategy's job: the level-0 job if due, else the first
/// deeper job.
pub open spec fn leveled_plan(rs: Seq<SSTable>, multiplier: u64, trigger: usize) -> Option<(int, int, u32)> {
    match leveled_l0_plan(rs, trigger) {
        Some(w) => Some((w.0, w.1, 1u32)),
        None => leveled_deep_plan(rs, multiplier, run_of_level(rs, 0, 0)),
    }
}

proof fn lemma_run_of_level_bounds(rs: Seq<SSTable>, i: int, level: u32)
    requires
        0 <= i <= rs.len(),
    ensures
        0 <= run_of_level(rs, i, level) <= rs.len() - i,
        i < rs.len() && rs[i].level == level ==> run_of_level(rs, i, level) >= 1,
    decreases rs.len() - i,
{
    if i < rs.len() && rs[i].level == level {
        lemma_run_of_level_bounds(rs, i + 1, level);
    }
}

/// Sum of the sizes of `rs[start..end]`, or `u64::MAX` if it is larger.
fn capped_window_size(rs: &Vec<SSTable>, start: usize, end: usize) -> (r: u64)
    requires
        start <= end <= rs@.len(),
    ensures
        r == capped(sizes_from(rs@.subrange(start as int, end as int), 0) as int),
{
    let ghost w = rs@.subrange(start as int, end as int);
    let mut total: u64 = 0;
    let mut i: usize = end;
    while i > start
        invariant
            start <= i <= end <= rs@.len(),
            w == rs@.subrange(start as int, end as int),
            total == capped(sizes_from(w, i - start) as int),
        decreases i,
    {
        i = i - 1;
        assert(w[i - start] == rs@[i as int]);
        total = if rs[i].size > u64::MAX - total { u64::MAX } else { total + rs[i].size };
    }
    total
}

/// Leveled planning: the level-0 job first, then the first block of a
/// level L >= 1 that outgrows its cap, merged with the level L + 1 block
/// after it.
fn plan_leveled(rs: &Vec<SSTable>, multiplier: u64, trigger: usize) -> (r: Option<CompactionPlan>)
    ensures
        plan_valid(r, rs@.len() as int),
        leveled_plan(rs@, multiplier, trigger) matches Some(w) ==> (r matches Some(p) && p.start == w.0 && p.end
            == w.1 && p.level == w.2),
        leveled_plan(rs@, multiplier, trigger) is None ==> r is None,
{
    let n0 = count_block(rs, 0, 0);
    if n0 >= trigger && n0 > 0 {
        let n1 = count_block(rs, n0, 1);
        return Some(CompactionPlan { start: 0, end: n0 + n1, level: 1 });
    }
    let mut i: usize = n0;
    while i < rs.len()
        invariant
            i <= rs@.len(),
            leveled_plan(rs@, multiplier, trigger) == leveled_deep_plan(rs@, multiplier, i as int),
        decreases rs@.len() - i,
    {
        let level = rs[i].level;
        let n = count_block(rs, i, level);
        proof {
            lemma_run_of_level_bounds(rs@, i as int, level);
        }
        let size = capped_window_size(rs, i, i + n);
        if level >= 1 && level < u32::MAX && size > level_cap_exec(LEVEL_BASE_BYTES, multiplier, level) {
            let m = count_block(rs, i + n, level + 1);
            return Some(CompactionPlan { start: i, end: i + n + m, level: level + 1 });
        }
        i = i + n;
    }
    None
}

/// `a + b`, or `u64::MAX` when that is larger.
pub open spec fn sat_add(a: u64, b: u64) -> u64 {
    if b > u64::MAX - a {
        u64::MAX
    } else {
        (a + b) as u64
    }
}

/// The next tier's cap: `cap` times `m`, saturating.
pub open spec fn next_cap(cap: u64, m: u64) -> u64 {
    if m != 0 && cap > u64::MAX / m {
        u64::MAX
    } else {
        (cap * m) as u64
    }
}

/// Where the tier that starts at `i` ends, and its (saturating) byte size:
/// the tier takes runs from `j` on while they keep it within `cap`; its
/// first run always belongs to it.
pub open spec fn tier_end(rs: Seq<SSTable>, i: int, j: int, size: u64, cap: u64) -> (int, u64)
    decreases rs.len() - j,
{
    if j < 0 || j >= rs.len() {
        (j, size)
    } else if j == i || (rs[j].size <= cap && size <= cap - rs[j].size) {
        tier_end(rs, i, j + 1, sat_add(size, rs[j].size), cap)
    } else {
        (j, size)
    }
}

/// The tiered strategy's job from position `i` on, where the tier cap is
/// `cap`: the first tier of two or more runs holding more than
/// `max_tier_size` bytes.
pub open spec fn tiered_plan(rs: Seq<SSTable>, max_tier_size: u64, m: u64, i: int, cap: u64) -> Option<(int, int)>
    decreases rs.len() - i,
{
    if i < 0 || i >= rs.len() {
        None
    } else {
        let (e, size) = tier_end(rs, i, i, 0, cap);
        if e - i >= 2 && size > max_tier_size {
            Some((i, e))
        } else if e <= i || e > rs.len() {
            None
        } else {
            tiered_plan(rs, max_tier_size, m, e, next_cap(cap, m))
        }
    }
}

proof fn lemma_tier_end_bounds(rs: Seq<SSTable>, i: int, j: int, size: u64, cap: u64)
    requires
        0 <= i <= j <= rs.len(),
    ensures
        j <= tier_end(rs, i, j, size, cap).0 <= rs.len(),
        j == i && i < rs.len() ==> tier_end(rs, i, j, size, cap).0 > i,
    decreases rs.len() - j,
{
    if j < rs.len() && (j == i || (rs[j].size <= cap && size <= cap - rs[j].size)) {
        lemma_tier_end_bounds(rs, i, j + 1, sat_add(size, rs[j].size), cap);
    }
}

/// Tiered planning: runs are grouped in read order into tiers; a tier closes
/// when the next run would take it past its cap, and each cap is the one
/// before times the multiplier. The first tier of two or more runs that
/// holds more than `max_tier_size` bytes is merged, into the deepest level
/// among its runs.
fn plan_tiered(rs: &Vec<SSTable>, max_tier_size: u64, multiplier: u64) -> (r: Option<CompactionPlan>)
    ensures
        plan_valid(r, rs@.len() as int),
        r matches Some(p) ==> tiered_plan(rs@, max_tier_size, multiplier, 0, max_tier_size) == Some(
            (p.start as int, p.end as int),
        ) && deepest_in(rs@, p.start as int, p.end as int, p.level),
        r is None ==> tiered_plan(rs@, max_tier_size, multiplier, 0, max_tier_size) is None,
{
    let mut i: usize = 0;
    let mut cap: u64 = max_tier_size;
    while i < rs.len()
        invariant
            i <= rs@.len(),
            tiered_plan(rs@, max_tier_size, multiplier, 0, max_tier_size) == tiered_plan(rs@, max_tier_size, multiplier, i as int, cap),
        decreases rs@.len() - i,
    {
        let mut j: usize = i;
        let mut size: u64 = 0;
        let mut deepest: u32 = rs[i].level;
        let mut at: usize = i;
        while j < rs.len() && (j == i || (rs[j].size <= cap && size <= cap - rs[j].size))
            invariant
                i <= j <= rs@.len(),
                i < rs@.len(),
                tier_end(rs@, i as int, i as int, 0, cap) == tier_end(rs@, i as int, j as int, size, cap),
                i <= at < rs@.len(),
                at < j || (at == i && j == i),
                rs@[at as int].level == deepest,
                forall|t: int| i <= t < j ==> (#[trigger] rs@[t]).level <= deepest,
            decreases rs@.len() - j,
        {
            size = if rs[j].size > u64::MAX - size { u64::MAX } else { size + rs[j].size };
            if rs[j].level > deepest {
                deepest = rs[j].level;
                at = j;
            }
            j = j + 1;
        }
        proof {
            lemma_tier_end_bounds(rs@, i as int, i as int, 0, cap);
        }
        if j - i >= 2 && size > max_tier_size {
            return Some(CompactionPlan { start: i, end: j, level: deepest });
        }
        i = j;
        cap = if multiplier != 0 && cap > u64::MAX / multiplier {
            u64::MAX
        } else {
            proof {
                if multiplier != 0 {
                    assert(cap as int * multiplier as int <= u64::MAX) by (nonlinear_arith)
                        requires
                            multiplier != 0,
                            cap <= u64::MAX / multiplier,
                    ;
                } else {
                    assert(cap as int * multiplier as int == 0) by (nonlinear_arith)
                        requires
                            multiplier == 0,
                    ;
                }
            }
            cap * multiplier
        };
    }
    None
}

/// The bucket of a run of `size` bytes when sizes between `min` and `max`
/// are cut into `count` equal ranges.
pub open spec fn size_bucket(size: u64, min: u64, max: u64, count: usize) -> int {
    let w0 = (max - min) / (count as int);
    let width = if w0 == 0 { 1 } else { w0 };
    if size <= min {
        0
    } else if size >= max {
        count - 1
    } else {
        bucket_spec(size, min, width as u64, count as u64)
    }
}

/// The deepest level among `rs[start..end]`.
pub open spec fn deepest_in(rs: Seq<SSTable>, start: int, end: int, level: u32) -> bool {
    &&& forall|j: int| start <= j < end ==> (#[trigger] rs[j]).level <= level
    &&& exists|j: int| start <= j < end && (#[trigger] rs[j]).level == level
}

/// Where the stretch of neighbours of `rs[i]` whose sizes share its bucket
/// ends, looking from `j` on.
pub open spec fn bucket_stretch_end(rs: Seq<SSTable>, min: u64, max: u64, count: usize, i: int, j: int) -> int
    decreases rs.len() - j,
{
    if 0 <= i < rs.len() && 0 <= j < rs.len() && size_bucket(rs[j].size, min, max, count) == size_bucket(
        rs[i].size,
        min,
        max,
        count,
    ) {
        bucket_stretch_end(rs, min, max, count, i, j + 1)
    } else {
        j
    }
}

/// The size-tiered strategy's job from position `i` on: the first stretch of
/// two or more neighbouring runs in one bucket.
pub open spec fn size_tiered_plan(rs: Seq<SSTable>, min: u64, max: u64, count: usize, i: int) -> Option<(int, int)>
    decreases rs.len() - i,
{
    if count == 0 || max <= min || i < 0 || i >= rs.len() {
        None
    } else {
        let e = bucket_stretch_end(rs, min, max, count, i, i + 1);
        if e - i >= 2 {
            Some((i, e))
        } else if e <= i || e > rs.len() {
            None
        } else {
            size_tiered_plan(rs, min, max, count, e)
        }
    }
}

proof fn lemma_bucket_stretch_end_bounds(rs: Seq<SSTable>, min: u64, max: u64, count: usize, i: int, j: int)
    requires
        0 <= j <= rs.len(),
    ensures
        j <= bucket_stretch_end(rs, min, max, count, i, j) <= rs.len(),
    decreases rs.len() - j,
{
    if 0 <= i < rs.len() && 0 <= j < rs.len() && size_bucket(rs[j].size, min, max, count) == size_bucket(rs[i].size, min, max, count) {
        lemma_bucket_stretch_end_bounds(rs, min, max, count, i, j + 1);
    }
}

/// Size-tiered planning: the first stretch of two or more neighbouring runs
/// whose sizes fall in the same bucket is merged, into the deepest level
/// among them. Only neighbours in read order are merged together: a merge of
/// runs that are not next to each other would let the output shadow newer
/// values of the runs between them, while a merge of neighbours keeps every
/// read unchanged.
fn plan_size_tiered(rs: &Vec<SSTable>, min: u64, max: u64, count: usize) -> (r: Option<CompactionPlan>)
    ensures
        plan_valid(r, rs@.len() as int),
        count == 0 || max <= min ==> r is None,
        count > 0 && min < max ==> (r is None <==> forall|j: int| 0 <= j < rs@.len() - 1
            ==> size_bucket((#[trigger] rs@[j]).size, min, max, count) != size_bucket(rs@[j + 1].size, min, max, count)),
        r matches Some(p) ==> {
            &&& p.end - p.start >= 2
            &&& forall|j: int| p.start <= j < p.end ==> size_bucket((#[trigger] rs@[j]).size, min, max, count)
                == size_bucket(rs@[p.start as int].size, min, max, count)
            &&& p.end == rs@.len() || size_bucket(rs@[p.end as int].size, min, max, count) != size_bucket(
                rs@[p.start as int].size, min, max, count)
            &&& forall|j: int| 0 <= j < p.start ==> size_bucket((#[trigger] rs@[j]).size, min, max, count)
                != size_bucket(rs@[j + 1].size, min, max, count)
            &&& deepest_in(rs@, p.start as int, p.end as int, p.level)
        },
        r is None <==> size_tiered_plan(rs@, min, max, count, 0) is None,
        r matches Some(p) ==> size_tiered_plan(rs@, min, max, count, 0) == Some((p.start as int, p.end as int)),
{
    if count == 0 || max <= min {
        return None;
    }
    let width0 = (max - min) / count as u64;
    let width = if width0 == 0 { 1 } else { width0 };
    let mut i: usize = 0;
    while i < rs.len()
        invariant
            i <= rs@.len(),
            width > 0,
            count > 0,
            min < max,
            width == (if (max - min) / (count as int) == 0 { 1 } else { (max - min) / (count as int) }),
            forall|j: int| 0 <= j && j + 1 <= i && j + 1 < rs@.len() ==> size_bucket((#[trigger] rs@[j]).size, min, max, count)
                != size_bucket(rs@[j + 1].size, min, max, count),
            size_tiered_plan(rs@, min, max, count, 0) == size_tiered_plan(rs@, min, max, count, i as int),
        decreases rs@.len() - i,
    {
        let b = bucket_of(rs[i].size, min, max, width, count as u64);
        let mut j: usize = i + 1;
        let mut deepest: u32 = rs[i].level;
        let mut at: usize = i;
        while j < rs.len() && bucket_of(rs[j].size, min, max, width, count as u64) == b
            invariant
                i < j <= rs@.len(),
                width > 0,
                count > 0,
                min < max,
                width == (if (max - min) / (count as int) == 0 { 1 } else { (max - min) / (count as int) }),
                b == size_bucket(rs@[i as int].size, min, max, count),
                forall|t: int| i <= t < j ==> size_bucket((#[trigger] rs@[t]).size, min, max, count) == b,
                i <= at < j,
                rs@[at as int].level == deepest,
                forall|t: int| i <= t < j ==> (#[trigger] rs@[t]).level <= deepest,
                bucket_stretch_end(rs@, min, max, count, i as int, i + 1) == bucket_stretch_end(rs@, min, max, count, i as int, j as int),
            decreases rs@.len() - j,
        {
            if rs[j].level > deepest {
                deepest = rs[j].level;
                at = j;
            }
            j = j + 1;
        }
        proof {
            lemma_bucket_stretch_end_bounds(rs@, min, max, count, i as int, i + 1);
        }
        if j - i >= 2 {
            return Some(CompactionPlan { start: i, end: j, level: deepest });
        }
        i = j;
    }
    None
}

/// The window of runs that `strategy` picks for the next job, if any.
pub open spec fn strategy_plan(rs: Seq<SSTable>, strategy: CompactionStrategy) -> Option<(int, int)> {
    match strategy {
        CompactionStrategy::Leveled { level_size_multiplier, level0_sstables_trigger } => {
            match leveled_plan(rs, level_size_multiplier, level0_sstables_trigger) {
                Some(w) => Some((w.0, w.1)),
                None => None,
            }
        },
        CompactionStrategy::Tiered { max_tier_size, tier_size_multiplier } => {
            tiered_plan(rs, max_tier_size, tier_size_multiplier, 0, max_tier_size)
        },
        CompactionStrategy::SizeTiered { min_sstable_size, max_sstable_size, bucket_count } => {
            size_tiered_plan(rs, min_sstable_size, max_sstable_size, bucket_count, 0)
        },
    }
}

/// The level the output of `strategy`'s job over `rs[start..end]` goes to:
/// the one the leveled plan names, else the deepest level among the inputs.
pub open spec fn plan_level(rs: Seq<SSTable>, strategy: CompactionStrategy, start: int, end: int, level: u32) -> bool {
    match strategy {
        CompactionStrategy::Leveled { level_size_multiplier, level0_sstables_trigger } => {
            leveled_plan(rs, level_size_multiplier, level0_sstables_trigger) == Some((start, end, level))
        },
        _ => deepest_in(rs, start, end, level),
    }
}

/// Picks the next compaction job by `strategy`, if any.
pub fn plan_compaction(catalog: &RunCatalog, strategy: CompactionStrategy) -> (r: Option<CompactionPlan>)
    ensures
        plan_valid(r, catalog.runs@.len() as int),
        r is None <==> strategy_plan(catalog.runs@, strategy) is None,
        r matches Some(p) ==> strategy_plan(catalog.runs@, strategy) == Some((p.start as int, p.end as int))
            && plan_level(catalog.runs@, strategy, p.start as int, p.end as int, p.level),
        strategy matches CompactionStrategy::Leveled { level_size_multiplier, level0_sstables_trigger }
            ==> (leveled_plan(catalog.runs@, level_size_multiplier, level0_sstables_trigger) matches Some(w)
            ==> (r matches Some(p) && p.start == w.0 && p.end == w.1 && p.level == w.2)),
        strategy matches CompactionStrategy::Leveled { level_size_multiplier, level0_sstables_trigger }
            ==> (leveled_plan(catalog.runs@, level_size_multiplier, level0_sstables_trigger) is None ==> r is None),
        strategy matches CompactionStrategy::Tiered { max_tier_size, tier_size_multiplier }
            ==> (r is None <==> tiered_plan(catalog.runs@, max_tier_size, tier_size_multiplier, 0, max_tier_size) is None),
        strategy matches CompactionStrategy::Tiered { max_tier_size, tier_size_multiplier }
            ==> (r matches Some(p) ==> tiered_plan(catalog.runs@, max_tier_size, tier_size_multiplier, 0, max_tier_size)
            == Some((p.start as int, p.end as int))),
        strategy matches CompactionStrategy::SizeTiered { min_sstable_size, max_sstable_size, bucket_count }
            ==> (bucket_count > 0 && min_sstable_size < max_sstable_size ==> (r is None <==> forall|j: int|
            0 <= j < catalog.runs@.len() - 1 ==> size_bucket((#[trigger] catalog.runs@[j]).size, min_sstable_size,
            max_sstable_size, bucket_count) != size_bucket(catalog.runs@[j + 1].size, min_sstable_size,
            max_sstable_size, bucket_count))),
{
    match strategy {
        CompactionStrategy::Leveled { level_size_multiplier, level0_sstables_trigger } => {
            plan_leveled(&catalog.runs, level_size_multiplier, level0_sstables_trigger)
        },
        CompactionStrategy::Tiered { max_tier_size, tier_size_multiplier } => {
            plan_tiered(&catalog.runs, max_tier_size, tier_size_multiplier)
        },
        CompactionStrategy::SizeTiered { min_sstable_size, max_sstable_size, bucket_count } => {
            plan_size_tiered(&catalog.runs, min_sstable_size, max_sstable_size, bucket_count)
        },
    }
}

/// The range bucket of a size strictly between the bounds.
pub open spec fn bucket_spec(size: u64, min: u64, width: u64, count: u64) -> int {
    let b = (size - min) / (width as int);
    if b < count - 1 {
        b
    } else {
        count - 1
    }
}

/// The bucket of a run of `size` bytes: sizes up to `min` go to the first
/// bucket, sizes from `max` on to the last, the rest by equal ranges.
pub fn bucket_of(size: u64, min: u64, max: u64, width: u64, count: u64) -> (r: u64)
    requires
        width > 0,
        count > 0,
        min < max,
    ensures
        r < count,
        size <= min ==> r == 0,
        size >= max ==> r == count - 1,
        min < size < max ==> r as int == bucket_spec(size, min, width, count),
{
    if size <= min {
        0
    } else if size >= max {
        count - 1
    } else {
        let b = (size - min) / width;
        if b < count - 1 { b } else { count - 1 }
    }
}

/// Runs one compaction job at a time over an engine's catalog.
pub struct CompactionManager {
    pub config: CompactionConfig,
    pub is_compacting: bool,
}

impl CompactionManager {
    pub fn new(config: CompactionConfig) -> (r: Self)
        ensures
            r.config == config,
            !r.is_compacting,
    {
        CompactionManager { config, is_compacting: false }
    }

    /// Picks a job by the configured strategy and runs it: the chosen runs
    /// are merged and the output takes their place. Every read of the engine
    /// answers the same before and after. With no job to do nothing changes.
    pub fn trigger_compaction(&mut self, lsm: &mut LsmStorage) -> (r: Result<CompactionStats, DbError>)
        requires
            old(lsm).wf(),
        ensures
            final(lsm).wf(),
            forall|k: Seq<u8>| #[trigger] final(lsm).read(k) == old(lsm).read(k),
            final(lsm).memtable == old(lsm).memtable,
            old(self).is_compacting ==> (r matches Err(e) && e is Compaction) && *final(lsm) == *old(lsm),
            final(self).config == old(self).config,
            final(self).is_compacting == old(self).is_compacting,
            !old(self).is_compacting && strategy_plan(old(lsm).catalog.runs@, old(self).config.strategy) is None
                ==> (r matches Ok(s) && s.sstables_merged == 0) && *final(lsm) == *old(lsm),
            !old(self).is_compacting ==> (strategy_plan(old(lsm).catalog.runs@, old(self).config.strategy) matches Some(w)
                ==> {
                let rs = old(lsm).catalog.runs@;
                let out = final(lsm).catalog.runs@[w.0];
                &&& (r is Ok <==> old(lsm).last_run_ts < u64::MAX && sizes_from(rs.subrange(w.0, w.1), 0) <= u64::MAX)
                &&& (r matches Err(e) ==> e is Compaction && *final(lsm) == *old(lsm))
                &&& (r matches Ok(s) ==> {
                    &&& s.sstables_merged == w.1 - w.0
                    &&& final(lsm).catalog.runs@ == rs.subrange(0, w.0) + seq![out] + rs.subrange(w.1, rs.len() as int)
                    &&& out.wf()
                    &&& out.created_ts == final(lsm).last_run_ts
                    &&& final(lsm).last_run_ts > old(lsm).last_run_ts
                    &&& out@ == merged_view(rs, w.0, w.1, w.1 == rs.len())
                    &&& plan_level(rs, old(self).config.strategy, w.0, w.1, out.level)
                })
            }),
    {
        if self.is_compacting {
            return Err(DbError::Compaction("compaction already in progress".to_string()));
        }
        self.is_compacting = true;
        let started = VersionTimestamp::now().as_u64();
        let plan = plan_compaction(&lsm.catalog, self.config.strategy);
        let p = match plan {
            Some(p) => p,
            None => {
                self.is_compacting = false;
                return Ok(CompactionStats { sstables_merged: 0, space_reclaimed: 0, duration_ms: 0 });
            },
        };
        if lsm.last_run_ts == u64::MAX {
            self.is_compacting = false;
            return Err(DbError::Compaction("no fresh run timestamp left".to_string()));
        }
        let now = VersionTimestamp::now().as_u64();
        let ts = if now > lsm.last_run_ts { now } else { lsm.last_run_ts + 1 };
        let bottom = p.end == lsm.catalog.runs.len();
        let merged = merge_sstables(&lsm.catalog.runs, p.start, p.end, p.level, ts, bottom);
        let out = match merged {
            Ok(t) => t,
            Err(e) => {
                self.is_compacting = false;
                return Err(e);
            },
        };
        let before = window_size(&lsm.catalog.runs, p.start, p.end);
        let out_size = out.size;
        let ghost rs = lsm.catalog.runs@;
        let ghost top = lsm.memtable@;
        lsm.catalog.install_compaction(p.start, p.end, out);
        lsm.last_run_ts = ts;
        proof {
            assert forall|k: Seq<u8>| #[trigger] lsm.read(k) == old(lsm).read(k) by {
                lemma_install_preserves_reads(rs, p.start as int, p.end as int, out, top, k);
            }
        }
        let reclaimed = match before {
            Some(b) => if b > out_size { b - out_size } else { 0 },
            None => 0,
        };
        let finished = VersionTimestamp::now().as_u64();
        let duration_ms = if finished > started { (finished - started) / 1000 } else { 0 };
        self.is_compacting = false;
        Ok(CompactionStats { sstables_merged: p.end - p.start, space_reclaimed: reclaimed, duration_ms })
    }
}

} // verus!

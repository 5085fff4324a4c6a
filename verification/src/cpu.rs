//! Reading the CPU time report (`/proc/stat`) and keeping the counters of
//! the previous reading, so that each reading yields the time spent since the
//! one before, for all CPUs together and for each core.
use vstd::prelude::*;

use crate::text::{
    lines_from, strip_cr, chars_of, char_is_digit, has_prefix, is_digit, lines, parse_u64, parse_u64_spec,
    split_lines, split_words, starts_with, views, words,
};

verus! {

/// The largest number of cores whose times are followed.
pub const MAX_CORES: usize = 64;

/// Idle time and total time, in the kernel's clock ticks: either counters
/// as read, or the time spent between two readings.
#[derive(Clone, Copy, Debug, PartialEq, Eq)]
pub struct Ticks {
    pub idle: u64,
    pub total: u64,
}

/// What one reading yields: the time since the previous reading for all
/// CPUs together (where the report has such a line) and for each core, in
/// the order of the report.
pub struct CpuDeltas {
    pub aggregate: Option<Ticks>,
    pub cores: Vec<Ticks>,
}

/// The counters of the previous reading.
pub struct CpuCounters {
    prev: Ticks,
    prev_cores: Vec<Ticks>,
}

/// The state of a reading after some lines: the counters so far and the
/// times found so far.
pub struct CpuScan {
    pub prev: Ticks,
    pub prev_cores: Seq<Ticks>,
    pub aggregate: Option<Ticks>,
    pub cores: Seq<Ticks>,
}

/// The prefix of every CPU line.
pub open spec fn cpu_key() -> Seq<char> {
    "cpu"@
}

/// A line for all CPUs together: `"cpu"` followed by a space.
pub open spec fn is_aggregate_rest(rest: Seq<char>) -> bool {
    rest.len() > 0 && rest[0] == ' '
}

/// A line for one core: `"cpu"` followed by a digit.
pub open spec fn is_core_rest(rest: Seq<char>) -> bool {
    rest.len() > 0 && is_digit(rest[0])
}

/// The numbers of a CPU line, given what follows its `"cpu"`: the words
/// that read as unsigned numbers, in order, the others left out. For a core
/// line the first word is the core's own number.
pub open spec fn line_values(rest: Seq<char>) -> Seq<u64> {
    words(rest).filter_map(|w: Seq<char>| parse_u64_spec(w))
}

/// The sum of `vals` in order, wrapping around at `u64::MAX`.
pub open spec fn wrapping_sum(vals: Seq<u64>) -> u64
    decreases vals.len(),
{
    if vals.len() == 0 {
        0
    } else {
        wrapping_sum(vals.drop_last()).wrapping_add(vals.last())
    }
}

/// The counters of a line with at least four numbers: idle is the fourth
/// number plus the fifth (0 where there is no fifth), total is the sum of
/// all of them.
pub open spec fn ticks_of(vals: Seq<u64>) -> Ticks {
    Ticks {
        idle: vals[3].wrapping_add(
            if vals.len() > 4 {
                vals[4]
            } else {
                0
            },
        ),
        total: wrapping_sum(vals),
    }
}

/// The time between two readings of a counter, wrapping around as the
/// counters do.
pub open spec fn ticks_since(now: Ticks, before: Ticks) -> Ticks {
    Ticks { idle: now.idle.wrapping_sub(before.idle), total: now.total.wrapping_sub(before.total) }
}

/// What a line of the report says, where it counts: whether it is the line
/// for all CPUs together (`true`) or for one core (`false`), and its
/// counters. A line counts when it starts with `"cpu"` followed by a space
/// or a digit and has at least four numbers.
pub open spec fn line_reading(l: Seq<char>) -> Option<(bool, Ticks)> {
    if !has_prefix(l, cpu_key()) {
        None
    } else {
        let rest = l.skip(cpu_key().len() as int);
        if !is_aggregate_rest(rest) && !is_core_rest(rest) {
            None
        } else {
            let vals = line_values(rest);
            if vals.len() < 4 {
                None
            } else {
                Some((is_aggregate_rest(rest), ticks_of(vals)))
            }
        }
    }
}

/// The counters of a core seen for the first time.
pub open spec fn zero_ticks() -> Ticks {
    Ticks { idle: 0, total: 0 }
}

/// How one line of the report changes a reading.
pub open spec fn cpu_step(m: CpuScan, l: Seq<char>) -> CpuScan {
    match line_reading(l) {
        None => m,
        Some((aggregate, t)) => {
            if aggregate {
                CpuScan {
                    prev: t,
                    prev_cores: m.prev_cores,
                    aggregate: Some(ticks_since(t, m.prev)),
                    cores: m.cores,
                }
            } else {
                let i = m.cores.len();
                if i >= MAX_CORES {
                    m
                } else {
                    let pc = if i >= m.prev_cores.len() {
                        m.prev_cores.push(zero_ticks())
                    } else {
                        m.prev_cores
                    };
                    CpuScan {
                        prev: m.prev,
                        prev_cores: pc.update(i as int, t),
                        aggregate: m.aggregate,
                        cores: m.cores.push(ticks_since(t, pc[i as int])),
                    }
                }
            }
        },
    }
}

/// The result of reading the lines `ls` in order, starting from `m`.
pub open spec fn cpu_scan(m: CpuScan, ls: Seq<Seq<char>>) -> CpuScan
    decreases ls.len(),
{
    if ls.len() == 0 {
        m
    } else {
        cpu_step(cpu_scan(m, ls.drop_last()), ls.last())
    }
}

/// The state a reading starts from, given the previous counters.
pub open spec fn scan_start(prev: Ticks, prev_cores: Seq<Ticks>) -> CpuScan {
    CpuScan { prev, prev_cores, aggregate: None, cores: Seq::empty() }
}

/// What a reading of the text `content` yields from the previous counters.
pub open spec fn cpu_reading(prev: Ticks, prev_cores: Seq<Ticks>, content: Seq<char>) -> CpuScan {
    cpu_scan(scan_start(prev, prev_cores), lines(content))
}

/// The larger of two lengths.
pub open spec fn max_len(a: int, b: int) -> int {
    if a < b {
        b
    } else {
        a
    }
}

/// What every reading keeps: at most [`MAX_CORES`] core times, and the core
/// counters cover each of them.
proof fn lemma_scan_shape(m: CpuScan, ls: Seq<Seq<char>>)
    requires
        m.cores.len() == 0,
    ensures
        cpu_scan(m, ls).cores.len() <= MAX_CORES,
        cpu_scan(m, ls).prev_cores.len() == max_len(
            m.prev_cores.len() as int,
            cpu_scan(m, ls).cores.len() as int,
        ),
    decreases ls.len(),
{
    if ls.len() > 0 {
        lemma_scan_shape(m, ls.drop_last());
    }
}

/// The counters of the core lines among `ls` that count, in order, as far
/// as the first [`MAX_CORES`] of them.
pub open spec fn core_values(ls: Seq<Seq<char>>) -> Seq<Ticks>
    decreases ls.len(),
{
    if ls.len() == 0 {
        Seq::empty()
    } else {
        let v = core_values(ls.drop_last());
        match line_reading(ls.last()) {
            Some((false, t)) => if v.len() < MAX_CORES {
                v.push(t)
            } else {
                v
            },
            _ => v,
        }
    }
}

/// The counters of the lines for all CPUs together among `ls` that count,
/// in order.
pub open spec fn aggregate_values(ls: Seq<Seq<char>>) -> Seq<Ticks>
    decreases ls.len(),
{
    if ls.len() == 0 {
        Seq::empty()
    } else {
        let v = aggregate_values(ls.drop_last());
        match line_reading(ls.last()) {
            Some((true, t)) => v.push(t),
            _ => v,
        }
    }
}

/// The counters kept for core `k`: zero for a core not seen before.
pub open spec fn counters_at(pc: Seq<Ticks>, k: int) -> Ticks {
    if 0 <= k < pc.len() {
        pc[k]
    } else {
        zero_ticks()
    }
}

/// A reading in terms of the counted lines alone: the n-th core's counters
/// become those of the n-th counted core line, and its time is measured
/// from the counters kept before; the counters of cores not in the report
/// stay as they were; the counters for all CPUs together become those of
/// the last such line, whose time is measured from the line before it, or
/// from the counters kept before.
pub proof fn law_reading_by_counted_lines(m: CpuScan, ls: Seq<Seq<char>>)
    requires
        m.cores.len() == 0,
        m.aggregate is None,
    ensures
        ({
            let s = cpu_scan(m, ls);
            let cv = core_values(ls);
            let av = aggregate_values(ls);
            &&& s.cores.len() == cv.len()
            &&& s.prev_cores.len() == max_len(m.prev_cores.len() as int, cv.len() as int)
            &&& forall|k: int| 0 <= k < cv.len() ==> #[trigger] s.prev_cores[k] == cv[k]
            &&& forall|k: int|
                0 <= k < cv.len() ==> #[trigger] s.cores[k] == ticks_since(
                    cv[k],
                    counters_at(m.prev_cores, k),
                )
            &&& forall|k: int|
                cv.len() <= k < s.prev_cores.len() ==> #[trigger] s.prev_cores[k]
                    == m.prev_cores[k]
            &&& s.prev == (if av.len() == 0 {
                m.prev
            } else {
                av.last()
            })
            &&& s.aggregate == (if av.len() == 0 {
                None
            } else {
                Some(
                    ticks_since(
                        av.last(),
                        if av.len() > 1 {
                            av[av.len() - 2]
                        } else {
                            m.prev
                        },
                    ),
                )
            })
        }),
    decreases ls.len(),
{
    if ls.len() > 0 {
        let init = ls.drop_last();
        law_reading_by_counted_lines(m, init);
        let p = cpu_scan(m, init);
        let cv0 = core_values(init);
        let av0 = aggregate_values(init);
        let s = cpu_scan(m, ls);
        let cv = core_values(ls);
        let av = aggregate_values(ls);
        assert(s == cpu_step(p, ls.last()));
        match line_reading(ls.last()) {
            None => {},
            Some((aggregate, t)) => {
                if aggregate {
                    assert(av =~= av0.push(t));
                } else {
                    let i = p.cores.len();
                    if i < MAX_CORES {
                        assert(cv =~= cv0.push(t));
                        let pc = if i >= p.prev_cores.len() {
                            p.prev_cores.push(zero_ticks())
                        } else {
                            p.prev_cores
                        };
                        assert(pc[i as int] == counters_at(m.prev_cores, i as int));
                        assert forall|k: int| 0 <= k < cv.len() implies #[trigger] s.cores[k]
                            == ticks_since(cv[k], counters_at(m.prev_cores, k)) by {
                            if k < i {
                                assert(s.cores[k] == p.cores[k]);
                            }
                        }
                        assert forall|k: int| 0 <= k < cv.len() implies #[trigger] s.prev_cores[k]
                            == cv[k] by {
                            if k < i {
                                assert(s.prev_cores[k] == p.prev_cores[k]);
                                assert(cv[k] == cv0[k]);
                            }
                        }
                        assert forall|k: int| cv.len() <= k < s.prev_cores.len() implies #[trigger] s.prev_cores[k]
                            == m.prev_cores[k] by {
                            assert(s.prev_cores[k] == pc[k]);
                        }
                    }
                }
            },
        }
    }
}

/// Reading the same report twice in a row: the second reading finds that no
/// time passed for any core, nor for all CPUs together where the report has
/// at most one line for them that counts.
pub proof fn law_same_report_twice(prev: Ticks, prev_cores: Seq<Ticks>, content: Seq<char>)
    ensures
        ({
            let s1 = cpu_reading(prev, prev_cores, content);
            let s2 = cpu_reading(s1.prev, s1.prev_cores, content);
            &&& s2.cores.len() == s1.cores.len()
            &&& forall|k: int| 0 <= k < s2.cores.len() ==> #[trigger] s2.cores[k] == zero_ticks()
            &&& aggregate_values(lines(content)).len() <= 1 ==> (s2.aggregate is None
                || s2.aggregate == Some(zero_ticks()))
            &&& s2.prev == s1.prev
            &&& s2.prev_cores == s1.prev_cores
        }),
{
    let ls = lines(content);
    let m1 = scan_start(prev, prev_cores);
    let s1 = cpu_scan(m1, ls);
    let m2 = scan_start(s1.prev, s1.prev_cores);
    let s2 = cpu_scan(m2, ls);
    law_reading_by_counted_lines(m1, ls);
    law_reading_by_counted_lines(m2, ls);
    let cv = core_values(ls);
    assert forall|k: int| 0 <= k < s2.cores.len() implies #[trigger] s2.cores[k] == zero_ticks() by {
        assert(s1.prev_cores[k] == cv[k]);
        assert(counters_at(s1.prev_cores, k) == cv[k]);
    }
    assert forall|k: int| 0 <= k < s2.prev_cores.len() implies #[trigger] s2.prev_cores[k]
        == s1.prev_cores[k] by {
        if k < cv.len() {
            assert(s2.prev_cores[k] == cv[k]);
            assert(s1.prev_cores[k] == cv[k]);
        } else {
            assert(s2.prev_cores[k] == m2.prev_cores[k]);
        }
    }
    assert(s2.prev_cores =~= s1.prev_cores);
}

/// A line of the report counts: it is a CPU line with at least four numbers.
pub open spec fn counts(l: Seq<char>) -> bool {
    line_reading(l) is Some
}

/// Lines that do not count, put anywhere among the lines of a report, change
/// neither what a reading yields nor the counters it leaves.
pub proof fn law_uncounted_lines_change_nothing(
    m: CpuScan,
    before: Seq<Seq<char>>,
    extra: Seq<Seq<char>>,
    after: Seq<Seq<char>>,
)
    requires
        forall|i: int| 0 <= i < extra.len() ==> !counts(#[trigger] extra[i]),
    ensures
        cpu_scan(m, before + extra + after) == cpu_scan(m, before + after),
    decreases after.len(), extra.len(),
{
    if after.len() > 0 {
        law_uncounted_lines_change_nothing(m, before, extra, after.drop_last());
        assert((before + extra + after).drop_last() =~= before + extra + after.drop_last());
        assert((before + after).drop_last() =~= before + after.drop_last());
        assert((before + extra + after).last() == after.last());
        assert((before + after).last() == after.last());
    } else if extra.len() > 0 {
        law_uncounted_lines_change_nothing(m, before, extra.drop_last(), after);
        assert((before + extra + after).drop_last() =~= before + extra.drop_last() + after);
        assert((before + extra + after).last() == extra[extra.len() - 1]);
        assert(!counts(extra[extra.len() - 1]));
    } else {
        assert(before + extra + after =~= before + after);
    }
}

/// Text that ends with a line break, read after text that is empty or ends
/// with a line break, adds its own lines after those of the text before it.
proof fn lemma_lines_concat(a: Seq<char>, b: Seq<char>)
    requires
        a.len() == 0 || a.last() == '\n',
    ensures
        lines(a + b) == lines(a) + lines(b),
{
    if a.len() == 0 {
        assert(a + b =~= b);
        assert(lines(a) =~= Seq::<Seq<char>>::empty());
        assert(lines(a) + lines(b) =~= lines(b));
    } else {
        lemma_lines_from_concat(Seq::empty(), a, b);
    }
}

proof fn lemma_lines_from_concat(cur: Seq<char>, a: Seq<char>, b: Seq<char>)
    requires
        a.len() > 0,
        a.last() == '\n',
    ensures
        lines_from(cur, a + b) == lines_from(cur, a) + lines(b),
    decreases a.len(),
{
    assert((a + b)[0] == a[0]);
    assert((a + b).drop_first() =~= a.drop_first() + b);
    if a.len() == 1 {
        assert(a.drop_first() =~= Seq::<char>::empty());
        assert(a.drop_first() + b =~= b);
        assert(lines_from(Seq::empty(), a.drop_first()) =~= Seq::<Seq<char>>::empty());
    } else {
        assert(a.drop_first().last() == '\n');
        if a[0] == '\n' {
            lemma_lines_from_concat(Seq::empty(), a.drop_first(), b);
            assert(seq![strip_cr(cur)] + (lines_from(Seq::empty(), a.drop_first()) + lines(b))
                =~= (seq![strip_cr(cur)] + lines_from(Seq::empty(), a.drop_first())) + lines(b));
        } else {
            lemma_lines_from_concat(cur.push(a[0]), a.drop_first(), b);
        }
    }
}

/// Text whose lines do not count, put into a report after a line break (or
/// at its start) and ending with a line break, changes neither what a
/// reading yields nor the counters it leaves.
pub proof fn law_inserted_text_changes_nothing(
    prev: Ticks,
    prev_cores: Seq<Ticks>,
    a: Seq<char>,
    x: Seq<char>,
    b: Seq<char>,
)
    requires
        a.len() == 0 || a.last() == '\n',
        x.len() > 0,
        x.last() == '\n',
        forall|i: int| 0 <= i < lines(x).len() ==> !counts(#[trigger] lines(x)[i]),
    ensures
        cpu_reading(prev, prev_cores, a + x + b) == cpu_reading(prev, prev_cores, a + b),
{
    lemma_lines_concat(a, x + b);
    lemma_lines_concat(x, b);
    lemma_lines_concat(a, b);
    assert(a + x + b =~= a + (x + b));
    assert(lines(a + x + b) =~= lines(a) + lines(x) + lines(b));
    law_uncounted_lines_change_nothing(scan_start(prev, prev_cores), lines(a), lines(x), lines(b));
}

/// The time since the previous reading, added to the previous counters,
/// gives the new counters, also where a counter wrapped around.
pub proof fn law_since_restores(now: Ticks, before: Ticks)
    ensures
        before.idle.wrapping_add(ticks_since(now, before).idle) == now.idle,
        before.total.wrapping_add(ticks_since(now, before).total) == now.total,
{
}

/// The numbers of the words `ws[..k]` that read as unsigned numbers.
proof fn lemma_filter_map_step(ws: Seq<Seq<char>>, k: int)
    requires
        0 <= k < ws.len(),
    ensures
        ws.take(k + 1).filter_map(|w: Seq<char>| parse_u64_spec(w)) == ws.take(k).filter_map(
            |w: Seq<char>| parse_u64_spec(w),
        ) + match parse_u64_spec(ws[k]) {
            Some(v) => seq![v],
            None => Seq::<u64>::empty(),
        },
{
    let f = |w: Seq<char>| parse_u64_spec(w);
    assert(ws.take(k + 1).drop_last() =~= ws.take(k));
    assert(ws.take(k + 1).last() == ws[k]);
    match parse_u64_spec(ws[k]) {
        Some(v) => {},
        None => {
            assert(ws.take(k).filter_map(f) + Seq::<u64>::empty() =~= ws.take(k).filter_map(f));
        },
    }
}

/// The numbers of a CPU line (the characters of `line` from `from` on) and
/// their counters, or `None` where the line has fewer than four numbers.
fn line_ticks(line: &Vec<char>, from: usize) -> (r: Option<Ticks>)
    requires
        from <= line.len(),
    ensures
        r == (if line_values(line@.skip(from as int)).len() < 4 {
            None
        } else {
            Some(ticks_of(line_values(line@.skip(from as int))))
        }),
{
    let ws = split_words(line, from);
    let ghost wv = views(ws@);
    let ghost f = |w: Seq<char>| parse_u64_spec(w);
    let mut vals: Vec<u64> = Vec::new();
    let mut k: usize = 0;
    proof {
        assert(wv.take(0) =~= Seq::<Seq<char>>::empty());
    }
    while k < ws.len()
        invariant
            k <= ws.len(),
            wv == views(ws@),
            wv == words(line@.skip(from as int)),
            vals@ == wv.take(k as int).filter_map(|w: Seq<char>| parse_u64_spec(w)),
        decreases ws.len() - k,
    {
        proof {
            lemma_filter_map_step(wv, k as int);
            assert(wv[k as int] == ws@[k as int]@);
        }
        match parse_u64(&ws[k]) {
            Some(v) => {
                vals.push(v);
            },
            None => {},
        }
        proof {
            assert(vals@ =~= wv.take(k + 1).filter_map(|w: Seq<char>| parse_u64_spec(w)));
        }
        k = k + 1;
    }
    proof {
        assert(wv.take(ws.len() as int) =~= wv);
    }
    if vals.len() < 4 {
        return None;
    }
    let mut total: u64 = 0;
    let mut j: usize = 0;
    proof {
        assert(vals@.take(0) =~= Seq::<u64>::empty());
    }
    while j < vals.len()
        invariant
            j <= vals.len(),
            total == wrapping_sum(vals@.take(j as int)),
        decreases vals.len() - j,
    {
        proof {
            assert(vals@.take(j + 1).drop_last() =~= vals@.take(j as int));
        }
        total = total.wrapping_add(vals[j]);
        j = j + 1;
    }
    proof {
        assert(vals@.take(vals.len() as int) =~= vals@);
    }
    let extra: u64 = if vals.len() > 4 {
        vals[4]
    } else {
        0
    };
    Some(Ticks { idle: vals[3].wrapping_add(extra), total })
}

impl CpuCounters {
    /// Counters before any reading: all zero, no core known yet.
    pub fn new() -> (r: Self)
        ensures
            r.prev_ticks() == (Ticks { idle: 0, total: 0 }),
            r.core_ticks() == Seq::<Ticks>::empty(),
    {
        CpuCounters { prev: Ticks { idle: 0, total: 0 }, prev_cores: Vec::new() }
    }

    /// The counters of the last line for all CPUs together.
    pub closed spec fn prev_ticks(&self) -> Ticks {
        self.prev
    }

    /// The counters of the last line for each core, by core position.
    pub closed spec fn core_ticks(&self) -> Seq<Ticks> {
        self.prev_cores@
    }

    /// The counters of the last line for all CPUs together.
    pub fn aggregate_counters(&self) -> (r: Ticks)
        ensures
            r == self.prev_ticks(),
    {
        self.prev
    }

    /// The counters of the last line for each core, by core position.
    pub fn core_counters(&self) -> (r: Vec<Ticks>)
        ensures
            r@ == self.core_ticks(),
    {
        let mut r: Vec<Ticks> = Vec::new();
        let mut i: usize = 0;
        while i < self.prev_cores.len()
            invariant
                i <= self.prev_cores.len(),
                r@ == self.prev_cores@.take(i as int),
            decreases self.prev_cores.len() - i,
        {
            r.push(self.prev_cores[i]);
            proof {
                assert(r@ =~= self.prev_cores@.take(i + 1));
            }
            i = i + 1;
        }
        proof {
            assert(r@ =~= self.prev_cores@);
        }
        r
    }

    /// Reads the text of a CPU time report, line by line as `str::lines`
    /// splits it. A line counts when it starts with `"cpu"` followed by a
    /// space (all CPUs together) or by a digit (one core) and at least four
    /// of the words after `"cpu"` read as unsigned numbers; for a core line
    /// the first of them is the core's own number. For such a line, idle time
    /// is its fourth number plus its fifth and total time the sum of its
    /// numbers (both wrapping at `u64::MAX`). The n-th counted core line is
    /// core n, up to [`MAX_CORES`] cores; later core lines are left out. Each
    /// counted line yields the time since the counters it replaces, which it
    /// then replaces; a core seen for the first time starts from zero. The
    /// result holds the time of the last line for all CPUs together, if any,
    /// and the time of each core.
    pub fn update(&mut self, content: &str) -> (r: CpuDeltas)
        ensures
            ({
                let s = cpu_reading(old(self).prev_ticks(), old(self).core_ticks(), content@);
                &&& final(self).prev_ticks() == s.prev
                &&& final(self).core_ticks() == s.prev_cores
                &&& r.aggregate == s.aggregate
                &&& r.cores@ == s.cores
            }),
            ({
                let ls = lines(content@);
                let cv = core_values(ls);
                let av = aggregate_values(ls);
                &&& r.cores@.len() == cv.len()
                &&& forall|k: int|
                    0 <= k < cv.len() ==> #[trigger] r.cores@[k] == ticks_since(
                        cv[k],
                        counters_at(old(self).core_ticks(), k),
                    )
                &&& forall|k: int|
                    0 <= k < cv.len() ==> #[trigger] final(self).core_ticks()[k] == cv[k]
                &&& forall|k: int|
                    cv.len() <= k < final(self).core_ticks().len() ==> #[trigger] final(self).core_ticks()[k]
                        == old(self).core_ticks()[k]
                &&& final(self).prev_ticks() == (if av.len() == 0 {
                    old(self).prev_ticks()
                } else {
                    av.last()
                })
                &&& r.aggregate == (if av.len() == 0 {
                    None
                } else {
                    Some(
                        ticks_since(
                            av.last(),
                            if av.len() > 1 {
                                av[av.len() - 2]
                            } else {
                                old(self).prev_ticks()
                            },
                        ),
                    )
                })
            }),
            r.cores@.len() <= MAX_CORES,
            final(self).core_ticks().len() == max_len(
                old(self).core_ticks().len() as int,
                r.cores@.len() as int,
            ),
    {
        let cs = chars_of(content);
        let ls = split_lines(&cs);
        let key = chars_of("cpu");
        let ghost all = views(ls@);
        let ghost start = scan_start(self.prev, self.prev_cores@);
        let mut aggregate: Option<Ticks> = None;
        let mut cores: Vec<Ticks> = Vec::new();
        let mut i: usize = 0;
        proof {
            assert(all.take(0) =~= Seq::<Seq<char>>::empty());
            lemma_scan_shape(start, all.take(0));
        }
        while i < ls.len()
            invariant
                i <= ls.len(),
                all == views(ls@),
                all == lines(content@),
                key@ == cpu_key(),
                start == scan_start(old(self).prev, old(self).prev_cores@),
                start.cores.len() == 0,
                ({
                    let s = cpu_scan(start, all.take(i as int));
                    &&& self.prev == s.prev
                    &&& self.prev_cores@ == s.prev_cores
                    &&& aggregate == s.aggregate
                    &&& cores@ == s.cores
                }),
                cores@.len() <= MAX_CORES,
                self.prev_cores@.len() == max_len(
                    old(self).prev_cores@.len() as int,
                    cores@.len() as int,
                ),
            decreases ls.len() - i,
        {
            let line = &ls[i];
            proof {
                assert(all.take(i + 1).drop_last() =~= all.take(i as int));
                assert(all.take(i + 1).last() == line@);
                lemma_scan_shape(start, all.take(i + 1));
            }
            if starts_with(line, &key) {
                let p: usize = key.len();
                let ghost rest = line@.skip(p as int);
                let is_aggregate: bool = line.len() > p && line[p] == ' ';
                let is_core: bool = line.len() > p && char_is_digit(line[p]);
                proof {
                    if line.len() > p {
                        assert(rest[0] == line@[p as int]);
                    }
                }
                if is_aggregate || is_core {
                    match line_ticks(line, p) {
                        None => {},
                        Some(t) => {
                            if is_aggregate {
                                let since = Ticks {
                                    idle: t.idle.wrapping_sub(self.prev.idle),
                                    total: t.total.wrapping_sub(self.prev.total),
                                };
                                self.prev = t;
                                aggregate = Some(since);
                            } else {
                                let n: usize = cores.len();
                                if n < MAX_CORES {
                                    if n >= self.prev_cores.len() {
                                        self.prev_cores.push(Ticks { idle: 0, total: 0 });
                                    }
                                    let before = self.prev_cores[n];
                                    let since = Ticks {
                                        idle: t.idle.wrapping_sub(before.idle),
                                        total: t.total.wrapping_sub(before.total),
                                    };
                                    self.prev_cores.set(n, t);
                                    cores.push(since);
                                }
                            }
                        },
                    }
                }
            }
            i = i + 1;
        }
        proof {
            assert(all.take(ls.len() as int) =~= all);
            law_reading_by_counted_lines(start, all);
        }
        CpuDeltas { aggregate, cores }
    }
}

} // verus!

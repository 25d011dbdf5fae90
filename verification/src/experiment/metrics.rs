//! Process samples of the stack and memory experiment: the fields read from
//! `/proc/self/status`, the per-thread state tally, and the peaks and byte
//! estimates that a run's record is built from.

use vstd::prelude::*;
use crate::crawl::page::words;
use crate::crawl::schools::split_all;
use crate::fields::{field_after, field_bounds, piece_ranges, pieces_of};
use crate::text::{chars_of, parse_bounded, parse_unsigned};

verus! {

/// One `/proc/self/status` sample; a field is `None` when it was not read.
#[derive(Debug, Clone)]
pub struct ProcSample {
    pub elapsed_ms: u64,
    pub vm_rss_bytes: Option<u64>,
    pub vm_size_bytes: Option<u64>,
    pub vm_stack_bytes: Option<u64>,
    pub kernel_stack_bytes: Option<u64>,
    pub kernel_threads: Option<usize>,
    pub running_kernel_threads: Option<usize>,
    pub sleeping_kernel_threads: Option<usize>,
    pub uninterruptible_kernel_threads: Option<usize>,
    pub stopped_kernel_threads: Option<usize>,
    pub zombie_kernel_threads: Option<usize>,
    pub idle_kernel_threads: Option<usize>,
    pub top_wait_channel: Option<String>,
    pub top_wait_channel_count: Option<usize>,
}

/// The sample in which nothing has been read.
pub open spec fn empty_sample() -> ProcSample {
    ProcSample {
        elapsed_ms: 0,
        vm_rss_bytes: None,
        vm_size_bytes: None,
        vm_stack_bytes: None,
        kernel_stack_bytes: None,
        kernel_threads: None,
        running_kernel_threads: None,
        sleeping_kernel_threads: None,
        uninterruptible_kernel_threads: None,
        stopped_kernel_threads: None,
        zombie_kernel_threads: None,
        idle_kernel_threads: None,
        top_wait_channel: None,
        top_wait_channel_count: None,
    }
}

impl Default for ProcSample {
    fn default() -> (s: Self)
        ensures
            s == empty_sample(),
    {
        ProcSample {
            elapsed_ms: 0,
            vm_rss_bytes: None,
            vm_size_bytes: None,
            vm_stack_bytes: None,
            kernel_stack_bytes: None,
            kernel_threads: None,
            running_kernel_threads: None,
            sleeping_kernel_threads: None,
            uninterruptible_kernel_threads: None,
            stopped_kernel_threads: None,
            zombie_kernel_threads: None,
            idle_kernel_threads: None,
            top_wait_channel: None,
            top_wait_channel_count: None,
        }
    }
}

/// The largest of the present values, or 0 when none is present.
pub open spec fn peak_of_u64(vals: Seq<Option<u64>>) -> u64
    decreases vals.len(),
{
    if vals.len() == 0 {
        0
    } else {
        let p = peak_of_u64(vals.drop_last());
        match vals.last() {
            Some(v) => if v > p {
                v
            } else {
                p
            },
            None => p,
        }
    }
}

/// The largest of the present values, or 0 when none is present.
pub open spec fn peak_of_usize(vals: Seq<Option<usize>>) -> usize
    decreases vals.len(),
{
    if vals.len() == 0 {
        0
    } else {
        let p = peak_of_usize(vals.drop_last());
        match vals.last() {
            Some(v) => if v > p {
                v
            } else {
                p
            },
            None => p,
        }
    }
}

/// `vals` are values that `f` may return on the samples, one per sample.
pub open spec fn reads_u64<F: Fn(&ProcSample) -> Option<u64>>(f: F, samples: Seq<ProcSample>, vals: Seq<Option<u64>>) -> bool {
    &&& vals.len() == samples.len()
    &&& forall|i: int| 0 <= i < samples.len() ==> call_ensures(f, (&samples[i],), #[trigger] vals[i])
}

/// `vals` are values that `f` may return on the samples, one per sample.
pub open spec fn reads_usize<F: Fn(&ProcSample) -> Option<usize>>(f: F, samples: Seq<ProcSample>, vals: Seq<Option<usize>>) -> bool {
    &&& vals.len() == samples.len()
    &&& forall|i: int| 0 <= i < samples.len() ==> call_ensures(f, (&samples[i],), #[trigger] vals[i])
}

/// The largest value that `f` reads from the samples, or 0 when it reads
/// none.
pub fn peak_u64(samples: &[ProcSample], f: impl Fn(&ProcSample) -> Option<u64>) -> (r: u64)
    requires
        forall|i: int| 0 <= i < samples@.len() ==> call_requires(f, (&samples@[i],)),
    ensures
        exists|vals: Seq<Option<u64>>| reads_u64(f, samples@, vals) && r == peak_of_u64(vals),
{
    let mut best: u64 = 0;
    let ghost mut vals: Seq<Option<u64>> = Seq::empty();
    let mut i: usize = 0;
    while i < samples.len()
        invariant
            i <= samples@.len(),
            forall|k: int| 0 <= k < samples@.len() ==> call_requires(f, (&samples@[k],)),
            vals.len() == i,
            forall|k: int| 0 <= k < i ==> call_ensures(f, (&samples@[k],), #[trigger] vals[k]),
            best == peak_of_u64(vals),
        decreases samples@.len() - i,
    {
        let v = f(&samples[i]);
        proof {
            assert(vals.push(v).drop_last() =~= vals);
            vals = vals.push(v);
        }
        match v {
            Some(x) => {
                if x > best {
                    best = x;
                }
            },
            None => {},
        }
        i = i + 1;
    }
    best
}

/// The largest value that `f` reads from the samples, or 0 when it reads
/// none.
pub fn peak_usize(samples: &[ProcSample], f: impl Fn(&ProcSample) -> Option<usize>) -> (r: usize)
    requires
        forall|i: int| 0 <= i < samples@.len() ==> call_requires(f, (&samples@[i],)),
    ensures
        exists|vals: Seq<Option<usize>>| reads_usize(f, samples@, vals) && r == peak_of_usize(vals),
{
    let mut best: usize = 0;
    let ghost mut vals: Seq<Option<usize>> = Seq::empty();
    let mut i: usize = 0;
    while i < samples.len()
        invariant
            i <= samples@.len(),
            forall|k: int| 0 <= k < samples@.len() ==> call_requires(f, (&samples@[k],)),
            vals.len() == i,
            forall|k: int| 0 <= k < i ==> call_ensures(f, (&samples@[k],), #[trigger] vals[k]),
            best == peak_of_usize(vals),
        decreases samples@.len() - i,
    {
        let v = f(&samples[i]);
        proof {
            assert(vals.push(v).drop_last() =~= vals);
            vals = vals.push(v);
        }
        match v {
            Some(x) => {
                if x > best {
                    best = x;
                }
            },
            None => {},
        }
        i = i + 1;
    }
    best
}

/// The wait channel that a sample names, with its thread count, when both
/// were read, the name is not empty and the count is not 0.
pub open spec fn wait_candidate(s: ProcSample) -> Option<(Seq<char>, usize)> {
    match (s.top_wait_channel, s.top_wait_channel_count) {
        (Some(c), Some(n)) => if c@.len() == 0 || n == 0 {
            None
        } else {
            Some((c@, n))
        },
        _ => None,
    }
}

/// Of the samples' wait channels, the one with the largest count, the last
/// such one on a tie; an empty name with count 0 when no sample names one.
pub open spec fn dominant_of(samples: Seq<ProcSample>) -> (Seq<char>, usize)
    decreases samples.len(),
{
    if samples.len() == 0 {
        (Seq::empty(), 0)
    } else {
        let best = dominant_of(samples.drop_last());
        match wait_candidate(samples.last()) {
            Some((c, n)) => if n >= best.1 {
                (c, n)
            } else {
                best
            },
            None => best,
        }
    }
}

/// The most crowded wait channel over all samples, with its count.
pub fn dominant_wait_channel(samples: &[ProcSample]) -> (r: (String, usize))
    ensures
        (r.0@, r.1) == dominant_of(samples@),
{
    let mut best_name = String::new();
    let mut best_count: usize = 0;
    let mut i: usize = 0;
    while i < samples.len()
        invariant
            i <= samples@.len(),
            (best_name@, best_count) == dominant_of(samples@.take(i as int)),
        decreases samples@.len() - i,
    {
        proof {
            assert(samples@.take(i + 1).drop_last() =~= samples@.take(i as int));
            assert(samples@.take(i + 1).last() == samples@[i as int]);
        }
        match &samples[i].top_wait_channel {
            Some(c) => match samples[i].top_wait_channel_count {
                Some(n) => {
                    if !c.as_str().is_empty() && n != 0 {
                        if n >= best_count {
                            best_name = c.clone();
                            best_count = n;
                        }
                    }
                },
                None => {},
            },
            None => {},
        }
        i = i + 1;
    }
    proof {
        assert(samples@.take(i as int) =~= samples@);
    }
    (best_name, best_count)
}

/// `count * bytes`, or `u64::MAX` when the product does not fit.
pub open spec fn saturated_product(count: nat, bytes: nat) -> u64 {
    if count * bytes > u64::MAX {
        u64::MAX
    } else {
        (count * bytes) as u64
    }
}

/// Bytes taken by `count` items of `bytes` bytes each, saturated at
/// `u64::MAX`.
pub fn bytes_mul(count: usize, bytes: usize) -> (r: u64)
    ensures
        r == saturated_product(count as nat, bytes as nat),
{
    let value: u128 = match (count as u128).checked_mul(bytes as u128) {
        Some(v) => v,
        None => u128::MAX,
    };
    if value > u64::MAX as u128 {
        u64::MAX
    } else {
        value as u64
    }
}

/// The value after `key` at the start of a status line, in bytes: the first
/// word after the key read as KiB and multiplied by 1024, saturated at
/// `u64::MAX`.
pub open spec fn kib_field(line: Seq<char>, key: Seq<char>) -> Option<u64> {
    match field_after(line, key) {
        None => None,
        Some(w) => match parse_unsigned(w, u64::MAX as nat) {
            Some(k) => Some(saturated_product(k, 1024)),
            None => None,
        },
    }
}

/// The value after `key` at the start of a status line, as a count.
pub open spec fn count_field(line: Seq<char>, key: Seq<char>) -> Option<usize> {
    match field_after(line, key) {
        None => None,
        Some(w) => match parse_unsigned(w, usize::MAX as nat) {
            Some(k) => Some(k as usize),
            None => None,
        },
    }
}

fn kib_field_of(v: &Vec<char>, lo: usize, hi: usize, key: &Vec<char>) -> (r: Option<u64>)
    requires
        lo <= hi <= v@.len(),
    ensures
        r == kib_field(v@.subrange(lo as int, hi as int), key@),
{
    match field_bounds(v, lo, hi, key) {
        None => None,
        Some((a, b)) => match parse_bounded(v, a, b, u64::MAX as u128) {
            Some(k) => {
                let bytes: u128 = k * 1024;
                if bytes > u64::MAX as u128 {
                    Some(u64::MAX)
                } else {
                    Some(bytes as u64)
                }
            },
            None => None,
        },
    }
}

fn count_field_of(v: &Vec<char>, lo: usize, hi: usize, key: &Vec<char>) -> (r: Option<usize>)
    requires
        lo <= hi <= v@.len(),
    ensures
        r == count_field(v@.subrange(lo as int, hi as int), key@),
{
    match field_bounds(v, lo, hi, key) {
        None => None,
        Some((a, b)) => match parse_bounded(v, a, b, usize::MAX as u128) {
            Some(k) => Some(k as usize),
            None => None,
        },
    }
}

/// The byte size in a status line `key: N kB`.
pub fn parse_kib_field(line: &str, key: &str) -> (r: Option<u64>)
    ensures
        r == kib_field(line@, key@),
{
    let v = chars_of(line);
    let k = chars_of(key);
    proof {
        assert(v@.subrange(0, v@.len() as int) =~= v@);
    }
    kib_field_of(&v, 0, v.len(), &k)
}

/// The count in a status line `key: N`.
pub fn parse_usize_field(line: &str, key: &str) -> (r: Option<usize>)
    ensures
        r == count_field(line@, key@),
{
    let v = chars_of(line);
    let k = chars_of(key);
    proof {
        assert(v@.subrange(0, v@.len() as int) =~= v@);
    }
    count_field_of(&v, 0, v.len(), &k)
}

/// What one status line sets: the first of `VmRSS:`, `VmSize:`, `VmStk:`,
/// `KernelStack:` (sizes in KiB) and `Threads:` (a count) that it holds with
/// a readable value.
pub open spec fn status_line_update(s: ProcSample, line: Seq<char>) -> ProcSample {
    if kib_field(line, "VmRSS:"@) is Some {
        ProcSample { vm_rss_bytes: kib_field(line, "VmRSS:"@), ..s }
    } else if kib_field(line, "VmSize:"@) is Some {
        ProcSample { vm_size_bytes: kib_field(line, "VmSize:"@), ..s }
    } else if kib_field(line, "VmStk:"@) is Some {
        ProcSample { vm_stack_bytes: kib_field(line, "VmStk:"@), ..s }
    } else if kib_field(line, "KernelStack:"@) is Some {
        ProcSample { kernel_stack_bytes: kib_field(line, "KernelStack:"@), ..s }
    } else if count_field(line, "Threads:"@) is Some {
        ProcSample { kernel_threads: count_field(line, "Threads:"@), ..s }
    } else {
        s
    }
}

/// The sample that the lines `ls` give, read in order from an empty sample.
pub open spec fn status_sample_of(ls: Seq<Seq<char>>) -> ProcSample
    decreases ls.len(),
{
    if ls.len() == 0 {
        empty_sample()
    } else {
        status_line_update(status_sample_of(ls.drop_last()), ls.last())
    }
}

/// The sample that a `/proc/self/status` text gives.
pub open spec fn status_sample(status: Seq<char>) -> ProcSample {
    status_sample_of(split_all(status, '\n'))
}

/// Reads the sizes and the thread count of a `/proc/self/status` text.
pub fn proc_sample_from_status(status: &str) -> (r: ProcSample)
    ensures
        r == status_sample(status@),
{
    proof {
        reveal_strlit("VmRSS:");
        reveal_strlit("VmSize:");
        reveal_strlit("VmStk:");
        reveal_strlit("KernelStack:");
        reveal_strlit("Threads:");
    }
    let v = chars_of(status);
    let rss = chars_of("VmRSS:");
    let size = chars_of("VmSize:");
    let stk = chars_of("VmStk:");
    let kstack = chars_of("KernelStack:");
    let threads = chars_of("Threads:");
    let ranges = piece_ranges(&v, '\n');
    let ghost ls = split_all(v@, '\n');
    let mut sample = ProcSample::default();
    let mut i: usize = 0;
    while i < ranges.len()
        invariant
            i <= ranges@.len(),
            v@ == status@,
            rss@ == "VmRSS:"@,
            size@ == "VmSize:"@,
            stk@ == "VmStk:"@,
            kstack@ == "KernelStack:"@,
            threads@ == "Threads:"@,
            ls == split_all(v@, '\n'),
            pieces_of(v@, ranges@) == ls,
            forall|m: int| 0 <= m < ranges@.len() ==> (#[trigger] ranges@[m]).0 <= ranges@[m].1 <= v@.len(),
            sample == status_sample_of(ls.take(i as int)),
        decreases ranges@.len() - i,
    {
        let (lo, hi) = ranges[i];
        let ghost line = v@.subrange(lo as int, hi as int);
        proof {
            assert(ls[i as int] == line);
            assert(ls.take(i + 1).drop_last() =~= ls.take(i as int));
            assert(ls.take(i + 1).last() == line);
        }
        let a = kib_field_of(&v, lo, hi, &rss);
        if a.is_some() {
            sample.vm_rss_bytes = a;
        } else {
            let b = kib_field_of(&v, lo, hi, &size);
            if b.is_some() {
                sample.vm_size_bytes = b;
            } else {
                let c = kib_field_of(&v, lo, hi, &stk);
                if c.is_some() {
                    sample.vm_stack_bytes = c;
                } else {
                    let d = kib_field_of(&v, lo, hi, &kstack);
                    if d.is_some() {
                        sample.kernel_stack_bytes = d;
                    } else {
                        let e = count_field_of(&v, lo, hi, &threads);
                        if e.is_some() {
                            sample.kernel_threads = e;
                        }
                    }
                }
            }
        }
        i = i + 1;
    }
    proof {
        assert(ls.take(i as int) =~= ls);
    }
    sample
}

/// Index of the last `c` in `s`.
pub open spec fn last_index_of(s: Seq<char>, c: char) -> Option<int>
    decreases s.len(),
{
    if s.len() == 0 {
        None
    } else if s.last() == c {
        Some(s.len() - 1)
    } else {
        last_index_of(s.drop_last(), c)
    }
}

/// The state letter of a `/proc/*/task/*/stat` line: the first character of
/// the first word after the last `)`, which closes the command name.
pub open spec fn task_state_spec(stat: Seq<char>) -> Option<char> {
    match last_index_of(stat, ')') {
        None => None,
        Some(i) => {
            let w = words(stat.skip(i + 1));
            if w.len() > 0 {
                Some(w[0][0])
            } else {
                None
            }
        },
    }
}

proof fn lemma_last_index_of(s: Seq<char>, c: char, j: int)
    requires
        0 <= j <= s.len(),
        forall|k: int| j <= k < s.len() ==> s[k] != c,
    ensures
        j > 0 && s[j - 1] == c ==> last_index_of(s, c) == Some(j - 1),
        j == 0 ==> last_index_of(s, c) is None,
    decreases s.len() - j,
{
    if j < s.len() {
        assert(s.drop_last().len() == s.len() - 1);
        assert forall|k: int| j <= k < s.drop_last().len() implies s.drop_last()[k] != c by {
            assert(s.drop_last()[k] == s[k]);
        }
        lemma_last_index_of(s.drop_last(), c, j);
        if j > 0 {
            assert(s.drop_last()[j - 1] == s[j - 1]);
        }
    }
}

/// The state letter of one thread's `stat` line.
pub fn parse_task_state(stat: &str) -> (r: Option<char>)
    ensures
        r == task_state_spec(stat@),
{
    let v = chars_of(stat);
    let mut j = v.len();
    while j > 0 && v[j - 1] != ')'
        invariant
            j <= v@.len(),
            forall|k: int| j <= k < v@.len() ==> v@[k] != ')',
        decreases j,
    {
        j = j - 1;
    }
    proof {
        lemma_last_index_of(v@, ')', j as int);
    }
    if j == 0 {
        return None;
    }
    match crate::fields::first_word(&v, j) {
        None => None,
        Some((a, _)) => {
            proof {
                assert(words(v@.skip(j as int))[0][0] == v@[a as int]);
            }
            Some(v[a])
        },
    }
}

/// Per-state thread counts of one `/proc/self/task` walk.
#[derive(Debug, Clone, Copy)]
pub struct TaskStateTally {
    pub total: usize,
    pub running: usize,
    pub sleeping: usize,
    pub uninterruptible: usize,
    pub stopped: usize,
    pub zombie: usize,
    pub idle: usize,
}

impl TaskStateTally {
    /// The per-state counts together are at most the total.
    pub open spec fn wf(self) -> bool {
        self.running + self.sleeping + self.uninterruptible + self.stopped + self.zombie + self.idle
            <= self.total
    }

    /// The tally of no thread.
    pub fn new() -> (t: Self)
        ensures
            t.wf(),
            t.total == 0,
            t.running == 0,
            t.sleeping == 0,
            t.uninterruptible == 0,
            t.stopped == 0,
            t.zombie == 0,
            t.idle == 0,
    {
        TaskStateTally { total: 0, running: 0, sleeping: 0, uninterruptible: 0, stopped: 0, zombie: 0, idle: 0 }
    }

    /// Counts one more thread in state `state`: `R` running, `S` sleeping,
    /// `D` uninterruptible, `T` or `t` stopped, `Z` zombie, `I` idle; any
    /// other letter counts only toward the total.
    pub fn add(&mut self, state: char)
        requires
            old(self).wf(),
            old(self).total < usize::MAX,
        ensures
            final(self).wf(),
            final(self).total == old(self).total + 1,
            final(self).running == old(self).running + (if state == 'R' { 1int } else { 0 }),
            final(self).sleeping == old(self).sleeping + (if state == 'S' { 1int } else { 0 }),
            final(self).uninterruptible == old(self).uninterruptible + (if state == 'D' { 1int } else { 0 }),
            final(self).stopped == old(self).stopped + (if state == 'T' || state == 't' { 1int } else { 0 }),
            final(self).zombie == old(self).zombie + (if state == 'Z' { 1int } else { 0 }),
            final(self).idle == old(self).idle + (if state == 'I' { 1int } else { 0 }),
    {
        self.total = self.total + 1;
        if state == 'R' {
            self.running = self.running + 1;
        } else if state == 'S' {
            self.sleeping = self.sleeping + 1;
        } else if state == 'D' {
            self.uninterruptible = self.uninterruptible + 1;
        } else if state == 'T' || state == 't' {
            self.stopped = self.stopped + 1;
        } else if state == 'Z' {
            self.zombie = self.zombie + 1;
        } else if state == 'I' {
            self.idle = self.idle + 1;
        }
    }
}

/// The name a thread's `wchan` file gives, when it names a wait channel:
/// the trimmed text, unless it is empty or `0`.
pub open spec fn wait_channel_spec(raw: Seq<char>) -> Option<Seq<char>> {
    let t = crate::text::trim(raw);
    if t.len() == 0 || t == "0"@ {
        None
    } else {
        Some(t)
    }
}

/// The wait channel of one thread's `wchan` text.
pub fn wait_channel_name(raw: &str) -> (r: Option<String>)
    ensures
        match r {
            Some(n) => wait_channel_spec(raw@) == Some(n@),
            None => wait_channel_spec(raw@) is None,
        },
{
    proof {
        reveal_strlit("0");
    }
    let t = crate::text::trimmed(raw);
    if t.as_str().is_empty() || crate::text::str_eq(t.as_str(), "0") {
        None
    } else {
        Some(t)
    }
}

/// Threads waiting in each wait channel, one entry per channel, in the order
/// the channels were first seen.
pub struct WaitChannelCounts {
    entries: Vec<(String, usize)>,
}

impl WaitChannelCounts {
    /// Channel names and counts, in order.
    pub closed spec fn counts(&self) -> Seq<(Seq<char>, usize)> {
        self.entries@.map_values(|e: (String, usize)| (e.0@, e.1))
    }

    /// No channel has two entries.
    pub open spec fn wf(&self) -> bool {
        forall|i: int, j: int|
            0 <= i < j < self.counts().len() ==> (#[trigger] self.counts()[i]).0 != (
            #[trigger] self.counts()[j]).0
    }

    /// Index of the entry of `name`.
    pub open spec fn index_of(&self, name: Seq<char>) -> Option<int> {
        if exists|i: int| 0 <= i < self.counts().len() && (#[trigger] self.counts()[i]).0 == name {
            Some(choose|i: int| 0 <= i < self.counts().len() && (#[trigger] self.counts()[i]).0 == name)
        } else {
            None
        }
    }

    /// No channel seen yet.
    pub fn new() -> (c: Self)
        ensures
            c.wf(),
            c.counts().len() == 0,
    {
        let c = WaitChannelCounts { entries: Vec::new() };
        proof {
            assert(c.counts() =~= Seq::<(Seq<char>, usize)>::empty());
        }
        c
    }

    /// Every count can grow by one more thread.
    pub fn has_room(&self) -> (r: bool)
        ensures
            r == forall|i: int| 0 <= i < self.counts().len() ==> (#[trigger] self.counts()[i]).1 < usize::MAX,
    {
        let mut i: usize = 0;
        while i < self.entries.len()
            invariant
                i <= self.entries@.len(),
                forall|k: int| 0 <= k < i ==> (#[trigger] self.counts()[k]).1 < usize::MAX,
            decreases self.entries@.len() - i,
        {
            if self.entries[i].1 == usize::MAX {
                proof {
                    assert(self.counts()[i as int].1 == usize::MAX);
                }
                return false;
            }
            i = i + 1;
        }
        true
    }

    /// Counts one more thread waiting in `name`.
    pub fn add(&mut self, name: &str)
        requires
            old(self).wf(),
            forall|i: int| 0 <= i < old(self).counts().len() ==> (#[trigger] old(self).counts()[i]).1 < usize::MAX,
        ensures
            final(self).wf(),
            match old(self).index_of(name@) {
                Some(i) => final(self).counts() == old(self).counts().update(
                    i,
                    (name@, (old(self).counts()[i].1 + 1) as usize),
                ),
                None => final(self).counts() == old(self).counts().push((name@, 1usize)),
            },
    {
        let ghost before = self.counts();
        let mut i: usize = 0;
        while i < self.entries.len()
            invariant
                i <= self.entries@.len(),
                self.counts() == before,
                before == old(self).counts(),
                old(self).wf(),
                forall|k: int| 0 <= k < old(self).counts().len() ==> (#[trigger] old(self).counts()[k]).1 < usize::MAX,
                forall|k: int| 0 <= k < i ==> (#[trigger] before[k]).0 != name@,
            decreases self.entries@.len() - i,
        {
            if crate::text::str_eq(self.entries[i].0.as_str(), name) {
                proof {
                    assert(before[i as int].0 == name@);
                    assert(old(self).index_of(name@) == Some(i as int)) by {
                        let j = choose|j: int| 0 <= j < before.len() && (#[trigger] before[j]).0 == name@;
                        if j != i {
                            if j < i {
                                assert(before[j].0 != name@);
                            } else {
                                assert(before[i as int].0 != before[j].0);
                            }
                        }
                    }
                }
                let (n, c) = self.entries.remove(i);
                self.entries.insert(i, (n, c + 1));
                proof {
                    assert(self.counts() =~= before.update(i as int, (name@, (before[i as int].1 + 1) as usize)));
                }
                return;
            }
            i = i + 1;
        }
        self.entries.push((String::from_str(name), 1));
        proof {
            assert(self.counts() =~= before.push((name@, 1usize)));
        }
    }

    /// A channel with the largest count and that count, `None` when no
    /// channel was seen. (Which channel among those tied at the top comes
    /// out is not promised.)
    pub fn top(&self) -> (r: Option<(String, usize)>)
        ensures
            r is None <==> self.counts().len() == 0,
            r matches Some((n, c)) ==> {
                &&& exists|i: int| 0 <= i < self.counts().len() && #[trigger] self.counts()[i] == (n@, c)
                &&& forall|i: int| 0 <= i < self.counts().len() ==> (#[trigger] self.counts()[i]).1 <= c
            },
    {
        if self.entries.len() == 0 {
            return None;
        }
        let ghost cs = self.counts();
        let mut best: usize = 0;
        let mut i: usize = 1;
        while i < self.entries.len()
            invariant
                1 <= i <= self.entries@.len(),
                cs == self.counts(),
                best < i,
                forall|k: int| 0 <= k < i ==> (#[trigger] cs[k]).1 <= cs[best as int].1,
            decreases self.entries@.len() - i,
        {
            if self.entries[i].1 >= self.entries[best].1 {
                best = i;
            }
            i = i + 1;
        }
        let name = self.entries[best].0.clone();
        proof {
            assert(cs[best as int] == (name@, self.entries@[best as int].1));
        }
        Some((name, self.entries[best].1))
    }
}

/// A sample with one `/proc/self/task` walk applied: the thread count when
/// any thread state was read, the per-state counts, and the most crowded
/// wait channel when one was seen.
pub fn apply_thread_snapshot(sample: &mut ProcSample, tally: &TaskStateTally, top: Option<(String, usize)>)
    ensures
        final(sample).elapsed_ms == old(sample).elapsed_ms,
        final(sample).vm_rss_bytes == old(sample).vm_rss_bytes,
        final(sample).vm_size_bytes == old(sample).vm_size_bytes,
        final(sample).vm_stack_bytes == old(sample).vm_stack_bytes,
        final(sample).kernel_stack_bytes == old(sample).kernel_stack_bytes,
        final(sample).kernel_threads == (if tally.total > 0 {
            Some(tally.total)
        } else {
            old(sample).kernel_threads
        }),
        final(sample).running_kernel_threads == Some(tally.running),
        final(sample).sleeping_kernel_threads == Some(tally.sleeping),
        final(sample).uninterruptible_kernel_threads == Some(tally.uninterruptible),
        final(sample).stopped_kernel_threads == Some(tally.stopped),
        final(sample).zombie_kernel_threads == Some(tally.zombie),
        final(sample).idle_kernel_threads == Some(tally.idle),
        match top {
            Some((n, c)) => final(sample).top_wait_channel == Some(n) && final(sample).top_wait_channel_count == Some(c),
            None => final(sample).top_wait_channel == old(sample).top_wait_channel
                && final(sample).top_wait_channel_count == old(sample).top_wait_channel_count,
        },
{
    if tally.total > 0 {
        sample.kernel_threads = Some(tally.total);
    }
    sample.running_kernel_threads = Some(tally.running);
    sample.sleeping_kernel_threads = Some(tally.sleeping);
    sample.uninterruptible_kernel_threads = Some(tally.uninterruptible);
    sample.stopped_kernel_threads = Some(tally.stopped);
    sample.zombie_kernel_threads = Some(tally.zombie);
    sample.idle_kernel_threads = Some(tally.idle);
    match top {
        Some((n, c)) => {
            sample.top_wait_channel = Some(n);
            sample.top_wait_channel_count = Some(c);
        },
        None => {},
    }
}

/// Each sample's sleeping plus uninterruptible threads, absent counts taken
/// as 0.
pub open spec fn blocked_of(s: ProcSample) -> int {
    (match s.sleeping_kernel_threads {
        Some(n) => n as int,
        None => 0,
    }) + (match s.uninterruptible_kernel_threads {
        Some(n) => n as int,
        None => 0,
    })
}

/// A sample's sleeping plus uninterruptible threads, absent counts taken as
/// 0; `None` when the sum does not fit in `usize`.
pub fn blocked_threads(s: &ProcSample) -> (r: Option<usize>)
    ensures
        match r {
            Some(n) => n == blocked_of(*s),
            None => blocked_of(*s) > usize::MAX,
        },
{
    let sleeping: usize = match s.sleeping_kernel_threads {
        Some(n) => n,
        None => 0,
    };
    let uninterruptible: usize = match s.uninterruptible_kernel_threads {
        Some(n) => n,
        None => 0,
    };
    sleeping.checked_add(uninterruptible)
}

/// The largest blocked-thread count over the samples, 0 when there are none.
pub open spec fn peak_blocked(samples: Seq<ProcSample>) -> int
    decreases samples.len(),
{
    if samples.len() == 0 {
        0
    } else {
        let p = peak_blocked(samples.drop_last());
        if blocked_of(samples.last()) > p {
            blocked_of(samples.last())
        } else {
            p
        }
    }
}

/// The whole-number figures of one run's record.
pub struct RecordCounts {
    pub peak_kernel_threads: usize,
    pub estimated_user_stack_reserved_bytes: u64,
    pub estimated_future_state_bytes: u64,
    pub estimated_kernel_stack_reserved_bytes: u64,
    pub total_stack_reserved_bytes: u64,
    pub peak_running_kernel_threads: usize,
    pub peak_sleeping_kernel_threads: usize,
    pub peak_uninterruptible_kernel_threads: usize,
    pub peak_blocked_kernel_threads: usize,
    pub dominant_wait_channel: String,
    pub dominant_wait_channel_count: usize,
    pub peak_rss_bytes: u64,
    pub peak_vm_size_bytes: u64,
    pub peak_vm_stack_bytes: u64,
    pub proc_status_kernel_stack_bytes: u64,
    pub sample_count: usize,
}

/// The figures of a run of `task_count` tasks, each with
/// `user_stack_bytes` of user stack and `future_state_bytes` of future
/// state, on threads with `kernel_stack_bytes` of kernel stack: peaks over
/// the samples, the reserved-byte estimates (saturated at `u64::MAX`) and
/// the dominant wait channel.
pub fn record_counts(
    task_count: usize,
    kernel_stack_bytes: usize,
    samples: &[ProcSample],
    user_stack_bytes: usize,
    future_state_bytes: usize,
) -> (r: RecordCounts)
    requires
        forall|i: int| 0 <= i < samples@.len() ==> blocked_of(#[trigger] samples@[i]) <= usize::MAX,
    ensures
        r.peak_kernel_threads == peak_of_usize(samples@.map_values(|s: ProcSample| s.kernel_threads)),
        r.estimated_user_stack_reserved_bytes == saturated_product(task_count as nat, user_stack_bytes as nat),
        r.estimated_future_state_bytes == saturated_product(task_count as nat, future_state_bytes as nat),
        r.estimated_kernel_stack_reserved_bytes == saturated_product(
            r.peak_kernel_threads as nat,
            kernel_stack_bytes as nat,
        ),
        r.total_stack_reserved_bytes == (if r.estimated_user_stack_reserved_bytes
            + r.estimated_kernel_stack_reserved_bytes > u64::MAX {
            u64::MAX as int
        } else {
            r.estimated_user_stack_reserved_bytes + r.estimated_kernel_stack_reserved_bytes
        }),
        r.peak_running_kernel_threads == peak_of_usize(
            samples@.map_values(|s: ProcSample| s.running_kernel_threads),
        ),
        r.peak_sleeping_kernel_threads == peak_of_usize(
            samples@.map_values(|s: ProcSample| s.sleeping_kernel_threads),
        ),
        r.peak_uninterruptible_kernel_threads == peak_of_usize(
            samples@.map_values(|s: ProcSample| s.uninterruptible_kernel_threads),
        ),
        r.peak_blocked_kernel_threads == peak_blocked(samples@),
        (r.dominant_wait_channel@, r.dominant_wait_channel_count) == dominant_of(samples@),
        r.peak_rss_bytes == peak_of_u64(samples@.map_values(|s: ProcSample| s.vm_rss_bytes)),
        r.peak_vm_size_bytes == peak_of_u64(samples@.map_values(|s: ProcSample| s.vm_size_bytes)),
        r.peak_vm_stack_bytes == peak_of_u64(samples@.map_values(|s: ProcSample| s.vm_stack_bytes)),
        r.proc_status_kernel_stack_bytes == peak_of_u64(
            samples@.map_values(|s: ProcSample| s.kernel_stack_bytes),
        ),
        r.sample_count == samples@.len(),
{
    let read_kernel_threads = |s: &ProcSample| -> (v: Option<usize>)
        ensures
            v == s.kernel_threads,
        { s.kernel_threads };
    let peak_threads = peak_usize(samples, read_kernel_threads);
    proof {
        let vals = choose|vals: Seq<Option<usize>>| reads_usize(read_kernel_threads, samples@, vals) && peak_threads == peak_of_usize(vals);
        assert(vals =~= samples@.map_values(|s: ProcSample| s.kernel_threads));
    }
    let read_running_kernel_threads = |s: &ProcSample| -> (v: Option<usize>)
        ensures
            v == s.running_kernel_threads,
        { s.running_kernel_threads };
    let peak_running = peak_usize(samples, read_running_kernel_threads);
    proof {
        let vals = choose|vals: Seq<Option<usize>>| reads_usize(read_running_kernel_threads, samples@, vals) && peak_running == peak_of_usize(vals);
        assert(vals =~= samples@.map_values(|s: ProcSample| s.running_kernel_threads));
    }
    let read_sleeping_kernel_threads = |s: &ProcSample| -> (v: Option<usize>)
        ensures
            v == s.sleeping_kernel_threads,
        { s.sleeping_kernel_threads };
    let peak_sleeping = peak_usize(samples, read_sleeping_kernel_threads);
    proof {
        let vals = choose|vals: Seq<Option<usize>>| reads_usize(read_sleeping_kernel_threads, samples@, vals) && peak_sleeping == peak_of_usize(vals);
        assert(vals =~= samples@.map_values(|s: ProcSample| s.sleeping_kernel_threads));
    }
    let read_uninterruptible_kernel_threads = |s: &ProcSample| -> (v: Option<usize>)
        ensures
            v == s.uninterruptible_kernel_threads,
        { s.uninterruptible_kernel_threads };
    let peak_uninterruptible = peak_usize(samples, read_uninterruptible_kernel_threads);
    proof {
        let vals = choose|vals: Seq<Option<usize>>| reads_usize(read_uninterruptible_kernel_threads, samples@, vals) && peak_uninterruptible == peak_of_usize(vals);
        assert(vals =~= samples@.map_values(|s: ProcSample| s.uninterruptible_kernel_threads));
    }
    let read_vm_rss_bytes = |s: &ProcSample| -> (v: Option<u64>)
        ensures
            v == s.vm_rss_bytes,
        { s.vm_rss_bytes };
    let peak_rss = peak_u64(samples, read_vm_rss_bytes);
    proof {
        let vals = choose|vals: Seq<Option<u64>>| reads_u64(read_vm_rss_bytes, samples@, vals) && peak_rss == peak_of_u64(vals);
        assert(vals =~= samples@.map_values(|s: ProcSample| s.vm_rss_bytes));
    }
    let read_vm_size_bytes = |s: &ProcSample| -> (v: Option<u64>)
        ensures
            v == s.vm_size_bytes,
        { s.vm_size_bytes };
    let peak_size = peak_u64(samples, read_vm_size_bytes);
    proof {
        let vals = choose|vals: Seq<Option<u64>>| reads_u64(read_vm_size_bytes, samples@, vals) && peak_size == peak_of_u64(vals);
        assert(vals =~= samples@.map_values(|s: ProcSample| s.vm_size_bytes));
    }
    let read_vm_stack_bytes = |s: &ProcSample| -> (v: Option<u64>)
        ensures
            v == s.vm_stack_bytes,
        { s.vm_stack_bytes };
    let peak_stack = peak_u64(samples, read_vm_stack_bytes);
    proof {
        let vals = choose|vals: Seq<Option<u64>>| reads_u64(read_vm_stack_bytes, samples@, vals) && peak_stack == peak_of_u64(vals);
        assert(vals =~= samples@.map_values(|s: ProcSample| s.vm_stack_bytes));
    }
    let read_kernel_stack_bytes = |s: &ProcSample| -> (v: Option<u64>)
        ensures
            v == s.kernel_stack_bytes,
        { s.kernel_stack_bytes };
    let peak_kstack = peak_u64(samples, read_kernel_stack_bytes);
    proof {
        let vals = choose|vals: Seq<Option<u64>>| reads_u64(read_kernel_stack_bytes, samples@, vals) && peak_kstack == peak_of_u64(vals);
        assert(vals =~= samples@.map_values(|s: ProcSample| s.kernel_stack_bytes));
    }
    let user_stack_reserved = bytes_mul(task_count, user_stack_bytes);
    let kernel_stack_reserved = bytes_mul(peak_threads, kernel_stack_bytes);
    let total = match user_stack_reserved.checked_add(kernel_stack_reserved) {
        Some(t) => t,
        None => u64::MAX,
    };
    let mut blocked: usize = 0;
    let mut i: usize = 0;
    while i < samples.len()
        invariant
            i <= samples@.len(),
            forall|k: int| 0 <= k < samples@.len() ==> blocked_of(#[trigger] samples@[k]) <= usize::MAX,
            blocked == peak_blocked(samples@.take(i as int)),
        decreases samples@.len() - i,
    {
        proof {
            assert(samples@.take(i + 1).drop_last() =~= samples@.take(i as int));
            assert(samples@.take(i + 1).last() == samples@[i as int]);
            assert(blocked_of(samples@[i as int]) <= usize::MAX);
        }
        let sleeping: usize = match samples[i].sleeping_kernel_threads {
            Some(n) => n,
            None => 0,
        };
        let uninterruptible: usize = match samples[i].uninterruptible_kernel_threads {
            Some(n) => n,
            None => 0,
        };
        let b = sleeping + uninterruptible;
        if b > blocked {
            blocked = b;
        }
        i = i + 1;
    }
    proof {
        assert(samples@.take(i as int) =~= samples@);
    }
    let (channel, count) = dominant_wait_channel(samples);
    RecordCounts {
        peak_kernel_threads: peak_threads,
        estimated_user_stack_reserved_bytes: user_stack_reserved,
        estimated_future_state_bytes: bytes_mul(task_count, future_state_bytes),
        estimated_kernel_stack_reserved_bytes: kernel_stack_reserved,
        total_stack_reserved_bytes: total,
        peak_running_kernel_threads: peak_running,
        peak_sleeping_kernel_threads: peak_sleeping,
        peak_uninterruptible_kernel_threads: peak_uninterruptible,
        peak_blocked_kernel_threads: blocked,
        dominant_wait_channel: channel,
        dominant_wait_channel_count: count,
        peak_rss_bytes: peak_rss,
        peak_vm_size_bytes: peak_size,
        peak_vm_stack_bytes: peak_stack,
        proc_status_kernel_stack_bytes: peak_kstack,
        sample_count: samples.len(),
    }
}

/// The peak is at least every value read, and is one of them unless it is 0.
pub proof fn law_peak_u64_is_largest(vals: Seq<Option<u64>>)
    ensures
        forall|i: int| 0 <= i < vals.len() && (#[trigger] vals[i]) is Some ==> vals[i]->0 <= peak_of_u64(vals),
        peak_of_u64(vals) == 0 || exists|i: int| 0 <= i < vals.len() && #[trigger] vals[i] == Some(peak_of_u64(vals)),
    decreases vals.len(),
{
    if vals.len() > 0 {
        let rest = vals.drop_last();
        law_peak_u64_is_largest(rest);
        assert forall|i: int| 0 <= i < vals.len() && (#[trigger] vals[i]) is Some implies vals[i]->0 <= peak_of_u64(vals) by {
            if i < vals.len() - 1 {
                assert(vals[i] == rest[i]);
            }
        }
        if peak_of_u64(vals) != 0 {
            if peak_of_u64(vals) == peak_of_u64(rest) {
                let j = choose|j: int| 0 <= j < rest.len() && #[trigger] rest[j] == Some(peak_of_u64(rest));
                assert(vals[j] == rest[j]);
            } else {
                assert(vals[vals.len() - 1] == Some(peak_of_u64(vals)));
            }
        }
    }
}

/// The peak is at least every value read, and is one of them unless it is 0.
pub proof fn law_peak_usize_is_largest(vals: Seq<Option<usize>>)
    ensures
        forall|i: int| 0 <= i < vals.len() && (#[trigger] vals[i]) is Some ==> vals[i]->0 <= peak_of_usize(vals),
        peak_of_usize(vals) == 0 || exists|i: int| 0 <= i < vals.len() && #[trigger] vals[i] == Some(peak_of_usize(vals)),
    decreases vals.len(),
{
    if vals.len() > 0 {
        let rest = vals.drop_last();
        law_peak_usize_is_largest(rest);
        assert forall|i: int| 0 <= i < vals.len() && (#[trigger] vals[i]) is Some implies vals[i]->0 <= peak_of_usize(vals) by {
            if i < vals.len() - 1 {
                assert(vals[i] == rest[i]);
            }
        }
        if peak_of_usize(vals) != 0 {
            if peak_of_usize(vals) == peak_of_usize(rest) {
                let j = choose|j: int| 0 <= j < rest.len() && #[trigger] rest[j] == Some(peak_of_usize(rest));
                assert(vals[j] == rest[j]);
            } else {
                assert(vals[vals.len() - 1] == Some(peak_of_usize(vals)));
            }
        }
    }
}

/// The count of a sample's wait channel, 0 when it names none.
pub open spec fn candidate_count(s: ProcSample) -> usize {
    match wait_candidate(s) {
        Some((_, n)) => n,
        None => 0,
    }
}

/// The dominant wait channel has the largest count of any sample's channel,
/// and is one of those channels; when no sample names a channel it is the
/// empty name with count 0.
pub proof fn law_dominant_is_largest(samples: Seq<ProcSample>)
    ensures
        forall|i: int| #![trigger samples[i]]
            0 <= i < samples.len() && wait_candidate(samples[i]) is Some
                ==> candidate_count(samples[i]) <= dominant_of(samples).1,
        dominant_of(samples).1 > 0 ==> exists|i: int|
            0 <= i < samples.len() && wait_candidate(#[trigger] samples[i]) == Some(dominant_of(samples)),
        dominant_of(samples).1 == 0 ==> dominant_of(samples).0.len() == 0 && forall|i: int|
            0 <= i < samples.len() ==> wait_candidate(#[trigger] samples[i]) is None,
    decreases samples.len(),
{
    if samples.len() > 0 {
        let rest = samples.drop_last();
        law_dominant_is_largest(rest);
        assert forall|i: int| #![trigger samples[i]]
            0 <= i < samples.len() && wait_candidate(samples[i]) is Some
                implies candidate_count(samples[i]) <= dominant_of(samples).1 by {
            if i < samples.len() - 1 {
                assert(samples[i] == rest[i]);
            }
        }
        if dominant_of(samples).1 > 0 {
            if dominant_of(samples) == dominant_of(rest) {
                let j = choose|j: int| 0 <= j < rest.len() && wait_candidate(#[trigger] rest[j]) == Some(dominant_of(rest));
                assert(samples[j] == rest[j]);
            } else {
                assert(wait_candidate(samples[samples.len() - 1]) == Some(dominant_of(samples)));
            }
        } else {
            assert forall|i: int| 0 <= i < samples.len() implies wait_candidate(#[trigger] samples[i]) is None by {
                if i < samples.len() - 1 {
                    assert(samples[i] == rest[i]);
                }
            }
        }
    }
}


/// The peak of blocked threads is at least every sample's sleeping plus
/// uninterruptible threads, and is one of them when there are samples.
pub proof fn law_peak_blocked_is_largest(samples: Seq<ProcSample>)
    ensures
        forall|i: int| 0 <= i < samples.len() ==> blocked_of(#[trigger] samples[i]) <= peak_blocked(samples),
        samples.len() > 0 ==> exists|i: int| 0 <= i < samples.len() && blocked_of(#[trigger] samples[i]) == peak_blocked(samples),
        samples.len() == 0 ==> peak_blocked(samples) == 0,
    decreases samples.len(),
{
    if samples.len() > 0 {
        let rest = samples.drop_last();
        law_peak_blocked_is_largest(rest);
        assert forall|i: int| 0 <= i < samples.len() implies blocked_of(#[trigger] samples[i]) <= peak_blocked(samples) by {
            if i < samples.len() - 1 {
                assert(samples[i] == rest[i]);
            }
        }
        if peak_blocked(samples) == peak_blocked(rest) && rest.len() > 0 {
            let j = choose|j: int| 0 <= j < rest.len() && blocked_of(#[trigger] rest[j]) == peak_blocked(rest);
            assert(samples[j] == rest[j]);
        } else {
            assert(blocked_of(samples[samples.len() - 1]) >= 0);
        }
    }
}

} // verus!

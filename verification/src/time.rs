use vstd::prelude::*;
use std::collections::VecDeque;
use std::time::{Duration, Instant};

verus! {

#[verifier::external_type_specification]
#[verifier::external_body]
pub struct ExInstant(Instant);

/// `std::time::Instant::now`: the current instant of the monotonic clock.
/// Nothing is claimed of the value, which depends on the time of the call.
#[verifier::external_body]
fn now() -> Instant {
    Instant::now()
}

/// `Instant - Instant`: the time from `earlier` to `later` (zero when `later`
/// comes first). Nothing is claimed of the value, which depends on when the two
/// instants were taken.
#[verifier::external_body]
fn elapsed_between(later: &Instant, earlier: &Instant) -> Duration {
    *later - *earlier
}

/// `Duration::as_secs`: the number of whole seconds of `d`. Nothing is claimed
/// of the value.
#[verifier::external_body]
fn whole_secs(d: &Duration) -> u64 {
    d.as_secs()
}

/// `Duration::as_micros`: the number of whole microseconds of `d`. The
/// documentation bounds a `Duration` by `u64::MAX` seconds and 999_999_999
/// nanoseconds, so the count of microseconds stays below `2^84`.
#[verifier::external_body]
fn whole_micros(d: &Duration) -> (m: u128)
    ensures
        m <= 0xFFFF_FFFF_FFFF_FFFF * 1_000_000 + 999_999,
{
    d.as_micros()
}

/// Sum of the durations of timed samples
pub open spec fn sum_micros(s: Seq<(Instant, u128)>) -> int
    decreases s.len(),
{
    if s.len() == 0 {
        0
    } else {
        sum_micros(s.drop_last()) + s.last().1
    }
}

/// Sum of the durations of timed samples, taken from the front
pub proof fn lemma_sum_micros_front(s: Seq<(Instant, u128)>)
    requires
        s.len() > 0,
    ensures
        sum_micros(s) == s[0].1 + sum_micros(s.subrange(1, s.len() as int)),
    decreases s.len(),
{
    if s.len() > 1 {
        lemma_sum_micros_front(s.drop_last());
        let t = s.subrange(1, s.len() as int);
        assert(s.drop_last().subrange(1, s.len() - 1) =~= t.drop_last());
        assert(t.last() == s.last());
        assert(s.drop_last()[0] == s[0]);
        assert(sum_micros(t) == sum_micros(t.drop_last()) + t.last().1);
    } else {
        assert(s.subrange(1, s.len() as int) =~= Seq::<(Instant, u128)>::empty());
        assert(s.drop_last() =~= Seq::<(Instant, u128)>::empty());
    }
}

/// Sums of durations are never negative
pub proof fn lemma_sum_micros_nonneg(s: Seq<(Instant, u128)>)
    ensures
        sum_micros(s) >= 0,
    decreases s.len(),
{
    if s.len() > 0 {
        lemma_sum_micros_nonneg(s.drop_last());
    }
}

/// Number of expired entries at the front, given their ages in whole seconds,
/// oldest first: the longest prefix of entries at least 10 seconds old
pub open spec fn expired_prefix(ages: Seq<u64>) -> nat
    decreases ages.len(),
{
    if ages.len() == 0 || ages[0] < 10 {
        0
    } else {
        1 + expired_prefix(ages.subrange(1, ages.len() as int))
    }
}

/// The expired prefix ends at the first entry younger than 10 seconds
pub proof fn lemma_expired_prefix(ages: Seq<u64>, i: int)
    requires
        0 <= i <= ages.len(),
        forall|j: int| 0 <= j < i ==> #[trigger] ages[j] >= 10,
        i == ages.len() || ages[i] < 10,
    ensures
        expired_prefix(ages) == i,
    decreases i,
{
    if i > 0 {
        let rest = ages.subrange(1, ages.len() as int);
        assert forall|j: int| 0 <= j < i - 1 implies #[trigger] rest[j] >= 10 by {
            assert(rest[j] == ages[j + 1]);
        }
        if i < ages.len() {
            assert(rest[i - 1] == ages[i]);
        }
        lemma_expired_prefix(rest, i - 1);
    }
}

/// The expired prefix is at most all the entries
pub proof fn lemma_expired_prefix_bound(ages: Seq<u64>)
    ensures
        expired_prefix(ages) <= ages.len(),
    decreases ages.len(),
{
    if ages.len() > 0 && ages[0] >= 10 {
        lemma_expired_prefix_bound(ages.subrange(1, ages.len() as int));
    }
}

/// Helper struct to calculate the average time of an operation
pub struct AverageTimeCounter {
    times: VecDeque<(Instant, u128)>,
    total_micros: u128,
}

impl AverageTimeCounter {
    /// The recorded samples, oldest first: when each was recorded and its duration in microseconds
    pub closed spec fn samples(&self) -> Seq<(Instant, u128)> {
        self.times@
    }

    /// The running total of the durations of the samples
    pub closed spec fn total(&self) -> u128 {
        self.total_micros
    }

    /// The running total is the sum of the samples
    pub open spec fn wf(&self) -> bool {
        self.total() == sum_micros(self.samples())
    }

    pub fn new() -> (c: AverageTimeCounter)
        ensures
            c.wf(),
            c.samples().len() == 0,
    {
        AverageTimeCounter { times: VecDeque::new(), total_micros: 0 }
    }

    /// Drop the expired samples, given the age in whole seconds of each sample,
    /// oldest first: the samples are dropped from the oldest on while they are at
    /// least 10 seconds old
    pub fn drop_expired(&mut self, ages_secs: &Vec<u64>)
        requires
            old(self).wf(),
            ages_secs@.len() == old(self).samples().len(),
        ensures
            final(self).wf(),
            final(self).samples() == old(self).samples().subrange(
                expired_prefix(ages_secs@) as int,
                old(self).samples().len() as int,
            ),
    {
        let ghost start = self.times@;
        assert(start.subrange(0, start.len() as int) =~= start);
        let mut i: usize = 0;
        while i < ages_secs.len() && ages_secs[i] >= 10
            invariant
                i <= ages_secs@.len(),
                ages_secs@.len() == start.len(),
                self.wf(),
                self.times@ == start.subrange(i as int, start.len() as int),
                forall|j: int| 0 <= j < i ==> #[trigger] ages_secs@[j] >= 10,
            decreases ages_secs@.len() - i,
        {
            let duration = self.times[0].1;
            proof {
                lemma_sum_micros_front(self.times@);
                lemma_sum_micros_nonneg(self.times@.subrange(1, self.times@.len() as int));
            }
            self.times.pop_front();
            self.total_micros = self.total_micros - duration;
            proof {
                assert(self.times@ =~= start.subrange(i + 1, start.len() as int));
            }
            i = i + 1;
        }
        proof {
            lemma_expired_prefix(ages_secs@, i as int);
        }
    }

    /// Drop the samples that are at least 10 seconds old. The samples that stay
    /// are a suffix of the previous ones.
    fn remove_old(&mut self)
        requires
            old(self).wf(),
        ensures
            final(self).wf(),
            exists|n: int|
                0 <= n <= old(self).samples().len() && final(self).samples() == old(self).samples().subrange(n, old(self).samples().len() as int),
    {
        let t = now();
        let mut ages: Vec<u64> = Vec::new();
        let mut i: usize = 0;
        while i < self.times.len()
            invariant
                i <= self.times@.len(),
                ages@.len() == i,
            decreases self.times@.len() - i,
        {
            ages.push(whole_secs(&elapsed_between(&t, &self.times[i].0)));
            i = i + 1;
        }
        self.drop_expired(&ages);
        proof {
            lemma_expired_prefix_bound(ages@);
        }
    }

    /// The running total of the durations of the samples, in microseconds
    pub fn total_micros(&self) -> (t: u128)
        ensures
            t == self.total(),
    {
        self.total_micros
    }

    /// Record a new sample lasting `duration_micros` microseconds, then drop the
    /// samples that are at least 10 seconds old
    pub fn add_time(&mut self, duration_micros: u128)
        requires
            old(self).wf(),
            old(self).total() + duration_micros <= u128::MAX,
        ensures
            final(self).wf(),
            exists|n: int, t: Instant|
                0 <= n <= old(self).samples().len() + 1 && final(self).samples() == #[trigger] old(self).samples().push((t, duration_micros)).subrange(n, old(self).samples().len() as int + 1),
    {
        self.total_micros = self.total_micros + duration_micros;
        let t = now();
        let ghost before = self.times@;
        self.times.push_back((t, duration_micros));
        assert(self.times@.drop_last() =~= before);
        let ghost pushed = self.times@;
        self.remove_old();
        proof {
            let n = choose|n: int|
                0 <= n <= pushed.len() && self.times@ == pushed.subrange(n, pushed.len() as int);
            assert(pushed == before.push((t, duration_micros)));
        }
    }

    /// Average duration of the recent samples, in microseconds (0 when there is none)
    pub fn average_time_micros(&mut self) -> (a: u64)
        requires
            old(self).wf(),
        ensures
            final(self).wf(),
            exists|n: int|
                0 <= n <= old(self).samples().len() && final(self).samples() == old(self).samples().subrange(n, old(self).samples().len() as int),
            final(self).samples().len() == 0 ==> a == 0,
            final(self).samples().len() > 0 ==> a == (final(self).total() / (final(self).samples().len() as u128)) as u64,
    {
        self.remove_old();
        if self.times.len() == 0 {
            0
        } else {
            (self.total_micros / self.times.len() as u128) as u64
        }
    }

    /// Number of recent samples: those younger than 10 seconds stay, older ones are dropped
    pub fn recent_count(&mut self) -> (n: usize)
        requires
            old(self).wf(),
        ensures
            final(self).wf(),
            n == final(self).samples().len(),
            exists|k: int|
                0 <= k <= old(self).samples().len() && final(self).samples() == old(self).samples().subrange(k, old(self).samples().len() as int),
    {
        self.remove_old();
        self.times.len()
    }
}


/// Longest duration, in microseconds, that a difference of two instants can give
pub open spec fn max_micros() -> int {
    0xFFFF_FFFF_FFFF_FFFFint * 1_000_000 + 999_999
}

/// Sum, over the frames, of the duration recorded for part `c` (a frame without
/// that part counts for 0)
pub open spec fn part_total(frames: Seq<(Instant, Vec<u128>)>, c: int) -> int
    decreases frames.len(),
{
    if frames.len() == 0 {
        0
    } else {
        part_total(frames.drop_last(), c) + (if 0 <= c < frames.last().1@.len() {
            frames.last().1@[c] as int
        } else {
            0
        })
    }
}

/// Part totals, taking the oldest frame first
pub proof fn lemma_part_total_front(frames: Seq<(Instant, Vec<u128>)>, c: int)
    requires
        frames.len() > 0,
    ensures
        part_total(frames, c) == (if 0 <= c < frames[0].1@.len() {
            frames[0].1@[c] as int
        } else {
            0
        }) + part_total(frames.subrange(1, frames.len() as int), c),
    decreases frames.len(),
{
    if frames.len() > 1 {
        lemma_part_total_front(frames.drop_last(), c);
        let t = frames.subrange(1, frames.len() as int);
        assert(frames.drop_last().subrange(1, frames.len() - 1) =~= t.drop_last());
        assert(frames.drop_last()[0] == frames[0]);
    } else {
        assert(frames.subrange(1, frames.len() as int) =~= Seq::<(Instant, Vec<u128>)>::empty());
        assert(frames.drop_last() =~= Seq::<(Instant, Vec<u128>)>::empty());
    }
}

/// Frames that all hold fewer than `c + 1` parts have nothing for part `c`
pub proof fn lemma_part_total_beyond(frames: Seq<(Instant, Vec<u128>)>, c: int)
    requires
        forall|f: int| 0 <= f < frames.len() ==> (#[trigger] frames[f]).1@.len() <= c,
    ensures
        part_total(frames, c) == 0,
    decreases frames.len(),
{
    if frames.len() > 0 {
        assert forall|f: int| 0 <= f < frames.drop_last().len() implies (#[trigger] frames.drop_last()[f]).1@.len() <= c by {
            assert(frames.drop_last()[f] == frames[f]);
        }
        lemma_part_total_beyond(frames.drop_last(), c);
        assert(frames.last() == frames[frames.len() - 1]);
    }
}

/// Part totals are never negative
pub proof fn lemma_part_total_nonneg(frames: Seq<(Instant, Vec<u128>)>, c: int)
    ensures
        part_total(frames, c) >= 0,
    decreases frames.len(),
{
    if frames.len() > 0 {
        lemma_part_total_nonneg(frames.drop_last(), c);
    }
}

/// Helper struct to calculate what parts of an operation are taking time
pub struct BreakdownCounter {
    times: VecDeque<(Instant, Vec<u128>)>,
    total_micros: Vec<u128>,
    part_names: Vec<String>,
    last_time: Instant,
}

impl BreakdownCounter {
    /// The recorded frames, oldest first: when each frame started and the
    /// durations of its parts, in microseconds
    pub closed spec fn frames(&self) -> Seq<(Instant, Vec<u128>)> {
        self.times@
    }

    /// The running total of each part over the frames
    pub closed spec fn totals(&self) -> Seq<u128> {
        self.total_micros@
    }

    /// The names of the parts recorded in the current frame
    pub closed spec fn names(&self) -> Seq<String> {
        self.part_names@
    }

    /// When the part being recorded started
    pub closed spec fn started(&self) -> Instant {
        self.last_time
    }

    /// The running totals are the sums of the parts over the frames, and the
    /// current frame, when it is still kept, holds one duration per part named
    pub open spec fn wf(&self) -> bool {
        &&& forall|c: int| 0 <= c < self.totals().len() ==> #[trigger] self.totals()[c] == part_total(self.frames(), c)
        &&& forall|f: int| 0 <= f < self.frames().len() ==> (#[trigger] self.frames()[f]).1@.len() <= self.totals().len()
        &&& self.names().len() <= self.totals().len()
        &&& self.names().len() > 0 && self.frames().len() > 0 ==> self.frames().last().1@.len() == self.names().len()
    }

    pub fn new() -> (c: BreakdownCounter)
        ensures
            c.wf(),
            c.frames().len() == 0,
            c.totals().len() == 0,
            c.names().len() == 0,
    {
        BreakdownCounter { times: VecDeque::new(), total_micros: Vec::new(), part_names: Vec::new(), last_time: now() }
    }

    /// Start a new frame: drop the frames that are at least 10 seconds old and
    /// forget the part names
    pub fn start_frame(&mut self)
        requires
            old(self).wf(),
        ensures
            final(self).wf(),
            exists|n: int|
                0 <= n <= old(self).frames().len() && final(self).frames() == old(self).frames().subrange(n, old(self).frames().len() as int),
            final(self).totals().len() == old(self).totals().len(),
            final(self).names().len() == 0,
    {
        self.remove_old();
        self.part_names.clear();
        self.last_time = now();
    }

    /// Take the oldest frame off, with its durations taken off the totals
    fn drop_oldest(&mut self)
        requires
            old(self).wf(),
            old(self).frames().len() > 0,
        ensures
            final(self).wf(),
            final(self).frames() == old(self).frames().subrange(1, old(self).frames().len() as int),
            final(self).totals().len() == old(self).totals().len(),
            forall|c: int| 0 <= c < final(self).totals().len() ==> #[trigger] final(self).totals()[c] <= old(self).totals()[c],
            final(self).names() == old(self).names(),
            final(self).last_time == old(self).last_time,
    {
        let ghost frames = self.times@;
        let ghost rest = frames.subrange(1, frames.len() as int);
        let ghost ntot = self.total_micros@.len();
        let n_parts = self.times[0].1.len();
        proof {
            assert(old(self).frames()[0] == frames[0]);
            assert forall|x: int| 0 <= x < ntot implies #[trigger] self.total_micros@[x] == part_total(frames, x) by {
                assert(old(self).totals()[x] == self.total_micros@[x]);
            }
        }
        let mut c: usize = 0;
        while c < n_parts
            invariant
                self.times@ == frames,
                frames.len() > 0,
                rest == frames.subrange(1, frames.len() as int),
                n_parts == frames[0].1@.len(),
                n_parts <= ntot,
                self.total_micros@.len() == ntot,
                c <= n_parts,
                self.part_names@ == old(self).part_names@,
                self.last_time == old(self).last_time,
                forall|x: int| 0 <= x < c ==> #[trigger] self.total_micros@[x] == part_total(rest, x),
                forall|x: int| c <= x < ntot ==> #[trigger] self.total_micros@[x] == part_total(frames, x),
            decreases n_parts - c,
        {
            proof {
                lemma_part_total_front(frames, c as int);
                lemma_part_total_nonneg(rest, c as int);
                assert(self.total_micros@[c as int] == part_total(frames, c as int));
                assert(self.times@[0].1@[c as int] == frames[0].1@[c as int]);
            }
            let ghost tot1 = self.total_micros@;
            let v = self.total_micros[c] - self.times[0].1[c];
            self.total_micros.set(c, v);
            proof {
                assert forall|x: int| 0 <= x < c + 1 implies #[trigger] self.total_micros@[x] == part_total(rest, x) by {
                    if x < c {
                        assert(tot1[x] == part_total(rest, x));
                    }
                }
                assert forall|x: int| c + 1 <= x < ntot implies #[trigger] self.total_micros@[x] == part_total(frames, x) by {
                    assert(tot1[x] == part_total(frames, x));
                }
            }
            c = c + 1;
        }
        self.times.pop_front();
        proof {
            assert(self.times@ == rest);
            assert forall|x: int| 0 <= x < ntot implies #[trigger] self.total_micros@[x] == part_total(rest, x) by {
                if x >= n_parts {
                    lemma_part_total_front(frames, x);
                }
            }
            assert forall|x: int| 0 <= x < ntot implies #[trigger] self.total_micros@[x] <= old(self).total_micros@[x] by {
                lemma_part_total_front(frames, x);
                assert(old(self).totals()[x] == old(self).total_micros@[x]);
            }
            assert forall|f: int| 0 <= f < rest.len() implies (#[trigger] rest[f]).1@.len() <= ntot by {
                assert(old(self).frames()[f + 1] == rest[f]);
            }
            if self.part_names@.len() > 0 && rest.len() > 0 {
                assert(rest.last() == frames.last());
                assert(old(self).frames().last() == frames.last());
            }
            assert(self.totals() == self.total_micros@);
            assert(self.frames() == rest);
        }
    }

    /// Drop the expired frames, given the age in whole seconds of each frame,
    /// oldest first: the frames are dropped from the oldest on while they are at
    /// least 10 seconds old, with their durations taken off the totals
    pub fn drop_expired(&mut self, ages_secs: &Vec<u64>)
        requires
            old(self).wf(),
            ages_secs@.len() == old(self).frames().len(),
        ensures
            final(self).wf(),
            final(self).frames() == old(self).frames().subrange(
                expired_prefix(ages_secs@) as int,
                old(self).frames().len() as int,
            ),
            final(self).totals().len() == old(self).totals().len(),
            forall|c: int| 0 <= c < final(self).totals().len() ==> #[trigger] final(self).totals()[c] <= old(self).totals()[c],
            final(self).names() == old(self).names(),
            final(self).started() == old(self).started(),
    {
        let ghost start = self.frames();
        assert(start.subrange(0, start.len() as int) =~= start);
        let mut i: usize = 0;
        while i < ages_secs.len() && ages_secs[i] >= 10
            invariant
                i <= ages_secs@.len(),
                ages_secs@.len() == start.len(),
                self.wf(),
                self.frames() == start.subrange(i as int, start.len() as int),
                self.totals().len() == old(self).totals().len(),
                forall|c: int| 0 <= c < self.totals().len() ==> #[trigger] self.totals()[c] <= old(self).totals()[c],
                self.names() == old(self).names(),
                self.last_time == old(self).last_time,
                forall|j: int| 0 <= j < i ==> #[trigger] ages_secs@[j] >= 10,
            decreases ages_secs@.len() - i,
        {
            let ghost tot_before = self.totals();
            assert(self.times@ == self.frames());
            self.drop_oldest();
            proof {
                assert forall|c: int| 0 <= c < self.totals().len() implies #[trigger] self.totals()[c] <= old(self).totals()[c] by {
                    assert(tot_before[c] <= old(self).totals()[c]);
                }
                assert(self.frames() =~= start.subrange(i + 1, start.len() as int));
            }
            i = i + 1;
        }
        proof {
            lemma_expired_prefix(ages_secs@, i as int);
        }
    }

    /// Drop the frames that are at least 10 seconds old, with their durations
    /// taken off the totals; the frames that stay are a suffix of the previous ones
    fn remove_old(&mut self)
        requires
            old(self).wf(),
        ensures
            final(self).wf(),
            exists|n: int|
                0 <= n <= old(self).frames().len() && final(self).frames() == old(self).frames().subrange(n, old(self).frames().len() as int),
            final(self).totals().len() == old(self).totals().len(),
            forall|c: int| 0 <= c < final(self).totals().len() ==> #[trigger] final(self).totals()[c] <= old(self).totals()[c],
            final(self).names() == old(self).names(),
            final(self).last_time == old(self).last_time,
    {
        let t = now();
        let mut ages: Vec<u64> = Vec::new();
        let mut i: usize = 0;
        while i < self.times.len()
            invariant
                i <= self.times@.len(),
                ages@.len() == i,
            decreases self.times@.len() - i,
        {
            ages.push(whole_secs(&elapsed_between(&t, &self.times[i].0)));
            i = i + 1;
        }
        assert(ages@.len() == self.frames().len());
        self.drop_expired(&ages);
        proof {
            lemma_expired_prefix_bound(ages@);
        }
    }

    /// Record the time since the previous part (or since the frame started) as a
    /// part named `part_name`. A first part starts a new frame. When the frame
    /// being recorded is no longer kept, being at least 10 seconds old, it starts
    /// again with the earlier parts counted as 0.
    pub fn record_part(&mut self, part_name: String)
        requires
            old(self).wf(),
            forall|c: int| 0 <= c < old(self).totals().len() ==> #[trigger] old(self).totals()[c] + max_micros() <= u128::MAX,
        ensures
            final(self).wf(),
            final(self).names() == old(self).names().push(part_name),
            final(self).totals().len() == (if old(self).names().len() < old(self).totals().len() {
                old(self).totals().len() as int
            } else {
                old(self).totals().len() + 1int
            }),
            exists|n: int, t: Instant, d: u128|
                0 <= n <= old(self).frames().len() && d <= max_micros() && #[trigger] recorded(
                    old(self).frames().subrange(n, old(self).frames().len() as int),
                    final(self).frames(),
                    old(self).names().len() as int,
                    t,
                    d,
                ),
    {
        let i = self.part_names.len();
        let ghost frames0 = self.times@;
        self.remove_old();
        self.part_names.push(part_name);
        let ghost kept = self.times@;
        proof {
            if i > 0 && kept.len() > 0 {
                assert(self.frames().last().1@.len() == i);
            }
        }
        let now = now();
        let d = whole_micros(&elapsed_between(&now, &self.last_time));
        self.last_time = now;
        let ghost totals0 = self.total_micros@;
        if i == 0 {
            let capacity = if self.times.len() > 0 {
                self.times[self.times.len() - 1].1.len()
            } else {
                0
            };
            self.times.push_back((now, Vec::with_capacity(capacity)));
            proof {
                assert forall|c: int| 0 <= c < self.total_micros@.len() implies #[trigger] self.total_micros@[c] == part_total(self.times@, c) by {
                    assert(self.times@.drop_last() =~= kept);
                }
            }
        } else if self.times.len() == 0 {
            self.times.push_back((now, vec![0u128; i]));
            proof {
                let z = self.times@.last().1@;
                assert forall|c: int| 0 <= c < z.len() implies z[c] == 0 by {
                    assert(cloned(0u128, z[c]));
                }
                assert forall|c: int| 0 <= c < self.total_micros@.len() implies #[trigger] self.total_micros@[c] == part_total(self.times@, c) by {
                    assert(self.times@.drop_last() =~= kept);
                    assert(part_total(kept, c) == 0);
                }
            }
        }
        let ghost frames1 = self.times@;
        proof {
            assert(frames1.last().1@.len() == i);
            assert forall|c: int| 0 <= c < totals0.len() implies #[trigger] totals0[c] == part_total(frames1, c) by {
                assert(self.total_micros@[c] == part_total(frames1, c));
            }
            assert forall|f: int| 0 <= f < frames1.len() implies (#[trigger] frames1[f]).1@.len() <= totals0.len() by {
                if i == 0 || kept.len() > 0 {
                    if f < kept.len() {
                        assert(frames1[f] == kept[f]);
                        assert(self.frames()[f] == kept[f]);
                    }
                }
            }
        }
        let (t0, mut durations) = self.times.pop_back().unwrap();
        durations.push(d);
        self.times.push_back((t0, durations));
        proof {
            lemma_part_total_nonneg(frames1, i as int);
            if i < totals0.len() {
                assert(totals0[i as int] <= old(self).totals()[i as int]);
            }
        }
        if i < self.total_micros.len() {
            let v = self.total_micros[i] + d;
            self.total_micros.set(i, v);
        } else {
            self.total_micros.push(d);
        }
        proof {
            let f2 = self.times@;
            assert(f2.drop_last() =~= frames1.drop_last());
            assert(f2.last().1@ == frames1.last().1@.push(d));
            assert forall|c: int| 0 <= c < self.total_micros@.len() implies #[trigger] self.total_micros@[c] == part_total(f2, c) by {
                assert(part_total(f2, c) == part_total(frames1.drop_last(), c) + (if 0 <= c < f2.last().1@.len() {
                    f2.last().1@[c] as int
                } else {
                    0
                }));
                assert(part_total(frames1, c) == part_total(frames1.drop_last(), c) + (if 0 <= c < frames1.last().1@.len() {
                    frames1.last().1@[c] as int
                } else {
                    0
                }));
                if c == totals0.len() {
                    lemma_part_total_beyond(frames1.drop_last(), c);
                    assert forall|f: int| 0 <= f < frames1.drop_last().len() implies (#[trigger] frames1.drop_last()[f]).1@.len() <= c by {
                        assert(frames1.drop_last()[f] == frames1[f]);
                    }
                } else {
                    assert(totals0[c] == part_total(frames1, c));
                }
            }
            assert forall|f: int| 0 <= f < f2.len() implies (#[trigger] f2[f]).1@.len() <= self.total_micros@.len() by {
                if f < f2.len() - 1 {
                    assert(f2[f] == frames1[f]);
                }
            }
            if i == 0 {
                assert(f2.last().1@ =~= seq![d]);
                assert(f2.drop_last() =~= kept);
            } else if kept.len() > 0 {
                assert(frames1 == kept);
            } else {
                assert(frames1.last().1@ =~= Seq::new(i as nat, |c: int| 0u128));
            }
            assert(recorded(kept, f2, i as int, now, d));
            let n = choose|n: int| 0 <= n <= frames0.len() && kept == frames0.subrange(n, frames0.len() as int);
            assert(recorded(frames0.subrange(n, frames0.len() as int), f2, i as int, now, d));
            assert(self.frames() == f2);
            assert(self.totals() == self.total_micros@);
        }
    }

    /// The largest running total of a part, in microseconds (0 without parts)
    pub fn largest_total(&self) -> (m: u128)
        ensures
            forall|c: int| 0 <= c < self.totals().len() ==> #[trigger] self.totals()[c] <= m,
            self.totals().len() == 0 ==> m == 0,
            self.totals().len() > 0 ==> exists|c: int| 0 <= c < self.totals().len() && #[trigger] self.totals()[c] == m,
    {
        let mut m: u128 = 0;
        let mut c: usize = 0;
        while c < self.total_micros.len()
            invariant
                c <= self.totals().len(),
                forall|d: int| 0 <= d < c ==> #[trigger] self.totals()[d] <= m,
                c == 0 ==> m == 0,
                c > 0 ==> exists|d: int| 0 <= d < c && #[trigger] self.totals()[d] == m,
            decreases self.totals().len() - c,
        {
            if self.total_micros[c] > m || c == 0 {
                m = self.total_micros[c];
            }
            c = c + 1;
        }
        m
    }

    /// Take the names of the parts recorded in the current frame, with the
    /// running totals of the parts
    pub fn take_parts(&mut self) -> (r: (Vec<String>, Vec<u128>))
        requires
            old(self).wf(),
        ensures
            final(self).wf(),
            r.0@ == old(self).names(),
            r.1@ == old(self).totals(),
            final(self).names().len() == 0,
            final(self).frames() == old(self).frames(),
            final(self).totals() == old(self).totals(),
    {
        let mut names: Vec<String> = Vec::new();
        std::mem::swap(&mut names, &mut self.part_names);
        let totals = self.total_micros.clone();
        (names, totals)
    }
}

/// The frames `fin` after recording a part of index `i` lasting `d` microseconds
/// at instant `t`, from the frames `kept`: a first part starts a new frame at `t`;
/// a later part extends the last frame, or, when no frame is kept, a new frame at
/// `t` where the earlier parts count 0
pub open spec fn recorded(kept: Seq<(Instant, Vec<u128>)>, fin: Seq<(Instant, Vec<u128>)>, i: int, t: Instant, d: u128) -> bool {
    if i == 0 {
        &&& fin.len() == kept.len() + 1
        &&& fin.drop_last() == kept
        &&& fin.last().0 == t
        &&& fin.last().1@ == seq![d]
    } else if kept.len() > 0 {
        &&& fin.len() == kept.len()
        &&& fin.drop_last() == kept.drop_last()
        &&& fin.last().0 == kept.last().0
        &&& fin.last().1@ == kept.last().1@.push(d)
    } else {
        &&& fin.len() == 1
        &&& fin.last().0 == t
        &&& fin.last().1@ == Seq::new(i as nat, |c: int| 0u128).push(d)
    }
}

} // verus!

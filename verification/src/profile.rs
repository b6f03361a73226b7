//! The outcome of one request cycle, and the summary of a run of them.

use crate::response::HTTPSResponse;
use crate::status::{header_code, status_code};
use vstd::prelude::*;
use vstd::relations::*;
use vstd::seq_lib::*;
use vstd::string::*;

verus! {

/// What one request cycle gave: the status code (0 where none was found),
/// whether the response could be decoded, whether the request succeeded, the
/// size of the body in bytes and the time the cycle took in milliseconds.
#[derive(Debug)]
pub struct ProfileData {
    pub code: u32,
    pub parse_success: bool,
    pub request_success: bool,
    pub size: u32,
    pub time: u64,
}

/// The statistics of a run.
#[derive(Debug)]
pub struct Summary {
    pub total: usize,
    pub success: usize,
    pub ratio: usize,
    pub min_size: u32,
    pub max_size: u32,
    pub min_time: u64,
    pub mean_time: u64,
    pub median_time: u64,
    pub max_time: u64,
    pub error_codes: Vec<u32>,
}

/// A run without a single cycle has no statistics.
#[derive(Debug)]
pub struct EmptyInput {}

/// Whether a status code stands for success.
pub open spec fn is_success(code: u32) -> bool {
    200 <= code && code < 400
}

/// Whether a status code is reported as an error: a code that was found and
/// does not stand for success.
pub open spec fn is_error_code(code: u32) -> bool {
    code > 0 && !is_success(code)
}

/// The order of the times.
pub open spec fn at_most() -> spec_fn(u64, u64) -> bool {
    |a: u64, b: u64| a <= b
}

/// The times of the cycles, in the order of the run.
pub open spec fn times_of(profiles: Seq<ProfileData>) -> Seq<u64> {
    Seq::new(profiles.len(), |i: int| profiles[i].time)
}

/// The times of the cycles, from the fastest to the slowest.
pub open spec fn sorted_times(profiles: Seq<ProfileData>) -> Seq<u64> {
    times_of(profiles).sort_by(at_most())
}

/// How many cycles succeeded.
pub open spec fn success_count(profiles: Seq<ProfileData>) -> nat
    decreases profiles.len(),
{
    if profiles.len() == 0 {
        0
    } else {
        success_count(profiles.drop_last()) + if profiles.last().request_success {
            1nat
        } else {
            0nat
        }
    }
}

/// The time that all cycles took together.
pub open spec fn total_time(profiles: Seq<ProfileData>) -> nat
    decreases profiles.len(),
{
    if profiles.len() == 0 {
        0
    } else {
        total_time(profiles.drop_last()) + profiles.last().time as nat
    }
}

/// Whether some cycle ended with this status code.
pub open spec fn has_code(profiles: Seq<ProfileData>, code: u32) -> bool {
    exists|i: int| 0 <= i < profiles.len() && #[trigger] profiles[i].code == code
}

/// Whether some cycle had a body of this size.
pub open spec fn has_size(profiles: Seq<ProfileData>, size: u32) -> bool {
    exists|i: int| 0 <= i < profiles.len() && #[trigger] profiles[i].size == size
}

/// Whether each code is smaller than the next.
pub open spec fn increasing(codes: Seq<u32>) -> bool {
    forall|i: int, j: int| 0 <= i < j < codes.len() ==> codes[i] < codes[j]
}

/// Whether no time is greater than one behind it.
pub open spec fn ascending(times: Seq<u64>) -> bool {
    forall|i: int, j: int| 0 <= i < j < times.len() ==> times[i] <= times[j]
}

/// Whether `codes` lists the error codes of a run: each one once, in
/// increasing order.
pub open spec fn lists_error_codes(codes: Seq<u32>, profiles: Seq<ProfileData>) -> bool {
    &&& increasing(codes)
    &&& forall|code: u32| #[trigger]
        codes.contains(code) <==> is_error_code(code) && has_code(profiles, code)
}

impl ProfileData {
    /// A record is consistent where it counts as a success just when the
    /// response was decoded and its code stands for success, and where an
    /// undecoded response has neither code nor size.
    pub open spec fn consistent(&self) -> bool {
        &&& self.request_success == (self.parse_success && is_success(self.code))
        &&& !self.parse_success ==> self.code == 0 && self.size == 0
    }
}

impl HTTPSResponse {
    /// The number of bytes of the body as a record holds it.
    pub open spec fn body_size(&self) -> u32 {
        (vstd::utf8::encode_utf8(self.body@).len() % 0x1_0000_0000) as u32
    }
}

impl Summary {
    /// Whether these are the statistics of the run `profiles`.
    pub open spec fn describes(&self, profiles: Seq<ProfileData>) -> bool {
        let n = profiles.len() as int;
        &&& n > 0
        &&& self.total == n
        &&& self.success == success_count(profiles)
        &&& self.ratio == success_count(profiles) * 100 / (n as nat)
        &&& has_size(profiles, self.min_size)
        &&& has_size(profiles, self.max_size)
        &&& forall|i: int|
            0 <= i < n ==> self.min_size <= (#[trigger] profiles[i]).size <= self.max_size
        &&& sorted_times(profiles).len() == n
        &&& self.min_time == sorted_times(profiles)[0]
        &&& self.median_time == sorted_times(profiles)[n / 2]
        &&& self.max_time == sorted_times(profiles)[n - 1]
        &&& self.mean_time == total_time(profiles) / (n as nat)
        &&& lists_error_codes(self.error_codes@, profiles)
    }
}

/// The record of a cycle that took `time` milliseconds. Where a response was
/// decoded, the record holds its status code and the size of its body, and
/// counts as a success where the code stands for one. Where none was, the
/// record holds neither and counts as a failure.
pub fn record_cycle(outcome: Option<&HTTPSResponse>, time: u64) -> (record: ProfileData)
    ensures
        record.consistent(),
        record.time == time,
        record.parse_success == outcome is Some,
        outcome is Some ==> record.code == header_code(outcome->Some_0.header_lines(), 0)
            && record.size == outcome->Some_0.body_size(),
        outcome is Some && outcome->Some_0.body@.len() == 0 ==> record.size == 0,
{
    match outcome {
        Some(response) => {
            let code = status_code(&response.header);
            let bytes: usize = response.body.as_str().as_bytes().len();
            let size: u32 = (bytes as u64 % 0x1_0000_0000) as u32;
            proof {
                if response.body@.len() == 0 {
                    assert(vstd::utf8::encode_utf8(response.body@).len() == 0);
                }
            }
            ProfileData {
                code,
                parse_success: true,
                request_success: 200 <= code && code < 400,
                size,
                time,
            }
        },
        None => ProfileData {
            code: 0,
            parse_success: false,
            request_success: false,
            size: 0,
            time,
        },
    }
}

/// The order of the times is total.
proof fn lemma_at_most_total()
    ensures
        total_ordering(at_most()),
{
    assert(reflexive(at_most()));
    assert(antisymmetric(at_most()));
    assert(transitive(at_most()));
    assert(strongly_connected(at_most()));
}

/// The sorted times are the times of the run in another order, none before a
/// smaller one.
pub proof fn lemma_sorted_times(profiles: Seq<ProfileData>)
    ensures
        sorted_times(profiles).len() == profiles.len(),
        sorted_times(profiles).to_multiset() == times_of(profiles).to_multiset(),
        ascending(sorted_times(profiles)),
{
    broadcast use group_to_multiset_ensures;

    lemma_at_most_total();
    times_of(profiles).lemma_sort_by_ensures(at_most());
    let sorted = sorted_times(profiles);
    assert(sorted.len() == sorted.to_multiset().len());
    assert(times_of(profiles).len() == times_of(profiles).to_multiset().len());
    assert forall|i: int, j: int| 0 <= i < j < sorted.len() implies sorted[i] <= sorted[j] by {
        assert(at_most()(sorted[i], sorted[j]));
    }
}

/// No more cycles succeeded than there were.
pub proof fn lemma_success_count(profiles: Seq<ProfileData>)
    ensures
        success_count(profiles) <= profiles.len(),
    decreases profiles.len(),
{
    if profiles.len() > 0 {
        lemma_success_count(profiles.drop_last());
    }
}

/// In the statistics of a run, the successes are no more than the cycles
/// and the ratio is a percentage. It is 100 just when every cycle succeeded.
pub proof fn lemma_ratio_bounds(profiles: Seq<ProfileData>, summary: Summary)
    requires
        summary.describes(profiles),
    ensures
        summary.success <= summary.total,
        summary.ratio <= 100,
        summary.ratio == 100 <==> summary.success == summary.total,
{
    lemma_success_count(profiles);
    let hits = success_count(profiles) as int;
    let count = profiles.len() as int;
    assert(hits * 100 / count <= 100 && (hits * 100 / count == 100 <==> hits == count))
        by (nonlinear_arith)
        requires
            0 <= hits <= count,
            count > 0,
    ;
}

/// In the statistics of a run, no cycle is faster than the fastest or slower
/// than the slowest, both are times of the run, and the median lies between
/// them.
pub proof fn lemma_time_bounds(profiles: Seq<ProfileData>, summary: Summary)
    requires
        summary.describes(profiles),
    ensures
        forall|i: int|
            0 <= i < profiles.len() ==> summary.min_time <= (#[trigger] profiles[i]).time
                <= summary.max_time,
        times_of(profiles).contains(summary.min_time),
        times_of(profiles).contains(summary.median_time),
        times_of(profiles).contains(summary.max_time),
        summary.min_time <= summary.median_time <= summary.max_time,
{
    broadcast use group_to_multiset_ensures;

    lemma_sorted_times(profiles);
    let sorted = sorted_times(profiles);
    let times = times_of(profiles);
    let n = profiles.len() as int;
    assert forall|k: int| 0 <= k < n implies times.contains(#[trigger] sorted[k]) by {
        assert(sorted.contains(sorted[k]));
        assert(sorted.to_multiset().count(sorted[k]) > 0);
        assert(times.to_multiset().count(sorted[k]) > 0);
    }
    assert(times.contains(sorted[0]));
    assert(times.contains(sorted[n / 2]));
    assert(times.contains(sorted[n - 1]));
    assert forall|i: int| 0 <= i < n implies summary.min_time <= (#[trigger] profiles[i]).time
        <= summary.max_time by {
        let time = profiles[i].time;
        assert(times[i] == time);
        assert(times.contains(time));
        assert(times.to_multiset().count(time) > 0);
        assert(sorted.to_multiset().count(time) > 0);
        assert(sorted.contains(time));
        let k = choose|k: int| 0 <= k < sorted.len() && sorted[k] == time;
        assert(sorted[0] <= sorted[k] <= sorted[n - 1]);
    }
}

/// The statistics of a run of one cycle: its time is the fastest, the mean,
/// the median and the slowest, its body is the smallest and the largest, and
/// the ratio is 100 where it succeeded and 0 where it did not.
pub proof fn lemma_single_record(profiles: Seq<ProfileData>, summary: Summary)
    requires
        profiles.len() == 1,
        summary.describes(profiles),
    ensures
        summary.min_time == profiles[0].time,
        summary.mean_time == profiles[0].time,
        summary.median_time == profiles[0].time,
        summary.max_time == profiles[0].time,
        summary.min_size == profiles[0].size,
        summary.max_size == profiles[0].size,
        summary.ratio == if profiles[0].request_success {
            100int
        } else {
            0int
        },
{
    broadcast use group_to_multiset_ensures;

    lemma_sorted_times(profiles);
    let sorted = sorted_times(profiles);
    let times = times_of(profiles);
    assert(sorted.contains(sorted[0]));
    assert(sorted.to_multiset().count(sorted[0]) > 0);
    assert(times.to_multiset().count(sorted[0]) > 0);
    assert(times.contains(sorted[0]));
    assert(times[0] == profiles[0].time);
    assert(profiles.drop_last().len() == 0);
    assert(total_time(profiles.drop_last()) == 0);
    assert(success_count(profiles.drop_last()) == 0);
    assert(profiles.last() == profiles[0]);
}

/// The times of the cycles, from the fastest to the slowest.
pub fn sort_times(profiles: &[ProfileData]) -> (sorted: Vec<u64>)
    ensures
        sorted@ == sorted_times(profiles@),
        sorted@.len() == profiles@.len(),
{
    broadcast use group_to_multiset_ensures;

    let ghost times = times_of(profiles@);
    let n: usize = profiles.len();
    let mut sorted: Vec<u64> = Vec::new();
    let mut i: usize = 0;
    assert(times.take(0) =~= sorted@);
    while i < n
        invariant
            i <= n,
            n == profiles@.len(),
            times == times_of(profiles@),
            sorted@.len() == i,
            ascending(sorted@),
            sorted@.to_multiset() == times.take(i as int).to_multiset(),
        decreases n - i,
    {
        let time: u64 = profiles[i].time;
        let mut at: usize = 0;
        while at < sorted.len() && sorted[at] <= time
            invariant
                at <= sorted@.len(),
                forall|k: int| 0 <= k < at ==> sorted@[k] <= time,
            decreases sorted@.len() - at,
        {
            at += 1;
        }
        let ghost before = sorted@;
        sorted.insert(at, time);
        proof {
            before.insert_ensures(at as int, time);
            to_multiset_insert(before, at as int, time);
            assert(times.take(i + 1) =~= times.take(i as int).push(time));
            to_multiset_build(times.take(i as int), time);
            assert forall|a: int, b: int| 0 <= a < b < sorted@.len() implies sorted@[a]
                <= sorted@[b] by {
                if b < at {
                    assert(sorted@[a] == before[a] && sorted@[b] == before[b]);
                } else if b == at {
                    assert(sorted@[a] == before[a]);
                } else {
                    assert(sorted@[b] == before[b - 1]);
                    if a < at {
                        assert(sorted@[a] == before[a]);
                    } else if a > at {
                        assert(sorted@[a] == before[a - 1]);
                    }
                }
            }
        }
        i += 1;
    }
    proof {
        assert(times.take(n as int) =~= times);
        lemma_at_most_total();
        times.lemma_sort_by_ensures(at_most());
        assert(sorted_by(sorted@, at_most()));
        lemma_sorted_unique(sorted@, times.sort_by(at_most()), at_most());
    }
    sorted
}

/// How many cycles of the run succeeded.
pub fn count_success(profiles: &[ProfileData]) -> (count: usize)
    ensures
        count == success_count(profiles@),
        count <= profiles@.len(),
{
    let n: usize = profiles.len();
    let mut count: usize = 0;
    let mut i: usize = 0;
    while i < n
        invariant
            i <= n,
            n == profiles@.len(),
            count <= i,
            count == success_count(profiles@.take(i as int)),
        decreases n - i,
    {
        assert(profiles@.take(i + 1).drop_last() =~= profiles@.take(i as int));
        if profiles[i].request_success {
            count += 1;
        }
        i += 1;
    }
    assert(profiles@.take(n as int) =~= profiles@);
    count
}

/// The time that the cycles of the run took together.
pub fn sum_times(profiles: &[ProfileData]) -> (sum: u128)
    ensures
        sum == total_time(profiles@),
        sum <= profiles@.len() * u64::MAX,
{
    let n: usize = profiles.len();
    let mut sum: u128 = 0;
    let mut i: usize = 0;
    while i < n
        invariant
            i <= n,
            n == profiles@.len(),
            sum <= i * u64::MAX,
            sum == total_time(profiles@.take(i as int)),
        decreases n - i,
    {
        assert(profiles@.take(i + 1).drop_last() =~= profiles@.take(i as int));
        assert((i + 1) * u64::MAX == i * u64::MAX + u64::MAX) by (nonlinear_arith);
        assert(i * u64::MAX <= 0xffff_ffff_ffff_ffff * 0xffff_ffff_ffff_ffff) by (nonlinear_arith)
            requires
                i <= 0xffff_ffff_ffff_ffff,
        ;
        sum = sum + profiles[i].time as u128;
        i += 1;
    }
    assert(profiles@.take(n as int) =~= profiles@);
    sum
}

/// Puts a code into a list that is in increasing order, unless it is there.
fn insert_code(codes: &mut Vec<u32>, code: u32)
    requires
        increasing(old(codes)@),
    ensures
        increasing(final(codes)@),
        forall|c: u32| #[trigger]
            final(codes)@.contains(c) <==> old(codes)@.contains(c) || c == code,
{
    let mut at: usize = 0;
    while at < codes.len() && codes[at] < code
        invariant
            at <= codes@.len(),
            *codes == *old(codes),
            forall|k: int| 0 <= k < at ==> codes@[k] < code,
        decreases codes@.len() - at,
    {
        at += 1;
    }
    if at < codes.len() && codes[at] == code {
        assert(codes@.contains(code));
        return ;
    }
    let ghost before = codes@;
    codes.insert(at, code);
    proof {
        before.insert_ensures(at as int, code);
        let after = codes@;
        assert forall|a: int, b: int| 0 <= a < b < after.len() implies after[a] < after[b] by {
            if b < at {
                assert(after[a] == before[a] && after[b] == before[b]);
            } else if b == at {
                assert(after[a] == before[a]);
            } else {
                assert(after[b] == before[b - 1]);
                if a < at {
                    assert(after[a] == before[a]);
                } else if a > at {
                    assert(after[a] == before[a - 1]);
                }
            }
        }
        assert forall|c: u32| #[trigger] after.contains(c) <==> before.contains(c) || c == code by {
            if after.contains(c) {
                let k = choose|k: int| 0 <= k < after.len() && after[k] == c;
                if k < at {
                    assert(before[k] == c);
                } else if k > at {
                    assert(before[k - 1] == c);
                }
            }
            if before.contains(c) {
                let k = choose|k: int| 0 <= k < before.len() && before[k] == c;
                if k < at {
                    assert(after[k] == c);
                } else {
                    assert(after[k + 1] == c);
                }
            }
            if c == code {
                assert(after[at as int] == c);
            }
        }
    }
}

/// The status codes of the run that are reported as errors, each once, in
/// increasing order.
pub fn error_codes(profiles: &[ProfileData]) -> (codes: Vec<u32>)
    ensures
        lists_error_codes(codes@, profiles@),
{
    let n: usize = profiles.len();
    let mut codes: Vec<u32> = Vec::new();
    let mut i: usize = 0;
    while i < n
        invariant
            i <= n,
            n == profiles@.len(),
            lists_error_codes(codes@, profiles@.take(i as int)),
        decreases n - i,
    {
        let code: u32 = profiles[i].code;
        let ghost before = codes@;
        if code > 0 && !(200 <= code && code < 400) {
            insert_code(&mut codes, code);
        }
        proof {
            let seen = profiles@.take(i as int);
            let now = profiles@.take(i + 1);
            assert(now[i as int].code == code);
            assert forall|c: u32| has_code(now, c) <==> has_code(seen, c) || c == code by {
                if has_code(now, c) {
                    let k = choose|k: int| 0 <= k < now.len() && #[trigger] now[k].code == c;
                    if k < i {
                        assert(seen[k].code == c);
                    }
                }
                if has_code(seen, c) {
                    let k = choose|k: int| 0 <= k < seen.len() && #[trigger] seen[k].code == c;
                    assert(now[k].code == c);
                }
            }
            assert forall|c: u32| #[trigger]
                codes@.contains(c) <==> is_error_code(c) && has_code(now, c) by {
                assert(before.contains(c) <==> is_error_code(c) && has_code(seen, c));
            }
        }
        i += 1;
    }
    assert(profiles@.take(n as int) =~= profiles@);
    codes
}

/// The smallest and the largest body of a run of at least one cycle.
fn size_range(profiles: &[ProfileData]) -> (range: (u32, u32))
    requires
        profiles@.len() > 0,
    ensures
        has_size(profiles@, range.0),
        has_size(profiles@, range.1),
        forall|i: int|
            0 <= i < profiles@.len() ==> range.0 <= (#[trigger] profiles@[i]).size <= range.1,
{
    let n: usize = profiles.len();
    let mut least: u32 = profiles[0].size;
    let mut most: u32 = profiles[0].size;
    let mut i: usize = 1;
    while i < n
        invariant
            1 <= i <= n,
            n == profiles@.len(),
            has_size(profiles@, least),
            has_size(profiles@, most),
            forall|k: int| 0 <= k < i ==> least <= (#[trigger] profiles@[k]).size <= most,
        decreases n - i,
    {
        let size: u32 = profiles[i].size;
        if size < least {
            least = size;
        }
        if size > most {
            most = size;
        }
        i += 1;
    }
    (least, most)
}

/// The statistics of a run: how many cycles there were, how many of them
/// succeeded and what percentage that is, rounded down; the smallest and the
/// largest body; the fastest and the slowest cycle, the mean of the times,
/// rounded down, and their median, which for an even number of cycles is the
/// upper one of the two in the middle; and the error codes that were seen.
/// A run without a cycle is refused.
pub fn analyze(profiles: &[ProfileData]) -> (report: Result<Summary, EmptyInput>)
    ensures
        profiles@.len() == 0 ==> report is Err,
        profiles@.len() > 0 ==> report is Ok && report->Ok_0.describes(profiles@),
{
    let n: usize = profiles.len();
    if n == 0 {
        return Err(EmptyInput {  });
    }
    let times = sort_times(profiles);
    let success = count_success(profiles);
    let sum = sum_times(profiles);
    let (min_size, max_size) = size_range(profiles);
    let codes = error_codes(profiles);
    let percent: u128 = success as u128 * 100 / n as u128;
    let mean: u128 = sum / n as u128;
    proof {
        let count = n as int;
        let hits = success as int;
        let all = sum as int;
        assert(hits * 100 / count <= 100) by (nonlinear_arith)
            requires
                0 <= hits <= count,
                count > 0,
        ;
        assert(all / count <= u64::MAX) by (nonlinear_arith)
            requires
                0 <= all <= count * u64::MAX,
                count > 0,
        ;
    }
    Ok(
        Summary {
            total: n,
            success,
            ratio: percent as usize,
            min_size,
            max_size,
            min_time: times[0],
            mean_time: mean as u64,
            median_time: times[n / 2],
            max_time: times[n - 1],
            error_codes: codes,
        },
    )
}

} // verus!

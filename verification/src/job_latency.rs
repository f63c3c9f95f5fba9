//! Latency samples: read from the payloads of structured records, collected
//! by job, and summarized.

use vstd::prelude::*;
use vstd::string::StringExecFns;
use crate::chart::chart;
use crate::chart::render_chart;
use crate::json::json_member;
use crate::json::json_text;
use crate::json::json_u64;
use crate::json::member;
use crate::log_line::LogLine;
use crate::log_line::LineView;
use crate::ordered::views;
use crate::text::str_eq;
use crate::text::decimal;
use crate::text::append_decimal;

verus! {

/// The sum of some durations.
pub open spec fn total(values: Seq<u64>) -> nat
    decreases values.len(),
{
    if values.len() == 0 {
        0
    } else {
        total(values.drop_last()) + values.last() as nat
    }
}

/// The largest of some durations; 0 where there is none.
pub open spec fn largest(values: Seq<u64>) -> u64
    decreases values.len(),
{
    if values.len() == 0 {
        0
    } else if values.last() > largest(values.drop_last()) {
        values.last()
    } else {
        largest(values.drop_last())
    }
}

/// No duration is followed by a smaller one.
pub open spec fn ascending(values: Seq<u64>) -> bool {
    forall|i: int, j: int| 0 <= i <= j < values.len() ==> values[i] <= values[j]
}

proof fn lemma_largest(values: Seq<u64>)
    requires
        values.len() > 0,
    ensures
        values.contains(largest(values)),
        forall|i: int| 0 <= i < values.len() ==> values[i] <= largest(values),
    decreases values.len(),
{
    let init = values.drop_last();
    let m = largest(values);
    if m == values.last() {
        assert(values[values.len() - 1] == m);
    } else if init.len() == 0 {
        assert(largest(init) == 0);
    }
    if init.len() > 0 {
        lemma_largest(init);
        if m != values.last() {
            let k = choose|k: int| 0 <= k < init.len() && init[k] == largest(init);
            assert(values[k] == m);
        }
        assert forall|i: int| 0 <= i < values.len() implies values[i] <= m by {
            if i < init.len() {
                assert(init[i] == values[i]);
            }
        }
    }
}

proof fn lemma_total_bounded(values: Seq<u64>)
    ensures
        total(values) <= values.len() * u64::MAX,
    decreases values.len(),
{
    if values.len() > 0 {
        lemma_total_bounded(values.drop_last());
    }
}

/// `<[u64]>::sort` of the standard library, through `Vec`: afterwards the
/// vector holds the same durations, each as often as before, in ascending
/// order.
#[verifier::external_body]
fn sort_durations(values: &mut Vec<u64>)
    ensures
        final(values)@.to_multiset() == old(values)@.to_multiset(),
        ascending(final(values)@),
{
    values.sort();
}

/// The durations of one job: run times and wait times, one of each for every
/// sample.
pub struct JobLatencyCollection {
    pub run: Vec<u64>,
    pub wait: Vec<u64>,
}

/// The summary of one job as the latency report prints it: the largest run
/// and wait durations, the two means as the caller has formatted them, and
/// the chart of each distribution.  A job without samples prints nothing.
pub open spec fn stats_text(
    job: Seq<char>,
    run: Seq<u64>,
    wait: Seq<u64>,
    ave_run: Seq<char>,
    ave_wait: Seq<char>,
) -> Seq<char> {
    if run.len() == 0 {
        Seq::empty()
    } else {
        "Job: "@ + job + ": Max Run: "@ + decimal(largest(run) as nat) + " Max Wait: "@ + decimal(
            largest(wait) as nat,
        ) + " Ave Run: "@ + ave_run + " Ave Wait: "@ + ave_wait + seq!['\n'] + "Run histogram:\n"@
            + chart(run) + seq!['\n'] + "Wait histogram:\n"@ + chart(wait) + seq!['\n', '\n']
    }
}

fn sum_of(values: &Vec<u64>) -> (sum: u128)
    ensures
        sum == total(values@),
{
    let mut sum: u128 = 0;
    let mut i: usize = 0;
    while i < values.len()
        invariant
            i <= values.len(),
            sum == total(values@.take(i as int)),
        decreases values.len() - i,
    {
        proof {
            assert(values@.take(i + 1).drop_last() =~= values@.take(i as int));
            lemma_total_bounded(values@.take(i as int));
        }
        sum = sum + values[i] as u128;
        i += 1;
    }
    proof {
        assert(values@.take(i as int) =~= values@);
    }
    sum
}

fn sorted_largest(values: &mut Vec<u64>) -> (m: u64)
    requires
        old(values).len() > 0,
    ensures
        m == largest(old(values)@),
        final(values)@.len() == old(values)@.len(),
        final(values)@.to_multiset() == old(values)@.to_multiset(),
        ascending(final(values)@),
{
    broadcast use vstd::seq_lib::to_multiset_len;

    sort_durations(values);
    proof {
        assert(values@.len() == old(values)@.len()) by {
            assert(values@.to_multiset().len() == values@.len());
            assert(old(values)@.to_multiset().len() == old(values)@.len());
        }
    }
    let m = values[values.len() - 1];
    proof {
        let before = old(values)@;
        let after = values@;
        lemma_largest(before);
        assert(after.contains(m)) by {
            assert(after[after.len() - 1] == m);
        }
        vstd::seq_lib::to_multiset_contains(before, m);
        vstd::seq_lib::to_multiset_contains(after, m);
        vstd::seq_lib::to_multiset_contains(before, largest(before));
        vstd::seq_lib::to_multiset_contains(after, largest(before));
        assert(before.contains(m));
        assert(after.contains(largest(before)));
        let k = choose|k: int| 0 <= k < after.len() && after[k] == largest(before);
        assert(after[k] <= after[after.len() - 1]);
        let j = choose|j: int| 0 <= j < before.len() && before[j] == m;
        assert(before[j] <= largest(before));
    }
    m
}

impl JobLatencyCollection {
    /// Every sample has both durations: there are as many run durations as
    /// wait durations.
    pub open spec fn wf(&self) -> bool {
        self.run.len() == self.wait.len()
    }

    /// A collection without samples.
    pub fn new() -> (c: JobLatencyCollection)
        ensures
            c.wf(),
            c.run@.len() == 0,
    {
        JobLatencyCollection { run: Vec::new(), wait: Vec::new() }
    }

    /// The sums of the run durations and of the wait durations.
    pub fn totals(&self) -> (t: (u128, u128))
        ensures
            t.0 == total(self.run@),
            t.1 == total(self.wait@),
    {
        (sum_of(&self.run), sum_of(&self.wait))
    }

    /// Sorts the durations and appends the job's summary to `out`: a line
    /// with the largest durations and the means, then the chart of the run
    /// durations and that of the wait durations.
    ///
    /// The means come from the caller as text: `ave_run` and `ave_wait`.
    pub fn write_stats(&mut self, job_name: &str, ave_run: &str, ave_wait: &str, out: &mut String)
        requires
            old(self).wf(),
        ensures
            final(self).wf(),
            final(self).run@.to_multiset() == old(self).run@.to_multiset(),
            final(self).wait@.to_multiset() == old(self).wait@.to_multiset(),
            old(self).run.len() > 0 ==> ascending(final(self).run@) && ascending(
                final(self).wait@,
            ),
            final(out)@ == old(out)@ + stats_text(
                job_name@,
                old(self).run@,
                old(self).wait@,
                ave_run@,
                ave_wait@,
            ),
    {
        if self.run.len() == 0 {
            proof {
                assert(out@ + Seq::<char>::empty() =~= out@);
            }
            return ;
        }
        let run_chart = render_chart(&self.run);
        let wait_chart = render_chart(&self.wait);
        let run_max = sorted_largest(&mut self.run);
        let wait_max = sorted_largest(&mut self.wait);
        proof {
            reveal_strlit("\n");
            reveal_strlit("\n\n");
            assert("\n"@ =~= seq!['\n']);
            assert("\n\n"@ =~= seq!['\n', '\n']);
        }
        out.append("Job: ");
        out.append(job_name);
        out.append(": Max Run: ");
        append_decimal(out, run_max as u128);
        out.append(" Max Wait: ");
        append_decimal(out, wait_max as u128);
        out.append(" Ave Run: ");
        out.append(ave_run);
        out.append(" Ave Wait: ");
        out.append(ave_wait);
        out.append("\n");
        out.append("Run histogram:\n");
        out.append(run_chart.as_str());
        out.append("\n");
        out.append("Wait histogram:\n");
        out.append(wait_chart.as_str());
        out.append("\n\n");
        proof {
            assert(out@ =~= old(out)@ + stats_text(
                job_name@,
                old(self).run@,
                old(self).wait@,
                ave_run@,
                ave_wait@,
            ));
        }
    }
}

/// A latency sample: a job's name with one run duration and one wait
/// duration, in milliseconds.
pub struct JobLatency {
    pub job: String,
    pub run: u64,
    pub wait: u64,
}

/// The content of a latency sample.
pub struct Sample {
    pub job: Seq<char>,
    pub run: u64,
    pub wait: u64,
}

impl View for JobLatency {
    type V = Sample;

    open spec fn view(&self) -> Sample {
        Sample { job: self.job@, run: self.run, wait: self.wait }
    }
}

/// The text under `key` of an object, where there is one.
pub open spec fn text_member(v: serde_json::Value, key: Seq<char>) -> Option<Seq<char>> {
    match json_member(v, key) {
        Some(m) => json_text(m),
        None => None,
    }
}

/// The number under `key` of an object, where there is one that fits `u64`.
pub open spec fn u64_member(v: serde_json::Value, key: Seq<char>) -> Option<u64> {
    match json_member(v, key) {
        Some(m) => json_u64(m),
        None => None,
    }
}

/// The sample made of three fields, where none of them is missing.
pub open spec fn sample_from(job: Option<Seq<char>>, run: Option<u64>, wait: Option<u64>) -> Option<
    Sample,
> {
    match (job, run, wait) {
        (Some(job), Some(run), Some(wait)) => Some(Sample { job, run, wait }),
        _ => None,
    }
}

/// The sample that a payload holds: the text under `job` and the numbers
/// under `run(ms)` and `wait(ms)`.  `None` where one of them is missing or of
/// another kind.
pub open spec fn sample_of(v: serde_json::Value) -> Option<Sample> {
    sample_from(text_member(v, "job"@), u64_member(v, "run(ms)"@), u64_member(v, "wait(ms)"@))
}

/// The text of a job's name as it was read.
pub open spec fn name_view(job: Option<String>) -> Option<Seq<char>> {
    match job {
        Some(j) => Some(j@),
        None => None,
    }
}

impl JobLatency {
    /// Makes a sample of the three fields read from a payload.  A missing
    /// field gives no sample.
    pub fn from_fields(job: Option<String>, run: Option<u64>, wait: Option<u64>) -> (r: Option<
        JobLatency,
    >)
        ensures
            match r {
                Some(l) => sample_from(name_view(job), run, wait) == Some(l@),
                None => sample_from(name_view(job), run, wait) is None,
            },
    {
        match job {
            Some(job) => match run {
                Some(run) => match wait {
                    Some(wait) => Some(JobLatency { job, run, wait }),
                    None => None,
                },
                None => None,
            },
            None => None,
        }
    }

    /// Reads a sample from a payload.
    pub fn from_json_value(v: serde_json::Value) -> (r: Option<JobLatency>)
        ensures
            match r {
                Some(l) => sample_of(v) == Some(l@),
                None => sample_of(v) is None,
            },
    {
        let job: Option<String> = match member(&v, "job") {
            Some(m) => match m.as_str() {
                Some(s) => Some(s.to_owned()),
                None => None,
            },
            None => None,
        };
        let run: Option<u64> = match member(&v, "run(ms)") {
            Some(m) => m.as_u64(),
            None => None,
        };
        let wait: Option<u64> = match member(&v, "wait(ms)") {
            Some(m) => m.as_u64(),
            None => None,
        };
        JobLatency::from_fields(job, run, wait)
    }
}

/// Whether a record reports a job's latency.
pub open spec fn is_latency_event(l: LineView) -> bool {
    l.msg == "Job latency"@
}

/// The sample that a record carries, where its payload is valid and holds one.
pub open spec fn line_sample(l: LineView) -> Option<Sample> {
    match l.payload() {
        Some(v) => sample_of(v),
        None => None,
    }
}

/// The samples of the latency events among the first `n` records, in order.
pub open spec fn samples(lines: Seq<LineView>, n: int) -> Seq<Sample>
    decreases n,
{
    if n <= 0 {
        Seq::empty()
    } else if is_latency_event(lines[n - 1]) && line_sample(lines[n - 1]) is Some {
        samples(lines, n - 1).push(line_sample(lines[n - 1])->0)
    } else {
        samples(lines, n - 1)
    }
}

/// The latency events among the first `n` records that carry no sample.
pub open spec fn bad_events(lines: Seq<LineView>, n: int) -> Seq<LineView>
    decreases n,
{
    if n <= 0 {
        Seq::empty()
    } else if is_latency_event(lines[n - 1]) && line_sample(lines[n - 1]) is None {
        bad_events(lines, n - 1).push(lines[n - 1])
    } else {
        bad_events(lines, n - 1)
    }
}

/// The names of the jobs of the first `n` samples, each once, in the order
/// in which they first occur.
pub open spec fn job_names(s: Seq<Sample>, n: int) -> Seq<Seq<char>>
    decreases n,
{
    if n <= 0 {
        Seq::empty()
    } else if job_names(s, n - 1).contains(s[n - 1].job) {
        job_names(s, n - 1)
    } else {
        job_names(s, n - 1).push(s[n - 1].job)
    }
}

/// The run durations of `job` among the first `n` samples, in order.
pub open spec fn runs_of(s: Seq<Sample>, n: int, job: Seq<char>) -> Seq<u64>
    decreases n,
{
    if n <= 0 {
        Seq::empty()
    } else if s[n - 1].job == job {
        runs_of(s, n - 1, job).push(s[n - 1].run)
    } else {
        runs_of(s, n - 1, job)
    }
}

/// The wait durations of `job` among the first `n` samples, in order.
pub open spec fn waits_of(s: Seq<Sample>, n: int, job: Seq<char>) -> Seq<u64>
    decreases n,
{
    if n <= 0 {
        Seq::empty()
    } else if s[n - 1].job == job {
        waits_of(s, n - 1, job).push(s[n - 1].wait)
    } else {
        waits_of(s, n - 1, job)
    }
}

/// The durations collected for one job.
pub struct JobStats {
    pub job: String,
    pub samples: JobLatencyCollection,
}

/// The content of the durations collected for one job.
pub struct JobSamples {
    pub job: Seq<char>,
    pub run: Seq<u64>,
    pub wait: Seq<u64>,
}

impl View for JobStats {
    type V = JobSamples;

    open spec fn view(&self) -> JobSamples {
        JobSamples { job: self.job@, run: self.samples.run@, wait: self.samples.wait@ }
    }
}

/// The first `n` samples collected by job: one entry for each job, in the
/// order in which the jobs first occur, with that job's durations in the
/// order of the samples.
pub open spec fn collected(s: Seq<Sample>, n: int) -> Seq<JobSamples> {
    Seq::new(
        job_names(s, n).len(),
        |i: int|
            JobSamples {
                job: job_names(s, n)[i],
                run: runs_of(s, n, job_names(s, n)[i]),
                wait: waits_of(s, n, job_names(s, n)[i]),
            },
    )
}

proof fn lemma_names(s: Seq<Sample>, n: int)
    requires
        0 <= n <= s.len(),
    ensures
        forall|i: int, j: int|
            0 <= i < j < job_names(s, n).len() ==> job_names(s, n)[i] != job_names(s, n)[j],
        forall|k: int| 0 <= k < n ==> job_names(s, n).contains(#[trigger] s[k].job),
        forall|job: Seq<char>|
            !job_names(s, n).contains(job) ==> (#[trigger] runs_of(s, n, job)).len() == 0,
        forall|job: Seq<char>|
            job_names(s, n).contains(job) ==> (#[trigger] runs_of(s, n, job)).len() > 0,
        forall|job: Seq<char>|
            (#[trigger] runs_of(s, n, job)).len() == waits_of(s, n, job).len(),
    decreases n,
{
    if n > 0 {
        lemma_names(s, n - 1);
        let before = job_names(s, n - 1);
        let now = job_names(s, n);
        let x = s[n - 1].job;
        if !before.contains(x) {
            assert(now[before.len() as int] == x);
            assert forall|i: int, j: int| 0 <= i < j < now.len() implies now[i] != now[j] by {
                if j == before.len() {
                    assert(before.contains(before[i]));
                }
            }
        }
        assert forall|job: Seq<char>| before.contains(job) implies now.contains(job) by {
            let k = choose|k: int| 0 <= k < before.len() && before[k] == job;
            assert(now[k] == job);
        }
        assert(now.contains(x)) by {
            if !before.contains(x) {
                assert(now[before.len() as int] == x);
            }
        }
        assert forall|job: Seq<char>| now.contains(job) implies before.contains(job) || job
            == x by {
            let k = choose|k: int| 0 <= k < now.len() && now[k] == job;
            if k < before.len() {
                assert(before[k] == job);
            }
        }
        assert forall|job: Seq<char>| !now.contains(job) implies (#[trigger] runs_of(
            s,
            n,
            job,
        )).len() == 0 by {
            assert(runs_of(s, n - 1, job).len() == 0);
        }
        assert forall|job: Seq<char>| now.contains(job) implies (#[trigger] runs_of(
            s,
            n,
            job,
        )).len() > 0 by {
            if job != x {
                assert(runs_of(s, n - 1, job).len() > 0);
            }
        }
        assert forall|job: Seq<char>|
            (#[trigger] runs_of(s, n, job)).len() == waits_of(s, n, job).len() by {
            assert(runs_of(s, n - 1, job).len() == waits_of(s, n - 1, job).len());
        }
    } else {
        assert forall|job: Seq<char>| !job_names(s, n).contains(job) by {}
    }
}

proof fn lemma_collected_prefix(s1: Seq<Sample>, s2: Seq<Sample>, n: int)
    requires
        n <= s1.len(),
        n <= s2.len(),
        forall|k: int| 0 <= k < n ==> s1[k] == s2[k],
    ensures
        job_names(s1, n) == job_names(s2, n),
        forall|job: Seq<char>| #[trigger] runs_of(s1, n, job) == runs_of(s2, n, job),
        forall|job: Seq<char>| #[trigger] waits_of(s1, n, job) == waits_of(s2, n, job),
        collected(s1, n) == collected(s2, n),
    decreases n,
{
    if n > 0 {
        lemma_collected_prefix(s1, s2, n - 1);
        assert forall|job: Seq<char>| #[trigger] runs_of(s1, n, job) == runs_of(s2, n, job) by {
            assert(runs_of(s1, n - 1, job) == runs_of(s2, n - 1, job));
        }
        assert forall|job: Seq<char>| #[trigger] waits_of(s1, n, job) == waits_of(s2, n, job) by {
            assert(waits_of(s1, n - 1, job) == waits_of(s2, n - 1, job));
        }
    }
    assert(collected(s1, n) =~= collected(s2, n));
}

fn push_sample(entry: &mut JobStats, run: u64, wait: u64)
    ensures
        final(entry).job == old(entry).job,
        final(entry).samples.run@ == old(entry).samples.run@.push(run),
        final(entry).samples.wait@ == old(entry).samples.wait@.push(wait),
{
    entry.samples.run.push(run);
    entry.samples.wait.push(wait);
}

fn add_sample(jobs: &mut Vec<JobStats>, sample: &JobLatency, Ghost(s): Ghost<Seq<Sample>>)
    requires
        s.len() > 0,
        s.last() == sample@,
        views(old(jobs)@) == collected(s, s.len() - 1),
    ensures
        views(final(jobs)@) == collected(s, s.len() as int),
{
    let ghost n = s.len() - 1;
    let ghost names = job_names(s, n);
    proof {
        lemma_names(s, n);
        lemma_names(s, n + 1);
    }
    let mut i: usize = 0;
    proof {
        assert(views(jobs@).len() == jobs.len());
    }
    while i < jobs.len()
        invariant
            i <= jobs.len(),
            n == s.len() - 1,
            s.last() == sample@,
            views(jobs@) == collected(s, n),
            names == job_names(s, n),
            jobs.len() == names.len(),
            forall|k: int| 0 <= k < i ==> names[k] != sample.job@,
            forall|a: int, b: int| 0 <= a < b < names.len() ==> names[a] != names[b],
        decreases jobs.len() - i,
    {
        proof {
            assert(views(jobs@)[i as int] == collected(s, n)[i as int]);
            assert(jobs[i as int].job@ == names[i as int]);
        }
        if str_eq(jobs[i].job.as_str(), sample.job.as_str()) {
            let ghost before = views(jobs@);
            proof {
                assert(names[i as int] == sample.job@);
                assert(names.contains(sample.job@));
            }
            push_sample(&mut jobs[i], sample.run, sample.wait);
            proof {
                let after = views(jobs@);
                let want = collected(s, n + 1);
                assert(job_names(s, n + 1) == names);
                assert(after.len() == want.len());
                assert forall|k: int| 0 <= k < after.len() implies after[k] == want[k] by {
                    assert(before[k] == collected(s, n)[k]);
                    if k != i {
                        assert(names[k] != names[i as int]);
                        assert(runs_of(s, n + 1, names[k]) == runs_of(s, n, names[k]));
                        assert(waits_of(s, n + 1, names[k]) == waits_of(s, n, names[k]));
                    } else {
                        assert(runs_of(s, n + 1, names[k]) == runs_of(s, n, names[k]).push(
                            sample.run,
                        ));
                        assert(waits_of(s, n + 1, names[k]) == waits_of(s, n, names[k]).push(
                            sample.wait,
                        ));
                    }
                }
                assert(after =~= want);
            }
            return ;
        }
        i += 1;
    }
    proof {
        assert(!names.contains(sample.job@)) by {
            if names.contains(sample.job@) {
                let k = choose|k: int| 0 <= k < names.len() && names[k] == sample.job@;
                assert(names[k] != sample.job@);
            }
        }
    }
    let ghost before = views(jobs@);
    let mut samples = JobLatencyCollection::new();
    samples.run.push(sample.run);
    samples.wait.push(sample.wait);
    jobs.push(JobStats { job: sample.job.clone(), samples });
    proof {
        let after = views(jobs@);
        let want = collected(s, n + 1);
        assert(job_names(s, n + 1) == names.push(sample.job@));
        assert(after.len() == want.len());
        assert forall|k: int| 0 <= k < after.len() implies after[k] == want[k] by {
            if k < before.len() {
                assert(before[k] == collected(s, n)[k]);
                assert(names.contains(names[k]));
                assert(runs_of(s, n + 1, names[k]) == runs_of(s, n, names[k]));
                assert(waits_of(s, n + 1, names[k]) == waits_of(s, n, names[k]));
            } else {
                assert(runs_of(s, n, sample.job@).len() == 0);
                assert(waits_of(s, n, sample.job@).len() == 0);
                assert(runs_of(s, n, sample.job@) =~= Seq::<u64>::empty());
                assert(waits_of(s, n, sample.job@) =~= Seq::<u64>::empty());
                assert(after[k].run =~= seq![sample.run]);
                assert(after[k].wait =~= seq![sample.wait]);
            }
        }
        assert(after =~= want);
    }
}

/// Collects samples by job: one entry for each job, in the order in which
/// the jobs first occur, each with its durations in the order of the samples.
pub fn collect_samples(samples: &Vec<JobLatency>) -> (jobs: Vec<JobStats>)
    ensures
        views(jobs@) == collected(views(samples@), samples.len() as int),
        forall|j: int|
            0 <= j < jobs.len() ==> (#[trigger] jobs[j]).samples.wf() && jobs[j].samples.run.len()
                > 0,
{
    let ghost sv = views(samples@);
    let mut jobs: Vec<JobStats> = Vec::new();
    let mut i: usize = 0;
    proof {
        assert(views(jobs@) =~= collected(sv, 0));
    }
    while i < samples.len()
        invariant
            i <= samples.len(),
            sv == views(samples@),
            views(jobs@) == collected(sv, i as int),
        decreases samples.len() - i,
    {
        proof {
            assert(sv.take(i + 1).last() == samples[i as int]@);
            lemma_collected_prefix(sv, sv.take(i + 1), i as int);
            lemma_collected_prefix(sv, sv.take(i + 1), i + 1);
        }
        add_sample(&mut jobs, &samples[i], Ghost(sv.take(i + 1)));
        i += 1;
    }
    proof {
        lemma_names(sv, sv.len() as int);
        assert forall|j: int| 0 <= j < jobs.len() implies (#[trigger] jobs[j]).samples.wf()
            && jobs[j].samples.run.len() > 0 by {
            assert(views(jobs@)[j] == collected(sv, sv.len() as int)[j]);
            assert(job_names(sv, sv.len() as int).contains(job_names(sv, sv.len() as int)[j]));
        }
    }
    jobs
}

/// What the latency stage hands back: the durations collected for each job,
/// and the latency events that carried no sample.
pub struct LatencyReport<'a> {
    pub jobs: Vec<JobStats>,
    pub errors: Vec<LogLine<'a>>,
}

/// Collects the latency samples of the records by job.
///
/// A record is a latency event when its message is `Job latency`.  Its
/// payload must be valid JSON and hold the job's name and both durations;
/// an event that does not is set aside as an error.
pub fn job_latency_stats<'a>(log_lines: &Vec<LogLine<'a>>) -> (r: LatencyReport<'a>)
    ensures
        views(r.jobs@) == collected(
            samples(views(log_lines@), log_lines.len() as int),
            samples(views(log_lines@), log_lines.len() as int).len() as int,
        ),
        views(r.errors@) == bad_events(views(log_lines@), log_lines.len() as int),
        forall|j: int|
            0 <= j < r.jobs.len() ==> (#[trigger] r.jobs[j]).samples.wf()
                && r.jobs[j].samples.run.len() > 0,
{
    let ghost lv = views(log_lines@);
    let mut found: Vec<JobLatency> = Vec::new();
    let mut errors: Vec<LogLine<'a>> = Vec::new();
    let mut i: usize = 0;
    proof {
        assert(views(found@) =~= samples(lv, 0));
        assert(views(errors@) =~= bad_events(lv, 0));
    }
    while i < log_lines.len()
        invariant
            i <= log_lines.len(),
            lv == views(log_lines@),
            views(found@) == samples(lv, i as int),
            views(errors@) == bad_events(lv, i as int),
        decreases log_lines.len() - i,
    {
        let l = log_lines[i];
        let ghost seen = views(found@);
        let ghost failed = views(errors@);
        proof {
            assert(lv[i as int] == l@);
        }
        if str_eq(l.msg, "Job latency") {
            let sample = match l.data_to_json_value() {
                Some(v) => JobLatency::from_json_value(v),
                None => None,
            };
            match sample {
                Some(x) => {
                    found.push(x);
                    proof {
                        assert(views(found@) =~= seen.push(x@));
                    }
                },
                None => {
                    errors.push(l);
                    proof {
                        assert(views(errors@) =~= failed.push(l@));
                    }
                },
            }
        }
        i += 1;
    }
    let jobs = collect_samples(&found);
    LatencyReport { jobs, errors }
}

/// Each job's entry holds the durations of exactly the samples of that job,
/// and no job has two entries.
pub proof fn lemma_collected_by_job(s: Seq<Sample>)
    ensures
        forall|i: int, j: int|
            0 <= i < j < collected(s, s.len() as int).len() ==> collected(s, s.len() as int)[i].job
                != collected(s, s.len() as int)[j].job,
        forall|k: int|
            0 <= k < s.len() ==> exists|i: int|
                0 <= i < collected(s, s.len() as int).len() && collected(s, s.len() as int)[i].job
                    == (#[trigger] s[k]).job,
        forall|i: int|
            0 <= i < collected(s, s.len() as int).len() ==> (#[trigger] collected(
                s,
                s.len() as int,
            )[i]).run.len() == collected(s, s.len() as int)[i].wait.len(),
{
    let n = s.len() as int;
    lemma_names(s, n);
    let names = job_names(s, n);
    assert forall|k: int| 0 <= k < s.len() implies exists|i: int|
        0 <= i < collected(s, n).len() && collected(s, n)[i].job == (#[trigger] s[k]).job by {
        assert(names.contains(s[k].job));
        let i = choose|i: int| 0 <= i < names.len() && names[i] == s[k].job;
        assert(collected(s, n)[i].job == s[k].job);
    }
}

} // verus!

//! Reports to the metadata service of blocks that the node has taken from others. They are sent in
//! batches, off the path of the reads that brought the blocks, and repeated until the service takes
//! them. A batch keeps its name when it is repeated.
use crate::bytes::{append_bytes, be_bytes, copy_bytes};
#[allow(unused_imports)]
use crate::bytes::{be_bytes_are_injective, be_bytes_of, lemma_views_push, lemma_views_take, views};
use crate::digest::digest;
#[allow(unused_imports)]
use crate::digest::sha256_of;
use crate::protocol::{DurabilityPolicy, ReplicaReport};
#[allow(unused_imports)]
use crate::protocol::ReportView;
use vstd::prelude::*;

verus! {

/// How long the first repetition waits, in milliseconds.
pub const RETRY_INITIAL_MILLIS: u64 = 10;

/// How long a repetition waits at most, in milliseconds.
pub const RETRY_MAX_MILLIS: u64 = 1000;

/// How long a batch waits for more reports, in milliseconds.
pub const COALESCE_WINDOW_MILLIS: u64 = 5;

/// The most reports of a batch.
pub const BATCH_MAX: usize = 64;

/// How many replicas the metadata service is asked to have confirmed.
pub const REPORT_REPLICA_COUNT: u64 = 2;

/// A block that is here and is to be reported.
#[derive(Debug, PartialEq, Eq)]
pub struct ReplicaReportJob {
    pub block_id: Vec<u8>,
    pub length: u64,
    pub checksum: Vec<u8>,
    pub operation_id: Vec<u8>,
}

/// A block that is here and is to be reported, as a value.
#[verifier::ext_equal]
pub struct JobView {
    pub block_id: Seq<u8>,
    pub length: u64,
    pub checksum: Seq<u8>,
    pub operation_id: Seq<u8>,
}

impl View for ReplicaReportJob {
    type V = JobView;

    open spec fn view(&self) -> JobView {
        JobView {
            block_id: self.block_id@,
            length: self.length,
            checksum: self.checksum@,
            operation_id: self.operation_id@,
        }
    }
}

impl ReplicaReportJob {
    /// A report of a block under an operation's name.
    pub fn new(block_id: Vec<u8>, length: u64, checksum: Vec<u8>, operation_id: Vec<u8>) -> (job:
        Self)
        ensures
            job@ == (JobView {
                block_id: block_id@,
                length,
                checksum: checksum@,
                operation_id: operation_id@,
            }),
    {
        ReplicaReportJob { block_id, length, checksum, operation_id }
    }

    /// An equal report.
    pub fn duplicate(&self) -> (copy: Self)
        ensures
            copy@ == self@,
    {
        ReplicaReportJob {
            block_id: copy_bytes(&self.block_id),
            length: self.length,
            checksum: copy_bytes(&self.checksum),
            operation_id: copy_bytes(&self.operation_id),
        }
    }
}

/// Reports that are sent together.
#[derive(Debug, PartialEq, Eq)]
pub struct ReplicaReportBatch {
    pub jobs: Vec<ReplicaReportJob>,
    pub operation_id: Vec<u8>,
}

/// Reports that are sent together, as a value.
#[verifier::ext_equal]
pub struct BatchView {
    pub jobs: Seq<JobView>,
    pub operation_id: Seq<u8>,
}

impl View for ReplicaReportBatch {
    type V = BatchView;

    open spec fn view(&self) -> BatchView {
        BatchView { jobs: views(self.jobs@), operation_id: self.operation_id@ }
    }
}

/// The bytes with which the identity of a batch starts.
pub open spec fn batch_prefix() -> Seq<u8> {
    seq![
        100u8, 109u8, 115u8, 58u8, 114u8, 101u8, 112u8, 108u8, 105u8, 99u8, 97u8, 45u8, 114u8,
        101u8, 112u8, 111u8, 114u8, 116u8, 45u8, 98u8, 97u8, 116u8, 99u8, 104u8, 58u8, 118u8, 49u8,
    ]
}

/// A name with its length before it.
pub open spec fn framed(name: Seq<u8>) -> Seq<u8> {
    be_bytes_of(name.len() as u64) + name
}

/// Names one after the other, each with its length before it.
pub open spec fn framed_all(names: Seq<Seq<u8>>) -> Seq<u8>
    decreases names.len(),
{
    if names.len() == 0 {
        Seq::empty()
    } else {
        framed(names[0]) + framed_all(names.drop_first())
    }
}

/// The names of the operations of some reports.
pub open spec fn operations_of(jobs: Seq<JobView>) -> Seq<Seq<u8>> {
    jobs.map_values(|job: JobView| job.operation_id)
}

/// What the name of a batch is made of.
pub open spec fn batch_identity(jobs: Seq<JobView>) -> Seq<u8> {
    batch_prefix() + framed_all(operations_of(jobs))
}

proof fn lemma_framed_push(names: Seq<Seq<u8>>, name: Seq<u8>)
    ensures
        framed_all(names.push(name)) == framed_all(names) + framed(name),
    decreases names.len(),
{
    if names.len() == 0 {
        assert(names.push(name).drop_first() =~= names);
        assert(framed_all(names.push(name)) =~= framed_all(names) + framed(name));
    } else {
        lemma_framed_push(names.drop_first(), name);
        assert(names.push(name).drop_first() =~= names.drop_first().push(name));
        assert(framed_all(names.push(name)) =~= framed_all(names) + framed(name));
    }
}

/// Two batches with the same identity are for the same operations, in the same order: the lengths
/// keep names apart that would run into each other.
pub proof fn a_batch_identity_fixes_the_operations(left: Seq<JobView>, right: Seq<JobView>)
    requires
        batch_identity(left) == batch_identity(right),
        forall|i: int|
            #![trigger left[i]]
            0 <= i < left.len() ==> left[i].operation_id.len() <= u64::MAX,
        forall|i: int|
            #![trigger right[i]]
            0 <= i < right.len() ==> right[i].operation_id.len() <= u64::MAX,
    ensures
        operations_of(left) == operations_of(right),
{
    let l = operations_of(left);
    let r = operations_of(right);
    assert(framed_all(l) =~= batch_identity(left).skip(27));
    assert(framed_all(r) =~= batch_identity(right).skip(27));
    assert forall|i: int| #![trigger l[i]] 0 <= i < l.len() implies l[i].len() <= u64::MAX by {
        assert(left[i].operation_id.len() <= u64::MAX);
    }
    assert forall|i: int| #![trigger r[i]] 0 <= i < r.len() implies r[i].len() <= u64::MAX by {
        assert(right[i].operation_id.len() <= u64::MAX);
    }
    lemma_framed_injective(l, r);
}

proof fn lemma_framed_injective(left: Seq<Seq<u8>>, right: Seq<Seq<u8>>)
    requires
        framed_all(left) == framed_all(right),
        forall|i: int| #![trigger left[i]] 0 <= i < left.len() ==> left[i].len() <= u64::MAX,
        forall|i: int| #![trigger right[i]] 0 <= i < right.len() ==> right[i].len() <= u64::MAX,
    ensures
        left == right,
    decreases left.len(),
{
    if left.len() == 0 {
        if right.len() > 0 {
            assert(framed_all(right).len() >= 8);
        }
        assert(left =~= right);
    } else if right.len() == 0 {
        assert(framed_all(left).len() >= 8);
    } else {
        let bytes = framed_all(left);
        assert(be_bytes_of(left[0].len() as u64) =~= bytes.take(8));
        assert(be_bytes_of(right[0].len() as u64) =~= bytes.take(8));
        be_bytes_are_injective(left[0].len() as u64, right[0].len() as u64);
        let length = left[0].len() as int;
        assert(left[0] =~= bytes.subrange(8, 8 + length));
        assert(right[0] =~= bytes.subrange(8, 8 + length));
        assert(framed_all(left.drop_first()) =~= bytes.skip(8 + length));
        assert(framed_all(right.drop_first()) =~= bytes.skip(8 + length));
        assert forall|i: int|
            #![trigger left.drop_first()[i]]
            0 <= i < left.drop_first().len() implies left.drop_first()[i].len() <= u64::MAX by {
            assert(left[i + 1].len() <= u64::MAX);
        }
        assert forall|i: int|
            #![trigger right.drop_first()[i]]
            0 <= i < right.drop_first().len() implies right.drop_first()[i].len() <= u64::MAX by {
            assert(right[i + 1].len() <= u64::MAX);
        }
        lemma_framed_injective(left.drop_first(), right.drop_first());
        assert(left =~= seq![left[0]] + left.drop_first());
        assert(right =~= seq![right[0]] + right.drop_first());
    }
}

impl ReplicaReportBatch {
    /// A batch of reports, named by their operations.
    pub fn new(jobs: Vec<ReplicaReportJob>) -> (batch: Self)
        ensures
            batch@ == (BatchView {
                jobs: views(jobs@),
                operation_id: sha256_of(batch_identity(views(jobs@))),
            }),
    {
        let ghost names = operations_of(views(jobs@));
        let mut identity: Vec<u8> = vec![
            100u8, 109u8, 115u8, 58u8, 114u8, 101u8, 112u8, 108u8, 105u8, 99u8, 97u8, 45u8, 114u8,
            101u8, 112u8, 111u8, 114u8, 116u8, 45u8, 98u8, 97u8, 116u8, 99u8, 104u8, 58u8, 118u8,
            49u8,
        ];
        assert(identity@ =~= batch_prefix());
        let mut i: usize = 0;
        assert(names.take(0) =~= Seq::empty());
        assert(identity@ =~= batch_prefix() + framed_all(names.take(0)));
        while i < jobs.len()
            invariant
                i <= jobs@.len(),
                names == operations_of(views(jobs@)),
                identity@ == batch_prefix() + framed_all(names.take(i as int)),
            decreases jobs.len() - i,
        {
            let ghost so_far = identity@;
            let name: &Vec<u8> = &jobs[i].operation_id;
            append_bytes(&mut identity, &be_bytes(name.len() as u64));
            append_bytes(&mut identity, name);
            proof {
                assert(names[i as int] == name@);
                assert(names.take(i + 1) =~= names.take(i as int).push(names[i as int]));
                lemma_framed_push(names.take(i as int), names[i as int]);
                assert(identity@ =~= batch_prefix() + framed_all(names.take(i + 1)));
            }
            i = i + 1;
        }
        assert(names.take(i as int) =~= names);
        ReplicaReportBatch { operation_id: digest(&identity), jobs }
    }

    /// What the metadata service is told.
    pub fn reports(&self) -> (reports: Vec<ReplicaReport>)
        ensures
            views(reports@) == self@.jobs.map_values(
                |job: JobView|
                    ReportView {
                        block_id: job.block_id,
                        length: job.length,
                        checksum: job.checksum,
                        durability: DurabilityPolicy::ReplicatedMemory,
                    },
            ),
    {
        let ghost all = self@.jobs;
        let mut reports: Vec<ReplicaReport> = Vec::with_capacity(self.jobs.len());
        let mut i: usize = 0;
        while i < self.jobs.len()
            invariant
                i <= self.jobs@.len(),
                all == views(self.jobs@),
                views(reports@) =~= all.take(i as int).map_values(
                    |job: JobView|
                        ReportView {
                            block_id: job.block_id,
                            length: job.length,
                            checksum: job.checksum,
                            durability: DurabilityPolicy::ReplicatedMemory,
                        },
                ),
            decreases self.jobs.len() - i,
        {
            let ghost so_far = reports@;
            let job: &ReplicaReportJob = &self.jobs[i];
            reports.push(
                ReplicaReport {
                    block_id: copy_bytes(&job.block_id),
                    length: job.length,
                    checksum: copy_bytes(&job.checksum),
                    durability: DurabilityPolicy::ReplicatedMemory,
                },
            );
            proof {
                lemma_views_push(so_far, reports@.last());
                lemma_views_take(self.jobs@, i as int);
            }
            i = i + 1;
        }
        assert(all.take(i as int) =~= all);
        reports
    }
}

/// How many of the reports that wait a batch takes beside the first.
pub open spec fn taken(waiting: nat) -> nat {
    if waiting < BATCH_MAX - 1 {
        waiting
    } else {
        (BATCH_MAX - 1) as nat
    }
}

/// A batch of the first report and those that wait, as far as it can hold them. The others are left
/// for the next batch.
pub fn collect_batch(first: ReplicaReportJob, waiting: Vec<ReplicaReportJob>) -> (collected: (
    ReplicaReportBatch,
    Vec<ReplicaReportJob>,
))
    ensures
        collected.0@.jobs == seq![first@] + views(waiting@).take(taken(waiting@.len()) as int),
        collected.0@.operation_id == sha256_of(batch_identity(collected.0@.jobs)),
        collected.0@.jobs.len() <= BATCH_MAX,
        views(collected.1@) == views(waiting@).skip(taken(waiting@.len()) as int),
{
    let ghost all = views(waiting@);
    let count: usize = if waiting.len() < BATCH_MAX - 1 {
        waiting.len()
    } else {
        BATCH_MAX - 1
    };
    let mut jobs: Vec<ReplicaReportJob> = Vec::with_capacity(BATCH_MAX);
    jobs.push(first);
    let mut left: Vec<ReplicaReportJob> = Vec::new();
    assert(views(jobs@) =~= seq![first@] + all.take(0));
    let mut i: usize = 0;
    while i < waiting.len()
        invariant
            i <= waiting@.len(),
            count <= waiting@.len(),
            all == views(waiting@),
            i <= count ==> views(jobs@) =~= seq![first@] + all.take(i as int),
            i > count ==> views(jobs@) =~= seq![first@] + all.take(count as int),
            i <= count ==> views(left@) =~= Seq::empty(),
            i > count ==> views(left@) =~= all.subrange(count as int, i as int),
        decreases waiting.len() - i,
    {
        let ghost jobs_before = jobs@;
        let ghost left_before = left@;
        if i < count {
            jobs.push(waiting[i].duplicate());
            proof {
                lemma_views_push(jobs_before, jobs@.last());
                lemma_views_take(waiting@, i as int);
            }
        } else {
            left.push(waiting[i].duplicate());
            proof {
                lemma_views_push(left_before, left@.last());
            }
        }
        i = i + 1;
    }
    assert(views(left@) =~= all.skip(count as int));
    (ReplicaReportBatch::new(jobs), left)
}

/// How often a batch has failed, and how long its next repetition waits.
#[derive(Clone, Copy, Debug, PartialEq, Eq, Structural)]
pub struct ReportRetry {
    pub failures: u64,
    pub delay_millis: u64,
}

/// Whether a number is a power of two.
pub open spec fn power_of_two(value: u64) -> bool {
    exists|exponent: nat| value == #[trigger] vstd::arithmetic::power2::pow2(exponent)
}

/// What to do after a failure.
#[derive(Clone, Copy, Debug, PartialEq, Eq, Structural)]
pub struct RetryStep {
    pub sleep_millis: u64,
    /// Whether the failure is worth a line in the log.
    pub log: bool,
}

impl ReportRetry {
    /// A batch that has not failed yet.
    pub fn new() -> (retry: Self)
        ensures
            retry == (ReportRetry { failures: 0, delay_millis: RETRY_INITIAL_MILLIS }),
    {
        ReportRetry { failures: 0, delay_millis: RETRY_INITIAL_MILLIS }
    }

    /// Notes a failure and says what to do. Each repetition waits twice as long as the one before,
    /// up to a limit; only failures whose number is a power of two are logged.
    pub fn failed(&mut self) -> (step: RetryStep)
        requires
            old(self).failures < u64::MAX,
            old(self).delay_millis <= RETRY_MAX_MILLIS,
        ensures
            final(self).failures == old(self).failures + 1,
            final(self).delay_millis == (if 2 * old(self).delay_millis < RETRY_MAX_MILLIS {
                2 * old(self).delay_millis
            } else {
                RETRY_MAX_MILLIS as int
            }),
            step.sleep_millis == old(self).delay_millis,
            step.log == power_of_two(final(self).failures),
    {
        self.failures = self.failures + 1;
        let sleep_millis: u64 = self.delay_millis;
        let doubled: u64 = sleep_millis * 2;
        self.delay_millis = if doubled < RETRY_MAX_MILLIS {
            doubled
        } else {
            RETRY_MAX_MILLIS
        };
        RetryStep { sleep_millis, log: is_power_of_two(self.failures) }
    }
}

/// Whether a number is a power of two.
pub fn is_power_of_two(value: u64) -> (power: bool)
    ensures
        power == power_of_two(value),
{
    if value == 0 {
        assert forall|exponent: nat| value != #[trigger] vstd::arithmetic::power2::pow2(
            exponent,
        ) by {
            vstd::arithmetic::power2::lemma_pow2_pos(exponent);
        }
        return false;
    }
    let mut rest: u64 = value;
    let ghost mut shift: nat = 0;
    proof {
        vstd::arithmetic::power2::lemma2_to64();
        assert(value == rest * vstd::arithmetic::power2::pow2(0));
    }
    while rest % 2 == 0
        invariant
            value > 0,
            rest > 0,
            value == rest * vstd::arithmetic::power2::pow2(shift),
        decreases rest,
    {
        let ghost half: u64 = rest / 2;
        proof {
            vstd::arithmetic::power2::lemma_pow2_unfold(shift + 1);
            let power = vstd::arithmetic::power2::pow2(shift);
            let next = vstd::arithmetic::power2::pow2(shift + 1);
            assert(rest == 2 * half);
            assert(rest * power == half * next) by (nonlinear_arith)
                requires
                    rest == 2 * half,
                    next == 2 * power,
            ;
            shift = shift + 1;
        }
        rest = rest / 2;
    }
    proof {
        if rest == 1 {
            assert(value == vstd::arithmetic::power2::pow2(shift));
        } else {
            lemma_odd_part(value, rest, shift);
        }
    }
    rest == 1
}

/// A number with an odd factor other than one is no power of two.
proof fn lemma_odd_part(value: u64, odd: u64, shift: nat)
    requires
        value == odd * vstd::arithmetic::power2::pow2(shift),
        odd % 2 == 1,
        odd > 1,
    ensures
        !power_of_two(value),
{
    assert forall|exponent: nat| value != #[trigger] vstd::arithmetic::power2::pow2(exponent) by {
        if value == vstd::arithmetic::power2::pow2(exponent) {
            let small = vstd::arithmetic::power2::pow2(shift) as int;
            vstd::arithmetic::power2::lemma_pow2_pos(shift);
            if exponent <= shift {
                if exponent < shift {
                    vstd::arithmetic::power2::lemma_pow2_strictly_increases(exponent, shift);
                }
                assert(odd * small > small) by (nonlinear_arith)
                    requires
                        odd > 1,
                        small > 0,
                ;
            } else {
                let rest = (exponent - shift) as nat;
                vstd::arithmetic::power2::lemma_pow2_adds(rest, shift);
                let factor = vstd::arithmetic::power2::pow2(rest) as int;
                assert(odd * small == factor * small);
                assert(odd == factor) by (nonlinear_arith)
                    requires
                        odd * small == factor * small,
                        small > 0,
                ;
                vstd::arithmetic::power2::lemma_pow2_unfold(rest);
                assert(factor % 2 == 0);
            }
        }
    }
}

/// How long the repetition waits that comes after some failures and one more, in milliseconds.
pub open spec fn wait_after(failures: nat) -> nat
    decreases failures,
{
    if failures == 0 {
        RETRY_INITIAL_MILLIS as nat
    } else {
        let doubled = 2 * wait_after((failures - 1) as nat);
        if doubled < RETRY_MAX_MILLIS {
            doubled
        } else {
            RETRY_MAX_MILLIS as nat
        }
    }
}

/// The reports that wait, the batch that is being sent, and how often it has failed.
pub struct Reporter {
    pub queue: Vec<ReplicaReportJob>,
    pub batch: Option<ReplicaReportBatch>,
    pub retry: ReportRetry,
}

/// The reports that wait, the batch that is being sent, and how often it has failed, as a value.
#[verifier::ext_equal]
pub struct ReporterView {
    pub queue: Seq<JobView>,
    pub batch: Option<BatchView>,
    pub retry: ReportRetry,
}

impl View for Reporter {
    type V = ReporterView;

    open spec fn view(&self) -> ReporterView {
        ReporterView {
            queue: views(self.queue@),
            batch: match self.batch {
                Some(batch) => Some(batch@),
                None => None,
            },
            retry: self.retry,
        }
    }
}

/// What happens to a reporter.
pub enum ReportStep {
    /// A report comes in.
    Arrived { job: JobView },
    /// A batch is made of the reports that wait.
    Begun,
    /// The metadata service was sent the batch, and took it or did not.
    Answered { taken: bool },
}

/// The batch that is made of some reports, as far as it can hold them.
pub open spec fn first_batch(queue: Seq<JobView>) -> BatchView {
    let jobs = queue.take(taken_at_once(queue) as int);
    BatchView { jobs, operation_id: sha256_of(batch_identity(jobs)) }
}

/// How many of some reports a batch holds.
pub open spec fn taken_at_once(queue: Seq<JobView>) -> nat {
    if queue.len() < BATCH_MAX {
        queue.len()
    } else {
        BATCH_MAX as nat
    }
}

impl ReporterView {
    /// Nothing to report.
    pub open spec fn idle() -> ReporterView {
        ReporterView {
            queue: Seq::empty(),
            batch: None,
            retry: ReportRetry { failures: 0, delay_millis: RETRY_INITIAL_MILLIS },
        }
    }

    /// What is true of a reporter at any time. A batch that is being sent is named by its reports.
    pub open spec fn wf(self) -> bool {
        &&& self.retry.delay_millis == wait_after(self.retry.failures as nat)
        &&& self.retry.delay_millis <= RETRY_MAX_MILLIS
        &&& self.batch matches Some(batch) ==> {
            &&& 0 < batch.jobs.len() <= BATCH_MAX
            &&& batch.operation_id == sha256_of(batch_identity(batch.jobs))
        }
    }

    /// The reporter after a report came in.
    pub open spec fn arrived(self, job: JobView) -> ReporterView {
        ReporterView { queue: self.queue.push(job), ..self }
    }

    /// The reporter after a batch was made of the reports that wait.
    pub open spec fn begun(self) -> ReporterView {
        ReporterView {
            queue: self.queue.skip(taken_at_once(self.queue) as int),
            batch: Some(first_batch(self.queue)),
            retry: ReportRetry { failures: 0, delay_millis: RETRY_INITIAL_MILLIS },
        }
    }

    /// The reporter after the batch was sent. A batch that was not taken is sent again as it is.
    pub open spec fn answered(self, taken: bool) -> ReporterView {
        if taken {
            ReporterView { batch: None, ..self }
        } else {
            ReporterView {
                retry: ReportRetry {
                    failures: (self.retry.failures + 1) as u64,
                    delay_millis: wait_after((self.retry.failures + 1) as nat) as u64,
                },
                ..self
            }
        }
    }

    /// Whether something can happen to the reporter. A batch is begun only when none is being sent.
    pub open spec fn admits(self, step: ReportStep) -> bool {
        match step {
            ReportStep::Arrived { .. } => true,
            ReportStep::Begun => self.batch is None && self.queue.len() > 0,
            ReportStep::Answered { taken } => self.batch is Some && (taken || self.retry.failures
                < u64::MAX),
        }
    }

    /// The reporter after something happened to it.
    pub open spec fn after(self, step: ReportStep) -> ReporterView {
        match step {
            ReportStep::Arrived { job } => self.arrived(job),
            ReportStep::Begun => self.begun(),
            ReportStep::Answered { taken } => self.answered(taken),
        }
    }

    /// The reporter after several things happened to it in turn.
    pub open spec fn after_all(self, steps: Seq<ReportStep>) -> ReporterView
        decreases steps.len(),
    {
        if steps.len() == 0 {
            self
        } else {
            self.after_all(steps.drop_last()).after(steps.last())
        }
    }

    /// Whether several things can happen to the reporter in turn.
    pub open spec fn admits_all(self, steps: Seq<ReportStep>) -> bool
        decreases steps.len(),
    {
        steps.len() == 0 || (self.admits_all(steps.drop_last()) && self.after_all(
            steps.drop_last(),
        ).admits(steps.last()))
    }

    /// The batches that the metadata service took, in their order.
    pub open spec fn accepted(self, steps: Seq<ReportStep>) -> Seq<BatchView>
        decreases steps.len(),
    {
        if steps.len() == 0 {
            Seq::empty()
        } else {
            let earlier = self.accepted(steps.drop_last());
            if steps.last() == (ReportStep::Answered { taken: true }) {
                earlier.push(self.after_all(steps.drop_last()).batch->0)
            } else {
                earlier
            }
        }
    }

    /// The reports of the batch that is being sent.
    pub open spec fn sending(self) -> Seq<JobView> {
        match self.batch {
            Some(batch) => batch.jobs,
            None => Seq::empty(),
        }
    }
}

/// The reports that came in, in their order.
pub open spec fn received(steps: Seq<ReportStep>) -> Seq<JobView>
    decreases steps.len(),
{
    if steps.len() == 0 {
        Seq::empty()
    } else {
        match steps.last() {
            ReportStep::Arrived { job } => received(steps.drop_last()).push(job),
            _ => received(steps.drop_last()),
        }
    }
}

/// The reports of some batches, one batch after the other.
pub open spec fn jobs_of(batches: Seq<BatchView>) -> Seq<JobView>
    decreases batches.len(),
{
    if batches.len() == 0 {
        Seq::empty()
    } else {
        jobs_of(batches.drop_last()) + batches.last().jobs
    }
}

/// Whatever the metadata service answers, each report that came in stands once, in the order of
/// their coming: in one of the batches that were taken, in the batch that is being sent, or among
/// those that still wait.
pub proof fn each_report_is_sent_in_one_batch_and_in_order(steps: Seq<ReportStep>)
    requires
        ReporterView::idle().admits_all(steps),
    ensures
        ({
            let now = ReporterView::idle().after_all(steps);
            &&& now.wf()
            &&& received(steps) == jobs_of(ReporterView::idle().accepted(steps)) + now.sending()
                + now.queue
        }),
    decreases steps.len(),
{
    let start = ReporterView::idle();
    let now = start.after_all(steps);
    if steps.len() == 0 {
        assert(received(steps) =~= jobs_of(start.accepted(steps)) + now.sending() + now.queue);
    } else {
        let rest = steps.drop_last();
        each_report_is_sent_in_one_batch_and_in_order(rest);
        let earlier = start.after_all(rest);
        let before = jobs_of(start.accepted(rest));
        let all = start.accepted(steps);
        lemma_step_keeps_sound(earlier, steps.last());
        match steps.last() {
            ReportStep::Arrived { job } => {
                assert(before + now.sending() + now.queue =~= (before + earlier.sending()
                    + earlier.queue).push(job));
            },
            ReportStep::Begun => {
                assert(now.sending() + now.queue =~= earlier.queue);
                assert(before + now.sending() + now.queue =~= before + earlier.sending()
                    + earlier.queue);
            },
            ReportStep::Answered { taken } => {
                if taken {
                    assert(all.drop_last() =~= start.accepted(rest));
                    assert(all.last() == earlier.batch->0);
                    assert(jobs_of(all) =~= before + earlier.sending());
                    assert(jobs_of(all) + now.sending() + now.queue =~= before + earlier.sending()
                        + earlier.queue);
                }
            },
        }
    }
}

proof fn lemma_step_keeps_sound(reporter: ReporterView, step: ReportStep)
    requires
        reporter.wf(),
        reporter.admits(step),
    ensures
        reporter.after(step).wf(),
{
    assert(wait_after(0) == RETRY_INITIAL_MILLIS);
}

/// A batch that was not taken is sent again with the same reports under the same name, until it is
/// taken, and no other is begun before that. The repetition waits ten milliseconds after the first
/// failure, twice as long after each further one, and never more than a second.
pub proof fn a_batch_is_repeated_as_it_is_until_it_is_taken(
    reporter: ReporterView,
    steps: Seq<ReportStep>,
)
    requires
        reporter.wf(),
        reporter.batch is Some,
        reporter.admits_all(steps),
        forall|i: int|
            #![trigger steps[i]]
            0 <= i < steps.len() ==> steps[i] != (ReportStep::Answered { taken: true }),
    ensures
        reporter.after_all(steps).wf(),
        reporter.after_all(steps).batch == reporter.batch,
        !reporter.after_all(steps).admits(ReportStep::Begun),
        reporter.after_all(steps).retry.delay_millis == wait_after(
            reporter.after_all(steps).retry.failures as nat,
        ),
    decreases steps.len(),
{
    if steps.len() > 0 {
        let rest = steps.drop_last();
        assert forall|i: int|
            #![trigger rest[i]]
            0 <= i < rest.len() implies rest[i] != (ReportStep::Answered { taken: true }) by {
            assert(rest[i] == steps[i]);
        }
        a_batch_is_repeated_as_it_is_until_it_is_taken(reporter, rest);
        lemma_step_keeps_sound(reporter.after_all(rest), steps.last());
        assert(steps[steps.len() - 1] == steps.last());
    }
}

/// A batch takes the reports that have waited longest, as many as wait, but no more than it holds, and
/// starts without a failure. Those that it leaves still wait, in their order. A report that comes in
/// waits behind the others. A batch that was taken is done with; one that was not is sent again as it
/// is, and counts one more failure.
pub proof fn a_batch_takes_the_reports_that_waited_longest(reporter: ReporterView, job: JobView)
    ensures
        ({
            let next = reporter.begun();
            let count: int = if reporter.queue.len() < 64 {
                reporter.queue.len() as int
            } else {
                64int
            };
            &&& next.batch is Some
            &&& next.batch->0.jobs == reporter.queue.take(count)
            &&& next.queue == reporter.queue.skip(count)
            &&& next.retry.failures == 0
        }),
        reporter.arrived(job).queue == reporter.queue.push(job),
        reporter.arrived(job).batch == reporter.batch,
        reporter.answered(true).batch is None,
        reporter.answered(true).queue == reporter.queue,
        reporter.answered(false).batch == reporter.batch,
        reporter.answered(false).queue == reporter.queue,
        reporter.retry.failures < u64::MAX ==> reporter.answered(false).retry.failures
            == reporter.retry.failures + 1,
{
}

/// How long a repetition waits: ten milliseconds, doubled with each failure, but no more than a
/// second.
pub proof fn waits_double_up_to_a_second(failures: nat)
    ensures
        wait_after(failures) == (if 10 * vstd::arithmetic::power2::pow2(failures)
            < 1000 {
            10 * vstd::arithmetic::power2::pow2(failures)
        } else {
            1000 as nat
        }),
    decreases failures,
{
    if failures == 0 {
        vstd::arithmetic::power2::lemma2_to64();
    } else {
        waits_double_up_to_a_second((failures - 1) as nat);
        vstd::arithmetic::power2::lemma_pow2_unfold(failures);
    }
}

impl Reporter {
    /// Nothing to report.
    pub fn new() -> (reporter: Self)
        ensures
            reporter@.wf(),
            reporter@ == ReporterView::idle(),
    {
        let reporter = Reporter { queue: Vec::new(), batch: None, retry: ReportRetry::new() };
        assert(views(reporter.queue@) =~= Seq::empty());
        assert(wait_after(0) == RETRY_INITIAL_MILLIS);
        reporter
    }

    /// Whether the reports that wait fill a batch.
    pub fn is_full(&self) -> (full: bool)
        ensures
            full == (self@.queue.len() >= BATCH_MAX),
    {
        self.queue.len() >= BATCH_MAX
    }

    /// Takes a report in.
    pub fn arrived(&mut self, job: ReplicaReportJob)
        requires
            old(self)@.wf(),
        ensures
            final(self)@.wf(),
            final(self)@ == old(self)@.arrived(job@),
    {
        let ghost so_far = self.queue@;
        self.queue.push(job);
        proof {
            lemma_views_push(so_far, self.queue@.last());
        }
    }

    /// Makes a batch of the reports that wait, as far as it can hold them.
    pub fn begin(&mut self)
        requires
            old(self)@.wf(),
            old(self)@.admits(ReportStep::Begun),
        ensures
            final(self)@.wf(),
            final(self)@ == old(self)@.begun(),
    {
        let ghost before = self@;
        let mut waiting: Vec<ReplicaReportJob> = Vec::new();
        std::mem::swap(&mut waiting, &mut self.queue);
        let ghost jobs = waiting@;
        let first: ReplicaReportJob = waiting.remove(0);
        proof {
            assert(first@ == before.queue[0]);
            assert(views(waiting@) =~= before.queue.skip(1));
            lemma_step_keeps_sound(before, ReportStep::Begun);
        }
        let (batch, left) = collect_batch(first, waiting);
        proof {
            assert(batch@.jobs =~= first_batch(before.queue).jobs);
            assert(views(left@) =~= before.begun().queue);
        }
        self.queue = left;
        self.batch = Some(batch);
        self.retry = ReportRetry::new();
    }

    /// Takes what the metadata service says of the batch. Where it did not take it, returns what to
    /// do before the batch is sent again.
    pub fn answered(&mut self, taken: bool) -> (step: Option<RetryStep>)
        requires
            old(self)@.wf(),
            old(self)@.admits(ReportStep::Answered { taken }),
        ensures
            final(self)@.wf(),
            final(self)@ == old(self)@.answered(taken),
            match step {
                None => taken,
                Some(step) => {
                    &&& !taken
                    &&& step.sleep_millis == wait_after(old(self)@.retry.failures as nat)
                    &&& step.log == power_of_two((old(self)@.retry.failures + 1) as u64)
                },
            },
    {
        proof {
            lemma_step_keeps_sound(self@, ReportStep::Answered { taken });
        }
        if taken {
            self.batch = None;
            return None;
        }
        Some(self.retry.failed())
    }
}

/// The namespace of the reports of blocks that reads brought.
pub open spec fn import_namespace() -> Seq<u8> {
    seq![99u8, 97u8, 99u8, 104u8, 101u8, 45u8, 105u8, 109u8, 112u8, 111u8, 114u8, 116u8, 47u8]
}

/// The namespace of the reports of blocks that reads brought.
pub fn cache_import_namespace() -> (name: Vec<u8>)
    ensures
        name@ == import_namespace(),
{
    let name: Vec<u8> = vec![
        99u8, 97u8, 99u8, 104u8, 101u8, 45u8, 105u8, 109u8, 112u8, 111u8, 114u8, 116u8, 47u8,
    ];
    assert(name@ =~= import_namespace());
    name
}

/// What the name of the operation that reports a block is made of.
pub open spec fn report_identity(namespace: Seq<u8>, block_id: Seq<u8>, node_epoch: u64) -> Seq<u8> {
    namespace + block_id + be_bytes_of(node_epoch)
}

/// The name of the operation that reports a block. It depends on the node's incarnation, so that a
/// report of an earlier one does not stand for it.
pub open spec fn report_operation(namespace: Seq<u8>, block_id: Seq<u8>, node_epoch: u64) -> Seq<u8> {
    sha256_of(report_identity(namespace, block_id, node_epoch))
}

/// Reports of different blocks, or by different incarnations of a node, are named after different
/// things, and the name is the digest of those.
pub proof fn a_report_is_named_after_its_block_and_its_node(
    namespace: Seq<u8>,
    block_id: Seq<u8>,
    node_epoch: u64,
    other_block_id: Seq<u8>,
    other_epoch: u64,
)
    ensures
        report_identity(namespace, block_id, node_epoch) == report_identity(
            namespace,
            other_block_id,
            other_epoch,
        ) <==> block_id == other_block_id && node_epoch == other_epoch,
        report_operation(namespace, block_id, node_epoch) == sha256_of(
            report_identity(namespace, block_id, node_epoch),
        ),
        report_identity(namespace, block_id, node_epoch).take(namespace.len() as int) == namespace,
{
    let left = report_identity(namespace, block_id, node_epoch);
    let right = report_identity(namespace, other_block_id, other_epoch);
    assert(left.take(namespace.len() as int) =~= namespace);
    if left == right {
        let named = namespace.len() as int;
        let end = left.len() - 8;
        assert(left.subrange(named, end) =~= block_id);
        assert(right.subrange(named, end) =~= other_block_id);
        assert(left.skip(end) =~= be_bytes_of(node_epoch));
        assert(right.skip(end) =~= be_bytes_of(other_epoch));
        be_bytes_are_injective(node_epoch, other_epoch);
    }
}

/// The report of a block that was installed.
pub fn report_installed(
    block_id: Vec<u8>,
    length: u64,
    checksum: Vec<u8>,
    operation_namespace: &Vec<u8>,
    node_epoch: u64,
) -> (job: ReplicaReportJob)
    ensures
        job@ == (JobView {
            block_id: block_id@,
            length,
            checksum: checksum@,
            operation_id: report_operation(operation_namespace@, block_id@, node_epoch),
        }),
{
    let mut operation: Vec<u8> = copy_bytes(operation_namespace);
    append_bytes(&mut operation, &block_id);
    append_bytes(&mut operation, &be_bytes(node_epoch));
    let operation_id: Vec<u8> = digest(&operation);
    ReplicaReportJob::new(block_id, length, checksum, operation_id)
}

} // verus!

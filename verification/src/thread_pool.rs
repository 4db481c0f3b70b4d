//! A pure model of the worker pool's queue discipline: jobs and
//! terminate sentinels flow through one shared FIFO queue, a worker
//! executes jobs until it takes a terminate message, and teardown
//! queues one sentinel per worker behind all pending jobs — so every
//! submitted job runs before the pool is gone.

use vstd::prelude::*;

verus! {

/// What flows through the pool's queue: a job (named by an id here) or
/// the sentinel telling one worker to stop.
#[derive(Debug, Clone, Copy, PartialEq, Eq, Structural)]
pub enum Message {
    NewJob(u64),
    Terminate,
}

/// The jobs consumed from the front of the queue up to (excluding) the
/// first terminate sentinel.
pub open spec fn jobs_before_terminate(s: Seq<Message>) -> Seq<u64>
    decreases s,
{
    if s.len() == 0 {
        Seq::empty()
    } else {
        match s[0] {
            Message::Terminate => Seq::empty(),
            Message::NewJob(j) => seq![j] + jobs_before_terminate(s.drop_first()),
        }
    }
}

/// The queue at teardown: every pending job, then one terminate
/// sentinel per worker, behind the jobs rather than ahead of them.
pub open spec fn teardown_queue(jobs: Seq<u64>, workers: nat) -> Seq<Message> {
    jobs.map_values(|j: u64| Message::NewJob(j)) + Seq::new(
        workers,
        |i: int| Message::Terminate,
    )
}

/// Graceful drain: consuming the teardown queue runs every submitted
/// job, in order, before any worker stops — for any number of jobs and
/// at least one worker.
pub proof fn lemma_pool_drains_all_jobs(jobs: Seq<u64>, workers: nat)
    requires
        workers >= 1,
    ensures
        jobs_before_terminate(teardown_queue(jobs, workers)) == jobs,
    decreases jobs.len(),
{
    let q = teardown_queue(jobs, workers);
    if jobs.len() == 0 {
        assert(q[0] == Message::Terminate);
        assert(jobs_before_terminate(q) =~= jobs);
    } else {
        assert(q[0] == Message::NewJob(jobs[0]));
        lemma_pool_drains_all_jobs(jobs.drop_first(), workers);
        assert(q.drop_first() =~= teardown_queue(jobs.drop_first(), workers));
        assert(seq![jobs[0]] + jobs_before_terminate(teardown_queue(jobs.drop_first(), workers))
            =~= jobs);
    }
}

/// Runs one worker against a queue snapshot: executes every job before
/// the first terminate sentinel and returns the ids it ran, in order.
pub fn worker_drain(queue: &Vec<Message>) -> (r: Vec<u64>)
    ensures
        r@ == jobs_before_terminate(queue@),
{
    let n = queue.len();
    let mut executed: Vec<u64> = Vec::new();
    let mut i: usize = 0;
    proof {
        assert(queue@.skip(0) =~= queue@);
    }
    while i < n
        invariant
            0 <= i <= n,
            n == queue@.len(),
            jobs_before_terminate(queue@) == executed@ + jobs_before_terminate(
                queue@.skip(i as int),
            ),
        decreases n - i,
    {
        let ghost t = queue@.skip(i as int);
        proof {
            assert(t[0] == queue@[i as int]);
            assert(t.drop_first() =~= queue@.skip(i + 1));
        }
        match *vstd::std_specs::vec::vec_index(queue, i) {
            Message::NewJob(j) => {
                executed.push(j);
                proof {
                    assert(executed@ + jobs_before_terminate(queue@.skip(i + 1)) =~= jobs_before_terminate(queue@));
                }
            },
            Message::Terminate => {
                proof {
                    assert(jobs_before_terminate(t) =~= Seq::<u64>::empty());
                    assert(executed@ =~= jobs_before_terminate(queue@));
                }
                return executed;
            },
        }
        i = i + 1;
    }
    proof {
        assert(queue@.skip(n as int) =~= Seq::<Message>::empty());
        assert(executed@ =~= jobs_before_terminate(queue@));
    }
    executed
}

} // verus!

use vstd::prelude::*;
use vstd::multiset::Multiset;
use crate::message::{terminate_seq, work_seq, Message};

verus! {

broadcast use vstd::multiset::group_multiset_axioms;

/// One worker's phase in a run of the pool: waiting at the queue, running a
/// job, or stopped after taking a termination message.
pub enum Phase<J> {
    Idle,
    Busy(J),
    Stopped,
}

impl<J> Phase<J> {
    /// Whether the worker is running a job right now.
    pub open spec fn is_busy(self) -> bool {
        matches!(self, Phase::Busy(_))
    }
}

/// A snapshot of the whole pool between scheduling events: the phase of
/// every worker, the messages still queued, and the jobs invoked so far.
///
/// `invoked` is a multiset: it records how often each job value has been
/// started, so "exactly once" is a statement about it.
pub struct RunState<J> {
    pub workers: Seq<Phase<J>>,
    pub queue: Seq<Message<J>>,
    pub invoked: Multiset<J>,
}

/// One scheduling event. `Deliver(w)` hands the front of the queue to the
/// idle worker `w`; `Finish(w, failed)` ends the job worker `w` was running,
/// with `failed` telling whether the job raised a failure.
pub enum Event {
    Deliver(int),
    Finish(int, bool),
}

/// Whether event `e` can fire in state `s`: only an idle worker can take a
/// message, only one message leaves the queue at a time, and only a busy
/// worker can finish a job.
pub open spec fn enabled<J>(s: RunState<J>, e: Event) -> bool {
    match e {
        Event::Deliver(w) => 0 <= w < s.workers.len()
            && s.workers[w] == Phase::<J>::Idle
            && s.queue.len() > 0,
        Event::Finish(w, _) => 0 <= w < s.workers.len() && s.workers[w].is_busy(),
    }
}

/// The state after event `e` fires in state `s`.
///
/// A delivered `Work(j)` makes its taker busy with `j` and counts `j` as
/// invoked; a delivered `Terminate` stops its taker, and only its taker.
/// A finishing worker goes back to idle whatever the job's outcome.
pub open spec fn step<J>(s: RunState<J>, e: Event) -> RunState<J>
    recommends
        enabled(s, e),
{
    match e {
        Event::Deliver(w) => (match s.queue[0] {
            Message::Work(j) => RunState {
                workers: s.workers.update(w, Phase::Busy(j)),
                queue: s.queue.drop_first(),
                invoked: s.invoked.insert(j),
            },
            Message::Terminate => RunState {
                workers: s.workers.update(w, Phase::Stopped),
                queue: s.queue.drop_first(),
                invoked: s.invoked,
            },
        }),
        Event::Finish(w, _) => (match s.workers[w] {
            Phase::Busy(_) => RunState {
                workers: s.workers.update(w, Phase::Idle),
                queue: s.queue,
                invoked: s.invoked,
            },
            _ => s,
        }),
    }
}

/// Whether the whole event sequence `evs` can fire from `s`, each event
/// enabled in the state the previous ones produced.
pub open spec fn run_enabled<J>(s: RunState<J>, evs: Seq<Event>) -> bool
    decreases evs.len(),
{
    evs.len() == 0 || (enabled(s, evs[0]) && run_enabled(step(s, evs[0]), evs.drop_first()))
}

/// The state after the whole event sequence `evs` fires from `s`.
pub open spec fn run<J>(s: RunState<J>, evs: Seq<Event>) -> RunState<J>
    decreases evs.len(),
{
    if evs.len() == 0 {
        s
    } else {
        run(step(s, evs[0]), evs.drop_first())
    }
}

/// The pool as it stands when the workers first block on the queue: `n`
/// idle workers, the messages `q` queued, nothing invoked yet.
pub open spec fn initial<J>(n: nat, q: Seq<Message<J>>) -> RunState<J> {
    RunState { workers: Seq::new(n, |i: int| Phase::Idle), queue: q, invoked: Multiset::empty() }
}

/// Whether a run has come to rest: nothing queued and no job in flight.
pub open spec fn complete<J>(s: RunState<J>) -> bool {
    s.queue.len() == 0 && (forall|i: int| 0 <= i < s.workers.len() ==> !(#[trigger] s.workers[i]).is_busy())
}

/// The jobs one phase contributes to the in-flight count.
pub open spec fn phase_jobs<J>(p: Phase<J>) -> Multiset<J> {
    match p {
        Phase::Busy(j) => Multiset::empty().insert(j),
        _ => Multiset::empty(),
    }
}

/// One where the phase is `Stopped`, else zero.
pub open spec fn phase_stopped<J>(p: Phase<J>) -> int {
    if p == Phase::<J>::Stopped { 1 } else { 0 }
}

/// The jobs a queued message carries.
pub open spec fn msg_jobs<J>(m: Message<J>) -> Multiset<J> {
    match m {
        Message::Work(j) => Multiset::empty().insert(j),
        Message::Terminate => Multiset::empty(),
    }
}

/// One where the message is `Terminate`, else zero.
pub open spec fn msg_terminate<J>(m: Message<J>) -> int {
    if m.is_work() { 0 } else { 1 }
}

/// All jobs currently being run by some worker, with multiplicity.
pub open spec fn in_flight<J>(ws: Seq<Phase<J>>) -> Multiset<J>
    decreases ws.len(),
{
    if ws.len() == 0 {
        Multiset::empty()
    } else {
        phase_jobs(ws[0]).add(in_flight(ws.drop_first()))
    }
}

/// How many workers have stopped.
pub open spec fn stopped_count<J>(ws: Seq<Phase<J>>) -> int
    decreases ws.len(),
{
    if ws.len() == 0 {
        0
    } else {
        phase_stopped(ws[0]) + stopped_count(ws.drop_first())
    }
}

/// All jobs still queued, with multiplicity.
pub open spec fn queued_jobs<J>(q: Seq<Message<J>>) -> Multiset<J>
    decreases q.len(),
{
    if q.len() == 0 {
        Multiset::empty()
    } else {
        msg_jobs(q[0]).add(queued_jobs(q.drop_first()))
    }
}

/// How many termination messages are still queued.
pub open spec fn queued_terminates<J>(q: Seq<Message<J>>) -> int
    decreases q.len(),
{
    if q.len() == 0 {
        0
    } else {
        msg_terminate(q[0]) + queued_terminates(q.drop_first())
    }
}

/// Replacing one worker's phase trades exactly that worker's contribution
/// to the stopped count: what the old phase counted comes out, what the new
/// one counts goes in.
proof fn lemma_update_effect<J>(ws: Seq<Phase<J>>, w: int, p: Phase<J>)
    requires
        0 <= w < ws.len(),
    ensures
        stopped_count(ws.update(w, p)) + phase_stopped(ws[w])
            == stopped_count(ws) + phase_stopped(p),
    decreases ws.len(),
{
    let wsu = ws.update(w, p);
    let d = ws.drop_first();
    if w == 0 {
        assert(wsu.drop_first() =~= d);
    } else {
        lemma_update_effect(d, w - 1, p);
        assert(wsu.drop_first() =~= d.update(w - 1, p));
        assert(d[w - 1] == ws[w]);
        assert(stopped_count(wsu) == phase_stopped(ws[0]) + stopped_count(d.update(w - 1, p)));
    }
}

/// The jobs the pool accounts for: already handed to a worker, or still
/// queued. Delivery moves a job from the second part to the first and
/// nothing else touches either, so this account never changes.
pub open spec fn job_account<J>(s: RunState<J>) -> Multiset<J> {
    s.invoked.add(queued_jobs(s.queue))
}

/// The terminations the pool accounts for: workers already stopped plus
/// termination messages still queued.
pub open spec fn stop_account<J>(s: RunState<J>) -> int {
    stopped_count(s.workers) + queued_terminates(s.queue)
}

/// One scheduling event neither makes nor loses a job or a termination:
/// both accounts are unchanged, and so is the number of workers.
pub proof fn lemma_step_preserves<J>(s: RunState<J>, e: Event)
    requires
        enabled(s, e),
    ensures
        job_account(step(s, e)) == job_account(s),
        stop_account(step(s, e)) == stop_account(s),
        step(s, e).workers.len() == s.workers.len(),
{
    let t = step(s, e);
    match e {
        Event::Deliver(w) => {
            let p = (match s.queue[0] {
                Message::Work(j) => Phase::Busy(j),
                Message::Terminate => Phase::<J>::Stopped,
            });
            lemma_update_effect(s.workers, w, p);
            assert(queued_jobs(s.queue)
                == msg_jobs(s.queue[0]).add(queued_jobs(s.queue.drop_first())));
            assert(job_account(t) =~= job_account(s));
        },
        Event::Finish(w, _) => {
            lemma_update_effect(s.workers, w, Phase::<J>::Idle);
            assert(job_account(t) =~= job_account(s));
        },
    }
}

/// A whole run keeps both accounts: however the workers and the queue are
/// interleaved, no job and no termination appears or disappears.
pub proof fn lemma_run_preserves<J>(s: RunState<J>, evs: Seq<Event>)
    requires
        run_enabled(s, evs),
    ensures
        job_account(run(s, evs)) == job_account(s),
        stop_account(run(s, evs)) == stop_account(s),
        run(s, evs).workers.len() == s.workers.len(),
    decreases evs.len(),
{
    if evs.len() > 0 {
        lemma_step_preserves(s, evs[0]);
        lemma_run_preserves(step(s, evs[0]), evs.drop_first());
    }
}

/// Every prefix of a valid run is itself a valid run: what holds of all
/// valid runs holds at every instant of one.
pub proof fn lemma_run_enabled_take<J>(s: RunState<J>, evs: Seq<Event>, m: int)
    requires
        run_enabled(s, evs),
        0 <= m <= evs.len(),
    ensures
        run_enabled(s, evs.take(m)),
    decreases m,
{
    if m > 0 {
        assert(evs.take(m)[0] == evs[0]);
        assert(evs.take(m).drop_first() =~= evs.drop_first().take(m - 1));
        lemma_run_enabled_take(step(s, evs[0]), evs.drop_first(), m - 1);
    }
}

/// There are never more jobs in flight than there are worker slots.
proof fn lemma_in_flight_le_len<J>(ws: Seq<Phase<J>>)
    ensures
        in_flight(ws).len() <= ws.len(),
    decreases ws.len(),
{
    if ws.len() > 0 {
        lemma_in_flight_le_len(ws.drop_first());
        assert(phase_jobs(ws[0]).len() <= 1);
    }
}

/// The stopped count lies between zero and the worker count, and reaches
/// the worker count only when every single worker has stopped.
proof fn lemma_stopped_count_range<J>(ws: Seq<Phase<J>>)
    ensures
        0 <= stopped_count(ws) <= ws.len(),
        stopped_count(ws) == ws.len() ==> forall|i: int|
            0 <= i < ws.len() ==> ws[i] == Phase::<J>::Stopped,
    decreases ws.len(),
{
    if ws.len() > 0 {
        lemma_stopped_count_range(ws.drop_first());
        if stopped_count(ws) == ws.len() {
            assert(phase_stopped(ws[0]) == 1);
            assert(stopped_count(ws.drop_first()) == ws.drop_first().len());
            assert forall|i: int| 0 <= i < ws.len()
                implies ws[i] == Phase::<J>::Stopped by {
                if i > 0 {
                    assert(ws.drop_first()[i - 1] == ws[i]);
                }
            }
        }
    }
}

/// A sequence of workers all of which have stopped counts them all.
proof fn lemma_stopped_count_all<J>(ws: Seq<Phase<J>>)
    requires
        forall|i: int| 0 <= i < ws.len() ==> ws[i] == Phase::<J>::Stopped,
    ensures
        stopped_count(ws) == ws.len(),
    decreases ws.len(),
{
    if ws.len() > 0 {
        assert(ws[0] == Phase::<J>::Stopped);
        assert(forall|i: int| 0 <= i < ws.drop_first().len()
            ==> ws.drop_first()[i] == ws[i + 1]);
        lemma_stopped_count_all(ws.drop_first());
    }
}

/// The count of queued terminations is never negative.
proof fn lemma_queued_terminates_nonneg<J>(q: Seq<Message<J>>)
    ensures
        queued_terminates(q) >= 0,
    decreases q.len(),
{
    if q.len() > 0 {
        lemma_queued_terminates_nonneg(q.drop_first());
    }
}

/// A queue with no termination message queued holds jobs only.
proof fn lemma_no_terminates_all_work<J>(q: Seq<Message<J>>)
    requires
        queued_terminates(q) == 0,
    ensures
        forall|i: int| 0 <= i < q.len() ==> (#[trigger] q[i]).is_work(),
    decreases q.len(),
{
    if q.len() > 0 {
        lemma_queued_terminates_nonneg(q.drop_first());
        assert(msg_terminate(q[0]) == 0);
        assert(q[0].is_work());
        lemma_no_terminates_all_work(q.drop_first());
        assert forall|i: int| 0 <= i < q.len() implies (#[trigger] q[i]).is_work() by {
            if i > 0 {
                assert(q.drop_first()[i - 1] == q[i]);
            }
        }
    }
}

/// The queue only ever shrinks from the front: at any point of a run what
/// remains queued is exactly a tail of what was queued at the start.
proof fn lemma_run_queue_suffix<J>(s: RunState<J>, evs: Seq<Event>)
    requires
        run_enabled(s, evs),
    ensures
        run(s, evs).queue.len() <= s.queue.len(),
        run(s, evs).queue == s.queue.skip(s.queue.len() - run(s, evs).queue.len()),
    decreases evs.len(),
{
    if evs.len() == 0 {
        assert(s.queue.skip(0) =~= s.queue);
    } else {
        let t = step(s, evs[0]);
        lemma_run_queue_suffix(t, evs.drop_first());
        let qf = run(s, evs).queue;
        if t.queue == s.queue {
            assert(qf == s.queue.skip(s.queue.len() - qf.len()));
        } else {
            assert(t.queue == s.queue.drop_first());
            assert(s.queue.drop_first() =~= s.queue.skip(1));
            assert(s.queue.skip(1).skip(t.queue.len() - qf.len())
                =~= s.queue.skip(s.queue.len() - qf.len()));
        }
    }
}

/// A sequence of workers none of which has stopped counts zero stopped.
proof fn lemma_stopped_count_zero<J>(ws: Seq<Phase<J>>)
    requires
        forall|i: int| 0 <= i < ws.len() ==> ws[i] != Phase::<J>::Stopped,
    ensures
        stopped_count(ws) == 0,
    decreases ws.len(),
{
    if ws.len() > 0 {
        assert(ws[0] != Phase::<J>::Stopped);
        assert(forall|i: int| 0 <= i < ws.drop_first().len()
            ==> ws.drop_first()[i] == ws[i + 1]);
        lemma_stopped_count_zero(ws.drop_first());
    }
}

/// Queue contents add up over concatenation, jobs and terminations alike.
proof fn lemma_queued_concat<J>(a: Seq<Message<J>>, b: Seq<Message<J>>)
    ensures
        queued_jobs(a + b) == queued_jobs(a).add(queued_jobs(b)),
        queued_terminates(a + b) == queued_terminates(a) + queued_terminates(b),
    decreases a.len(),
{
    if a.len() == 0 {
        assert(a + b =~= b);
        assert(queued_jobs(a + b) =~= queued_jobs(a).add(queued_jobs(b)));
    } else {
        lemma_queued_concat(a.drop_first(), b);
        assert((a + b).drop_first() =~= a.drop_first() + b);
        assert((a + b)[0] == a[0]);
        assert(queued_jobs(a + b) =~= queued_jobs(a).add(queued_jobs(b)));
    }
}

/// A queue of submitted jobs holds exactly those jobs and no termination.
proof fn lemma_work_seq_content<J>(jobs: Seq<J>)
    ensures
        queued_jobs(work_seq(jobs)) == jobs.to_multiset(),
        queued_terminates(work_seq(jobs)) == 0,
    decreases jobs.len(),
{
    broadcast use vstd::seq_lib::group_to_multiset_ensures;

    if jobs.len() == 0 {
        assert(jobs.to_multiset() =~= Multiset::<J>::empty());
        assert(queued_jobs(work_seq(jobs)) =~= jobs.to_multiset());
    } else {
        lemma_work_seq_content(jobs.drop_first());
        assert(work_seq(jobs).drop_first() =~= work_seq(jobs.drop_first()));
        assert(work_seq(jobs)[0] == Message::Work(jobs[0]));
        assert(jobs.remove(0) =~= jobs.drop_first());
        assert(jobs.drop_first().to_multiset() == jobs.to_multiset().remove(jobs[0]));
        assert(jobs.contains(jobs[0]));
        assert(jobs.to_multiset().count(jobs[0]) > 0);
        assert(queued_jobs(work_seq(jobs)) =~= jobs.to_multiset());
    }
}

/// The block of termination messages holds no job and `n` terminations.
proof fn lemma_terminate_seq_content<J>(n: nat)
    ensures
        queued_jobs(terminate_seq::<J>(n)) == Multiset::<J>::empty(),
        queued_terminates(terminate_seq::<J>(n)) == n,
    decreases n,
{
    if n > 0 {
        lemma_terminate_seq_content::<J>((n - 1) as nat);
        assert(terminate_seq::<J>(n).drop_first() =~= terminate_seq::<J>((n - 1) as nat));
        assert(queued_jobs(terminate_seq::<J>(n)) =~= Multiset::<J>::empty());
    } else {
        assert(queued_jobs(terminate_seq::<J>(n)) =~= Multiset::<J>::empty());
    }
}

/// Drain-then-stop. Start `n` idle workers on the queue that shutdown
/// leaves behind: the submitted jobs, in order, followed by one termination
/// message per worker. However the deliveries and completions interleave,
/// a run that comes to rest has invoked every submitted job exactly once —
/// no job is lost and none runs twice — and every one of the `n` workers
/// has stopped.
pub proof fn lemma_pool_drains<J>(n: nat, jobs: Seq<J>, evs: Seq<Event>)
    requires
        run_enabled(initial(n, work_seq(jobs) + terminate_seq::<J>(n)), evs),
        complete(run(initial(n, work_seq(jobs) + terminate_seq::<J>(n)), evs)),
    ensures
        run(initial(n, work_seq(jobs) + terminate_seq::<J>(n)), evs).invoked
            == jobs.to_multiset(),
        run(initial(n, work_seq(jobs) + terminate_seq::<J>(n)), evs).workers.len() == n,
        forall|i: int| 0 <= i < n
            ==> run(initial(n, work_seq(jobs) + terminate_seq::<J>(n)), evs).workers[i]
                == Phase::<J>::Stopped,
{
    let q0 = work_seq(jobs) + terminate_seq::<J>(n);
    let s0 = initial(n, q0);
    let sf = run(s0, evs);
    lemma_run_preserves(s0, evs);
    lemma_queued_concat(work_seq(jobs), terminate_seq::<J>(n));
    lemma_work_seq_content(jobs);
    lemma_terminate_seq_content::<J>(n);
    assert(forall|i: int| 0 <= i < s0.workers.len() ==> s0.workers[i] == Phase::<J>::Idle);
    lemma_stopped_count_zero(s0.workers);
    assert(queued_jobs(sf.queue) == Multiset::<J>::empty());
    assert(queued_terminates(sf.queue) == 0);
    assert forall|x: J| sf.invoked.count(x) == jobs.to_multiset().count(x) by {
        assert(job_account(sf).count(x) == job_account(s0).count(x));
        assert(queued_jobs(q0)
            == jobs.to_multiset().add(Multiset::<J>::empty()));
        assert(queued_jobs(q0).count(x) == jobs.to_multiset().count(x));
        assert(job_account(s0).count(x) == jobs.to_multiset().count(x));
        assert(job_account(sf).count(x) == sf.invoked.count(x));
    }
    assert(sf.invoked =~= jobs.to_multiset());
    assert(stopped_count(sf.workers) == n);
    lemma_stopped_count_range(sf.workers);
}

/// What holds at the moment `shutdown`'s join returns: every worker has
/// taken its termination message and exited. Because delivery is strictly
/// from the front of the queue, the termination messages standing behind
/// every submitted job can only have been reached after every job was taken:
/// once all `n` workers have stopped, the queue is empty and every submitted
/// job has been invoked exactly once. This is the drain-then-stop guarantee —
/// shutdown never returns with a queued job left behind.
pub proof fn lemma_all_stopped_drains<J>(n: nat, jobs: Seq<J>, evs: Seq<Event>)
    requires
        n > 0,
        run_enabled(initial(n, work_seq(jobs) + terminate_seq::<J>(n)), evs),
        forall|i: int| 0 <= i < n
            ==> run(initial(n, work_seq(jobs) + terminate_seq::<J>(n)), evs).workers[i]
                == Phase::<J>::Stopped,
    ensures
        run(initial(n, work_seq(jobs) + terminate_seq::<J>(n)), evs).queue.len() == 0,
        run(initial(n, work_seq(jobs) + terminate_seq::<J>(n)), evs).invoked
            == jobs.to_multiset(),
{
    let q0 = work_seq(jobs) + terminate_seq::<J>(n);
    let s0 = initial(n, q0);
    let sf = run(s0, evs);
    lemma_run_preserves(s0, evs);
    lemma_run_queue_suffix(s0, evs);
    assert(forall|i: int| 0 <= i < s0.workers.len() ==> s0.workers[i] == Phase::<J>::Idle);
    lemma_stopped_count_zero(s0.workers);
    lemma_stopped_count_all(sf.workers);
    lemma_queued_concat(work_seq(jobs), terminate_seq::<J>(n));
    lemma_work_seq_content(jobs);
    lemma_terminate_seq_content::<J>(n);
    assert(queued_terminates(q0) == n);
    assert(queued_terminates(sf.queue) == 0);
    lemma_no_terminates_all_work(sf.queue);
    if sf.queue.len() > 0 {
        let last = q0.len() - 1;
        assert(q0[last] == terminate_seq::<J>(n)[n - 1]);
        assert(q0[last] == Message::<J>::Terminate);
        assert(sf.queue[sf.queue.len() - 1] == q0[last]);
        assert(sf.queue[sf.queue.len() - 1].is_work());
        assert(false);
    }
    assert(forall|i: int| 0 <= i < sf.workers.len() ==> !(#[trigger] sf.workers[i]).is_busy());
    lemma_pool_drains(n, jobs, evs);
}

/// A pool built with `n` workers and shut down at once, with no job ever
/// submitted, can run to rest: handing the `i`-th termination message to
/// the `i`-th worker is a valid schedule, it empties the queue, and it
/// stops all `n` workers.
pub proof fn lemma_fresh_shutdown_completes<J>(n: nat)
    ensures
        ({
            let s = initial(n, terminate_seq::<J>(n));
            let evs = Seq::new(n, |i: int| Event::Deliver(i));
            run_enabled(s, evs) && complete(run(s, evs)) && forall|i: int|
                0 <= i < n ==> run(s, evs).workers[i] == Phase::<J>::Stopped
        }),
{
    let s = initial(n, terminate_seq::<J>(n));
    let evs = Seq::new(n, |i: int| Event::Deliver(i));
    lemma_deliver_terminates(s.workers, 0, Multiset::<J>::empty());
    let helper_evs = Seq::new((s.workers.len() - 0) as nat, |i: int| Event::Deliver(0 + i));
    assert(evs =~= helper_evs);
    assert(s.queue =~= terminate_seq::<J>((s.workers.len() - 0) as nat));
    let sf = run(s, evs);
    assert(forall|i: int| 0 <= i < sf.workers.len() ==> !(#[trigger] sf.workers[i]).is_busy());
}

/// Delivering the queued termination messages in order to the workers from
/// slot `k` on, all of them idle, is a valid schedule that stops exactly
/// those workers, leaves the rest untouched, and empties the queue.
proof fn lemma_deliver_terminates<J>(ws: Seq<Phase<J>>, k: int, inv: Multiset<J>)
    requires
        0 <= k <= ws.len(),
        forall|i: int| k <= i < ws.len() ==> ws[i] == Phase::<J>::Idle,
    ensures
        ({
            let m = (ws.len() - k) as nat;
            let s = RunState { workers: ws, queue: terminate_seq::<J>(m), invoked: inv };
            let evs = Seq::new(m, |i: int| Event::Deliver(k + i));
            run_enabled(s, evs) && run(s, evs).queue.len() == 0 && run(s, evs).invoked == inv
                && run(s, evs).workers.len() == ws.len() && (forall|i: int|
                0 <= i < k ==> run(s, evs).workers[i] == ws[i]) && (forall|i: int|
                k <= i < ws.len() ==> run(s, evs).workers[i] == Phase::<J>::Stopped)
        }),
    decreases ws.len() - k,
{
    let m = (ws.len() - k) as nat;
    let s = RunState { workers: ws, queue: terminate_seq::<J>(m), invoked: inv };
    let evs = Seq::new(m, |i: int| Event::Deliver(k + i));
    if k < ws.len() {
        assert(evs[0] == Event::Deliver(k + 0));
        assert(ws[k + 0] == Phase::<J>::Idle);
        assert(enabled(s, evs[0]));
        assert(s.queue[0] == Message::<J>::Terminate);
        let ws1 = ws.update(k, Phase::<J>::Stopped);
        lemma_deliver_terminates(ws1, k + 1, inv);
        let m1 = (ws1.len() - (k + 1)) as nat;
        let s1 = RunState { workers: ws1, queue: terminate_seq::<J>(m1), invoked: inv };
        let evs1 = Seq::new(m1, |i: int| Event::Deliver(k + 1 + i));
        assert(s.queue.drop_first() =~= s1.queue);
        assert(ws.update(k + 0, Phase::<J>::Stopped) =~= ws1);
        assert(step(s, evs[0]) == s1);
        assert(evs.drop_first() =~= evs1);
        assert(run(s, evs) == run(s1, evs1));
        assert(run_enabled(s1, evs1));
        assert(run_enabled(s, evs));
        assert forall|i: int| 0 <= i < k implies run(s, evs).workers[i] == ws[i] by {
            assert(run(s1, evs1).workers[i] == ws1[i]);
            assert(ws1[i] == ws[i]);
        }
        assert forall|i: int| k <= i < ws.len()
            implies run(s, evs).workers[i] == Phase::<J>::Stopped by {
            if i == k {
                assert(run(s1, evs1).workers[i] == ws1[i]);
                assert(ws1[k] == Phase::<J>::Stopped);
            }
        }
    } else {
        assert(evs.len() == 0);
        assert(run(s, evs) == s);
    }
}

/// A job that fails costs the pool nothing. The worker that ran it is idle
/// again at once, every other worker is untouched, no worker stops, and
/// whatever stands at the front of the queue can still be delivered —
/// to that same worker or to any other idle one.
pub proof fn lemma_failure_keeps_capacity<J>(s: RunState<J>, w: int)
    requires
        enabled(s, Event::Finish(w, true)),
    ensures
        step(s, Event::Finish(w, true)).workers[w] == Phase::<J>::Idle,
        forall|i: int| 0 <= i < s.workers.len() && i != w
            ==> step(s, Event::Finish(w, true)).workers[i] == s.workers[i],
        stopped_count(step(s, Event::Finish(w, true)).workers) == stopped_count(s.workers),
        step(s, Event::Finish(w, true)).queue == s.queue,
        step(s, Event::Finish(w, true)).invoked == s.invoked,
        s.queue.len() > 0 ==> enabled(step(s, Event::Finish(w, true)), Event::Deliver(w)),
{
    lemma_update_effect(s.workers, w, Phase::<J>::Idle);
}

/// At no instant of a run are more jobs being executed than the pool has
/// workers: `n` workers never run more than `n` jobs at once.
pub proof fn lemma_in_flight_bounded<J>(n: nat, q: Seq<Message<J>>, evs: Seq<Event>)
    requires
        run_enabled(initial(n, q), evs),
    ensures
        in_flight(run(initial(n, q), evs).workers).len() <= n,
{
    lemma_run_preserves(initial(n, q), evs);
    lemma_in_flight_le_len(run(initial(n, q), evs).workers);
}

} // verus!

//! The scheduling and lifetime guarantees the kernel makes, stated and
//! proved over the contracts of its operations: pid freshness, cascading
//! termination, the exactness of sleep wake-ups, and the ordering of
//! tick-deferred work.

use vstd::prelude::*;

use crate::kernel::{
    dispatch_mid, done_step, error_step, fork_pids, result_step, run_tasks_for, wake_pids_for,
    wake_without, Kernel, SysCommand, Task, TaskType,
};
use crate::lineage::{
    lemma_children_subtrees_mem, lemma_subtree_root, lemma_subtree_trans, subtree,
};
use crate::process::{MaybeSerializedProcess, PResult, Process};

verus! {

/// Pid allocation never reuses a pid: in a well-formed kernel every
/// registered pid lies strictly below the next-pid counter, so the pid the
/// next launch or fork assigns is distinct from every pid that is or ever
/// was registered, and later assignments are strictly larger.
pub proof fn lemma_next_pid_fresh<P: Process>(k: Kernel<P>)
    requires
        k.wf(),
    ensures
        !k.infos().contains_key(k.next_pid()),
        !k.procs().contains_key(k.next_pid()),
        forall|p: u32| #[trigger] k.infos().contains_key(p) ==> p < k.next_pid(),
{
}

/// The removed subtree is transitively closed over recorded children: if a
/// member of the subtree of `root` records a child, that child is a member
/// too.  Together with the Done and Error dispatch contracts, whose final
/// tables drop exactly the subtree of the finished pid, this says that
/// terminating a process terminates every transitive descendant.
pub proof fn lemma_subtree_closed<P: Process>(k: Kernel<P>, root: u32, x: u32, j: int)
    requires
        k.wf(),
        subtree(k.infos(), root, k.next_pid() as int).contains(x),
        k.infos().contains_key(x),
        0 <= j < k.infos()[x].children_processes@.len(),
    ensures
        subtree(k.infos(), root, k.next_pid() as int).contains(
            k.infos()[x].children_processes@[j],
        ),
{
    let infos = k.infos();
    let bound = k.next_pid() as int;
    let c = infos[x].children_processes@[j];
    let children = infos[x].children_processes@;
    lemma_subtree_root(infos, c, bound);
    lemma_children_subtrees_mem(infos, children, x, bound, children.len() as int, c);
    assert(subtree(infos, x, bound).contains(c));
    lemma_subtree_trans(infos, root, bound, x, c);
}

/// A dispatch that ends in Done or Error removes the finished pid itself
/// and every pid it transitively forked from both tables.
pub proof fn lemma_termination_reaps_subtree<P: Process>(
    pre: Kernel<P>,
    post: Kernel<P>,
    pid: u32,
    d: u32,
    rv: Option<P::Return>,
    by_error: bool,
)
    requires
        pre.wf(),
        if by_error {
            error_step(pre, post, pid)
        } else {
            done_step(pre, post, pid, rv)
        },
        subtree(pre.infos(), pid, pre.next_pid() as int).contains(d),
    ensures
        !post.infos().contains_key(d),
        !post.procs().contains_key(d),
{
    let sub = subtree(pre.infos(), pid, pre.next_pid() as int);
    if !by_error {
        match crate::kernel::join_target(pre.infos(), pid) {
            Some(pp) => {
                assert(post.infos().dom() == pre.infos().dom().difference(sub));
            },
            None => {
            },
        }
    }
}

/// A fork performed during a dispatch registers every new process as a
/// child of the dispatching pid: the dispatching process's recorded
/// children are extended by exactly the new pids, in fork order, and each
/// new entry records the dispatching pid as its parent.  Because the new
/// pids become subtree members of the dispatching pid, a later termination
/// of the parent reaps them even if they were never addressed directly.
pub proof fn lemma_fork_registers_children<P: Process>(
    pre: Kernel<P>,
    mid: Kernel<P>,
    commands: Seq<SysCommand<P::Content, P>>,
    pid: u32,
    k: int,
)
    requires
        pre.wf(),
        pre.infos().contains_key(pid),
        dispatch_mid(pre, mid, commands, pid),
        0 <= k < fork_pids(commands, pre.next_pid() as int).len(),
    ensures
        mid.infos()[pid].children_processes@ == pre.infos()[pid].children_processes@
            + fork_pids(commands, pre.next_pid() as int),
        mid.infos().contains_key(fork_pids(commands, pre.next_pid() as int)[k]),
        mid.infos()[fork_pids(commands, pre.next_pid() as int)[k]].parent_pid == Some(pid),
        subtree(mid.infos(), pid, mid.next_pid() as int).contains(
            fork_pids(commands, pre.next_pid() as int)[k],
        ),
{
    let base = pre.next_pid() as int;
    let fp = fork_pids(commands, base);
    let c = fp[k];
    assert(crate::kernel::forked_entry_ok(
        mid.infos(),
        mid.procs(),
        fp,
        crate::kernel::forked_processes(commands),
        pid,
        k,
    ));
    let children = mid.infos()[pid].children_processes@;
    let j = pre.infos()[pid].children_processes@.len() as int + k;
    assert(children[j] == c);
    assert(pid < c) by {
        assert(fp[k] == base + k);
    }
    assert(c < mid.next_pid()) by {
        assert(fp[k] == base + k);
        assert(fp.len() == crate::kernel::fork_count(commands));
    }
    lemma_subtree_root(mid.infos(), c, mid.next_pid() as int);
    lemma_children_subtrees_mem(
        mid.infos(),
        children,
        pid,
        mid.next_pid() as int,
        children.len() as int,
        c,
    );
}

/// Every pid a wake index yields for a tick comes from an entry recorded
/// under exactly that tick.
pub proof fn lemma_wake_pids_sourced(wake: Seq<(u32, u32)>, tick: u32, x: u32)
    requires
        wake_pids_for(wake, tick).contains(x),
    ensures
        exists|i: int| 0 <= i < wake.len() && wake[i] == (tick, x),
    decreases wake.len(),
{
    if wake.len() > 0 {
        if wake[0].0 == tick && wake[0].1 == x {
            assert(wake[0] == (tick, x));
        } else {
            let rest = wake_pids_for(wake.drop_first(), tick);
            assert(rest.contains(x)) by {
                let pids = wake_pids_for(wake, tick);
                let i = choose|i: int| 0 <= i < pids.len() && pids[i] == x;
                if wake[0].0 == tick {
                    assert(pids[0] == wake[0].1);
                    assert(rest[i - 1] == x);
                } else {
                    assert(rest[i] == x);
                }
            }
            lemma_wake_pids_sourced(wake.drop_first(), tick, x);
            let i = choose|i: int|
                0 <= i < wake.drop_first().len() && wake.drop_first()[i] == (tick, x);
            assert(wake[i + 1] == (tick, x));
        }
    }
}

/// Erasing one tick's entries from a wake index leaves every other tick's
/// pid list exactly as it was.
pub proof fn lemma_wake_without_preserves_other_ticks(
    wake: Seq<(u32, u32)>,
    erased: u32,
    tick: u32,
)
    requires
        erased != tick,
    ensures
        wake_pids_for(wake_without(wake, erased), tick) == wake_pids_for(wake, tick),
    decreases wake.len(),
{
    if wake.len() > 0 {
        lemma_wake_without_preserves_other_ticks(wake.drop_first(), erased, tick);
        if wake[0].0 == erased {
            assert(wake_pids_for(wake_without(wake, erased), tick) =~= wake_pids_for(wake, tick));
        } else {
            assert((seq![wake[0]] + wake_without(wake.drop_first(), erased)).drop_first()
                =~= wake_without(wake.drop_first(), erased));
            assert(wake_pids_for(wake_without(wake, erased), tick) =~= wake_pids_for(wake, tick));
        }
    }
}

/// A Sleep(n) issued at tick T schedules exactly one wake-up for the
/// sleeping pid, at tick T+n and at no other: as long as the pid has no
/// other wake entry, a tick-advance to any earlier (or other) tick neither
/// wakes it nor disturbs its entry, and the advance to tick T+n wakes it
/// exactly once.
pub proof fn lemma_sleep_wakes_exactly_once(wake: Seq<(u32, u32)>, pid: u32, t: u32, t2: u32)
    requires
        forall|i: int| 0 <= i < wake.len() ==> (#[trigger] wake[i]).1 != pid,
    ensures
        wake_pids_for(wake.push((t, pid)), t) == wake_pids_for(wake, t).push(pid),
        !wake_pids_for(wake, t).contains(pid),
        t2 != t ==> !wake_pids_for(wake.push((t, pid)), t2).contains(pid),
        t2 != t ==> wake_pids_for(wake_without(wake.push((t, pid)), t2), t) == wake_pids_for(
            wake.push((t, pid)),
            t,
        ),
{
    crate::kernel::lemma_wake_push(wake, (t, pid), t);
    if wake_pids_for(wake, t).contains(pid) {
        lemma_wake_pids_sourced(wake, t, pid);
        assert(false);
    }
    if t2 != t {
        crate::kernel::lemma_wake_push(wake, (t, pid), t2);
        if wake_pids_for(wake.push((t, pid)), t2).contains(pid) {
            lemma_wake_pids_sourced(wake, t2, pid);
            assert(false);
        }
        lemma_wake_without_preserves_other_ticks(wake.push((t, pid)), t2, t);
    }
}

/// A dispatch that ends in YieldTick reschedules its pid to run at most
/// once per tick, strictly after everything queued for the current tick:
/// the current queue is left exactly as it was, so the pid gains no
/// further run this tick, and once the deferred queue is merged at the
/// next tick-advance, the deferred run sits at an index past every task
/// the current queue still held and every wake-up of that tick.
pub proof fn lemma_yield_tick_ordering<P: Process>(
    mid: Kernel<P>,
    post: Kernel<P>,
    payload: MaybeSerializedProcess<P>,
    pid: u32,
    woken: Seq<u32>,
)
    requires
        result_step(mid, post, payload, PResult::YieldTick, pid),
    ensures
        post.queue() == mid.queue(),
        post.deferred() == mid.deferred().push(Task { ty: TaskType::Run, pid }),
        ({
            let merged = post.queue() + run_tasks_for::<P::Content, P::Return>(woken)
                + post.deferred();
            let at = post.queue().len() + woken.len() + mid.deferred().len();
            &&& merged[at as int] == Task::<P::Content, P::Return> { ty: TaskType::Run, pid }
            &&& at >= post.queue().len()
        }),
{
    let merged = post.queue() + run_tasks_for::<P::Content, P::Return>(woken) + post.deferred();
    let at = post.queue().len() + woken.len() + mid.deferred().len();
    assert(run_tasks_for::<P::Content, P::Return>(woken).len() == woken.len());
    assert(merged[at as int] == post.deferred()[mid.deferred().len() as int]);
}

} // verus!

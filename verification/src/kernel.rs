//! The kernel: task queues, the per-dispatch capability handle, the process
//! registry, the wake index, and the driver loop that pops one task at a
//! time and routes each lifecycle outcome through the scheduling rules.

use std::collections::HashMap;
use std::collections::VecDeque;

use vstd::prelude::*;

use crate::lineage::{
    children_subtrees, info_wf, lemma_children_subtrees_mem, lemma_info_wf_submap,
    lemma_subtree_agree_above, lemma_subtree_geq, lemma_subtree_provenance,
    lemma_subtree_remove_complete,
    lemma_subtree_root, lemma_subtree_submap, lemma_subtree_trans, subtree,
};
use crate::process::{MaybeSerializedProcess, Message, PResult, PSignalResult, Process};

verus! {

broadcast use vstd::std_specs::hash::group_hash_axioms;

/// The trigger of a queued task: which lifecycle method the dispatcher will
/// invoke on the target process, and with what payload.
pub enum TaskType<M, R> {
    /// First dispatch after launch; invokes `start`.
    Start,
    /// An ordinary scheduled run; invokes `run`.
    Run,
    /// A finished child's return value, delivered to its parent; invokes
    /// `join`.
    Join(Option<R>),
    /// A message from another process; invokes `receive`.
    ReceiveMessage(Message<M>),
}

impl<M, R> Default for TaskType<M, R> {
    fn default() -> (t: Self)
        ensures
            t is Start,
    {
        TaskType::Start
    }
}

/// A queued unit of work: a trigger kind aimed at a target pid.
pub struct Task<M, R> {
    /// What to invoke on the target.
    pub ty: TaskType<M, R>,
    /// The pid of the process the task addresses.
    pub pid: u32,
}

/// The task queues: a FIFO queue drained during the current tick, and a
/// secondary FIFO queue of work deferred to the start of the next tick.
pub struct Scheduler<M, R> {
    pub(crate) task_queue: VecDeque<Task<M, R>>,
    pub(crate) next_tick_tasks: VecDeque<Task<M, R>>,
}

impl<M, R> Scheduler<M, R> {
    /// The pending tasks for the current tick, front first.
    pub closed spec fn queue(self) -> Seq<Task<M, R>> {
        self.task_queue@
    }

    /// The tasks deferred to the next tick, front first.
    pub closed spec fn deferred(self) -> Seq<Task<M, R>> {
        self.next_tick_tasks@
    }

    pub fn new() -> (s: Self)
        ensures
            s.queue() == Seq::<Task<M, R>>::empty(),
            s.deferred() == Seq::<Task<M, R>>::empty(),
    {
        Scheduler { task_queue: VecDeque::new(), next_tick_tasks: VecDeque::new() }
    }

    /// Pop the front task of the current-tick queue, if any.
    pub fn next(&mut self) -> (t: Option<Task<M, R>>)
        ensures
            match t {
                Some(task) => old(self).queue().len() > 0 && task == old(self).queue()[0]
                    && final(self).queue() == old(self).queue().drop_first(),
                None => old(self).queue().len() == 0 && final(self).queue() == old(self).queue(),
            },
            final(self).deferred() == old(self).deferred(),
    {
        self.task_queue.pop_front()
    }

    /// Enqueue the first dispatch of a freshly launched process.
    pub fn launch_process(&mut self, pid: u32)
        ensures
            final(self).queue() == old(self).queue().push(Task { ty: TaskType::Start, pid }),
            final(self).deferred() == old(self).deferred(),
    {
        self.schedule(pid, TaskType::Start);
    }

    /// Re-enqueue a run of `pid` within the current tick.
    pub fn reschedule(&mut self, pid: u32)
        ensures
            final(self).queue() == old(self).queue().push(Task { ty: TaskType::Run, pid }),
            final(self).deferred() == old(self).deferred(),
    {
        self.schedule(pid, TaskType::Run);
    }

    /// Defer a run of `pid` to the next tick, after everything already
    /// queued for the current one.
    pub fn schedule_next_tick(&mut self, pid: u32)
        ensures
            final(self).deferred() == old(self).deferred().push(
                Task { ty: TaskType::Run, pid },
            ),
            final(self).queue() == old(self).queue(),
    {
        self.next_tick_tasks.push_back(Task { ty: TaskType::Run, pid });
    }

    /// Enqueue delivery of a finished child's return value to its parent.
    pub fn join_process(&mut self, parent_pid: u32, result: Option<R>)
        ensures
            final(self).queue() == old(self).queue().push(
                Task { ty: TaskType::Join(result), pid: parent_pid },
            ),
            final(self).deferred() == old(self).deferred(),
    {
        self.schedule(parent_pid, TaskType::Join(result));
    }

    /// Enqueue delivery of a message to its recipient.
    pub fn send_message(&mut self, receiver_pid: u32, msg: Message<M>)
        ensures
            final(self).queue() == old(self).queue().push(
                Task { ty: TaskType::ReceiveMessage(msg), pid: receiver_pid },
            ),
            final(self).deferred() == old(self).deferred(),
    {
        self.schedule(receiver_pid, TaskType::ReceiveMessage(msg));
    }

    /// Merge the deferred queue into the current queue, strictly after
    /// whatever the current queue still holds, preserving FIFO order of the
    /// deferred entries.
    pub fn next_tick(&mut self)
        ensures
            final(self).queue() == old(self).queue() + old(self).deferred(),
            final(self).deferred() == Seq::<Task<M, R>>::empty(),
    {
        self.task_queue.append(&mut self.next_tick_tasks);
    }

    fn schedule(&mut self, pid: u32, ty: TaskType<M, R>)
        ensures
            final(self).queue() == old(self).queue().push(Task { ty, pid }),
            final(self).deferred() == old(self).deferred(),
    {
        self.task_queue.push_back(Task { ty, pid });
    }
}

impl<M, R> Default for Scheduler<M, R> {
    fn default() -> (s: Self)
        ensures
            s.queue() == Seq::<Task<M, R>>::empty(),
            s.deferred() == Seq::<Task<M, R>>::empty(),
    {
        Scheduler::new()
    }
}

/// A request buffered by the capability handle during one dispatch, applied
/// to the kernel as soon as the lifecycle call returns.
pub enum SysCommand<M, P> {
    /// Launch this instance as a child of the dispatching process.
    Fork(P),
    /// Deliver this message to the given recipient pid.
    Send(u32, Message<M>),
}

/// The number of fork requests in a command list.
pub closed spec fn fork_count<M, P>(commands: Seq<SysCommand<M, P>>) -> int
    decreases commands.len(),
{
    if commands.len() == 0 {
        0
    } else {
        fork_count(commands.drop_last()) + match commands.last() {
            SysCommand::Fork(_) => 1int,
            SysCommand::Send(_, _) => 0int,
        }
    }
}

/// The per-dispatch capability handle: the only surface through which a
/// running process may fork children or send messages.  It cannot be
/// constructed by process code; the kernel builds one for each dispatch,
/// bound to the dispatching pid, and applies the buffered requests when the
/// lifecycle call returns.
///
/// Pids for forked children are promised eagerly from the kernel's next-pid
/// counter, captured at the start of the dispatch; the kernel assigns the
/// same pids when it applies the buffered forks.
pub struct SysCall<M, P> {
    user_pid: u32,
    first_pid: u32,
    next_pid: u32,
    commands: Vec<SysCommand<M, P>>,
}

impl<M, P> SysCall<M, P> {
    /// The pid of the process this handle was built for.
    pub closed spec fn pid(self) -> u32 {
        self.user_pid
    }

    /// The kernel's next-pid counter at the moment the handle was built.
    pub closed spec fn base(self) -> u32 {
        self.first_pid
    }

    /// The next pid this handle would promise to a forked child.
    pub closed spec fn promised_next(self) -> u32 {
        self.next_pid
    }

    /// The buffered requests, in the order they were issued.
    pub closed spec fn commands(self) -> Seq<SysCommand<M, P>> {
        self.commands@
    }

    /// The handle's integrity: the pids it has promised are exactly the
    /// block that its buffered forks will occupy, starting at the counter
    /// value it was built with.  Every method of the handle preserves this.
    pub open spec fn wf(self) -> bool {
        self.promised_next() == self.base() + fork_count(self.commands())
    }

    pub(crate) fn new(user_pid: u32, next_pid: u32) -> (sc: SysCall<M, P>)
        ensures
            sc.pid() == user_pid,
            sc.base() == next_pid,
            sc.promised_next() == next_pid,
            sc.commands() == Seq::<SysCommand<M, P>>::empty(),
            sc.wf(),
    {
        SysCall { user_pid, first_pid: next_pid, next_pid, commands: Vec::new() }
    }

    /// Request that each given instance be launched as a child of the
    /// dispatching process, and return the pids they will be assigned, in
    /// order.
    pub fn fork(&mut self, processes: Vec<P>) -> (cpids: Vec<u32>)
        requires
            old(self).wf(),
            old(self).promised_next() + processes@.len() <= u32::MAX,
        ensures
            final(self).wf(),
            final(self).pid() == old(self).pid(),
            final(self).base() == old(self).base(),
            final(self).promised_next() == old(self).promised_next() + processes@.len(),
            final(self).commands() == old(self).commands() + processes@.map_values(
                |p: P| SysCommand::<M, P>::Fork(p),
            ),
            cpids@.len() == processes@.len(),
            forall|i: int|
                0 <= i < cpids@.len() ==> cpids@[i] == old(self).promised_next() + i,
    {
        let ghost orig = *self;
        let ghost procs_view = processes@;
        let mut remaining = processes;
        let mut cpids: Vec<u32> = Vec::new();
        let mut taken: usize = 0;
        while remaining.len() > 0
            invariant
                orig.wf(),
                orig.promised_next() + procs_view.len() <= u32::MAX,
                taken + remaining@.len() == procs_view.len(),
                remaining@ == procs_view.subrange(taken as int, procs_view.len() as int),
                self.user_pid == orig.pid(),
                self.first_pid == orig.base(),
                self.next_pid == orig.promised_next() + taken,
                self.commands@ == orig.commands() + procs_view.subrange(0, taken as int)
                    .map_values(|p: P| SysCommand::<M, P>::Fork(p)),
                cpids@.len() == taken,
                forall|i: int| 0 <= i < taken ==> cpids@[i] == orig.promised_next() + i,
                self.wf(),
            decreases remaining@.len(),
        {
            let ghost pre_cmds = self.commands@;
            let p = remaining.remove(0);
            cpids.push(self.next_pid);
            self.next_pid = self.next_pid + 1;
            self.commands.push(SysCommand::Fork(p));
            taken = taken + 1;
            proof {
                assert(p == procs_view[taken - 1]);
                lemma_fork_count_push(pre_cmds, SysCommand::<M, P>::Fork(p));
                assert(self.commands@ =~= orig.commands() + procs_view.subrange(
                    0,
                    taken as int,
                ).map_values(|p: P| SysCommand::<M, P>::Fork(p)));
            }
        }
        proof {
            assert(procs_view.subrange(0, procs_view.len() as int) =~= procs_view);
        }
        cpids
    }

    /// Request delivery of a message to the given recipient pid.
    pub fn send_message(&mut self, recipient_pid: u32, msg: Message<M>)
        requires
            old(self).wf(),
        ensures
            final(self).wf(),
            final(self).pid() == old(self).pid(),
            final(self).base() == old(self).base(),
            final(self).promised_next() == old(self).promised_next(),
            final(self).commands() == old(self).commands().push(
                SysCommand::Send(recipient_pid, msg),
            ),
    {
        let ghost pre_cmds = self.commands@;
        self.commands.push(SysCommand::Send(recipient_pid, msg));
        proof {
            lemma_fork_count_push(pre_cmds, SysCommand::<M, P>::Send(recipient_pid, msg));
        }
    }

    /// The pid of the process this handle was built for.
    pub fn my_pid(&self) -> (r: u32)
        ensures
            r == self.pid(),
    {
        self.user_pid
    }
}

/// Appending one command changes the fork count by one exactly when the
/// command is a fork.
proof fn lemma_fork_count_push<M, P>(commands: Seq<SysCommand<M, P>>, c: SysCommand<M, P>)
    ensures
        fork_count(commands.push(c)) == fork_count(commands) + match c {
            SysCommand::Fork(_) => 1int,
            SysCommand::Send(_, _) => 0int,
        },
{
    assert(commands.push(c).drop_last() =~= commands);
    assert(commands.push(c).last() == c);
}

/// The task one buffered command turns into, given the pid the next fork
/// would be assigned.
pub open spec fn task_of<M, R, P>(c: SysCommand<M, P>, next: int) -> Task<M, R> {
    match c {
        SysCommand::Fork(_) => Task { ty: TaskType::Start, pid: next as u32 },
        SysCommand::Send(r, m) => Task { ty: TaskType::ReceiveMessage(m), pid: r },
    }
}

/// The tasks a buffered command list turns into when applied in order,
/// with forks assigned consecutive pids starting at `next`.
pub open spec fn command_tasks<M, R, P>(commands: Seq<SysCommand<M, P>>, next: int) -> Seq<
    Task<M, R>,
>
    decreases commands.len(),
{
    if commands.len() == 0 {
        Seq::empty()
    } else {
        seq![task_of(commands[0], next)] + command_tasks(
            commands.drop_first(),
            next + match commands[0] {
                SysCommand::Fork(_) => 1int,
                SysCommand::Send(_, _) => 0int,
            },
        )
    }
}

/// The pids assigned to the forks of a command list, in order, starting at
/// `next`.
pub open spec fn fork_pids<M, P>(commands: Seq<SysCommand<M, P>>, next: int) -> Seq<u32>
    decreases commands.len(),
{
    if commands.len() == 0 {
        Seq::empty()
    } else {
        match commands[0] {
            SysCommand::Fork(_) => seq![next as u32] + fork_pids(commands.drop_first(), next + 1),
            SysCommand::Send(_, _) => fork_pids(commands.drop_first(), next),
        }
    }
}

/// The process instances forked by a command list, in order.
pub open spec fn forked_processes<M, P>(commands: Seq<SysCommand<M, P>>) -> Seq<P>
    decreases commands.len(),
{
    if commands.len() == 0 {
        Seq::empty()
    } else {
        match commands[0] {
            SysCommand::Fork(p) => seq![p] + forked_processes(commands.drop_first()),
            SysCommand::Send(_, _) => forked_processes(commands.drop_first()),
        }
    }
}

/// A command list never has a negative fork count.
proof fn lemma_fork_count_nonneg<M, P>(commands: Seq<SysCommand<M, P>>)
    ensures
        fork_count(commands) >= 0,
    decreases commands.len(),
{
    if commands.len() > 0 {
        lemma_fork_count_nonneg(commands.drop_last());
    }
}

/// The fork count, unfolded at the front of the list.
proof fn lemma_fork_count_first<M, P>(commands: Seq<SysCommand<M, P>>)
    requires
        commands.len() > 0,
    ensures
        fork_count(commands) == fork_count(commands.drop_first()) + match commands[0] {
            SysCommand::Fork(_) => 1int,
            SysCommand::Send(_, _) => 0int,
        },
    decreases commands.len(),
{
    if commands.len() == 1 {
        assert(commands.drop_last() =~= Seq::<SysCommand<M, P>>::empty());
        assert(commands.drop_first() =~= Seq::<SysCommand<M, P>>::empty());
        assert(fork_count(commands.drop_first()) == 0);
    } else {
        lemma_fork_count_first(commands.drop_last());
        assert(commands.drop_last().drop_first() =~= commands.drop_first().drop_last());
        assert(commands.drop_first().last() == commands.last());
        assert(commands.drop_last()[0] == commands[0]);
    }
}

/// How appending one command extends the derived tasks, fork pids and
/// forked instances.
proof fn lemma_commands_push<M, R, P>(commands: Seq<SysCommand<M, P>>, c: SysCommand<M, P>, next: int)
    ensures
        command_tasks::<M, R, P>(commands.push(c), next) == command_tasks::<M, R, P>(
            commands,
            next,
        ).push(task_of(c, next + fork_count(commands))),
        fork_pids(commands.push(c), next) == match c {
            SysCommand::Fork(_) => fork_pids(commands, next).push(
                (next + fork_count(commands)) as u32,
            ),
            SysCommand::Send(_, _) => fork_pids(commands, next),
        },
        forked_processes(commands.push(c)) == match c {
            SysCommand::Fork(p) => forked_processes(commands).push(p),
            SysCommand::Send(_, _) => forked_processes(commands),
        },
    decreases commands.len(),
{
    if commands.len() == 0 {
        reveal_with_fuel(command_tasks, 2);
        reveal_with_fuel(fork_pids, 2);
        reveal_with_fuel(forked_processes, 2);
        assert(commands.push(c).drop_first() =~= commands);
        assert(fork_count(commands) == 0);
        assert(command_tasks::<M, R, P>(commands.push(c), next) =~= command_tasks::<M, R, P>(
            commands,
            next,
        ).push(task_of(c, next + fork_count(commands))));
        match c {
            SysCommand::Fork(p) => {
                assert(fork_pids(commands.push(c), next) =~= fork_pids(commands, next).push(
                    (next + fork_count(commands)) as u32,
                ));
                assert(forked_processes(commands.push(c)) =~= forked_processes(commands).push(p));
            },
            SysCommand::Send(_, _) => {
                assert(fork_pids(commands.push(c), next) =~= fork_pids(commands, next));
                assert(forked_processes(commands.push(c)) =~= forked_processes(commands));
            },
        }
    } else {
        let head_forks: int = match commands[0] {
            SysCommand::Fork(_) => 1int,
            SysCommand::Send(_, _) => 0int,
        };
        assert(commands.push(c).drop_first() =~= commands.drop_first().push(c));
        lemma_commands_push::<M, R, P>(commands.drop_first(), c, next + head_forks);
        lemma_fork_count_first(commands);
        assert(command_tasks::<M, R, P>(commands.push(c), next) =~= command_tasks::<M, R, P>(
            commands,
            next,
        ).push(task_of(c, next + fork_count(commands))));
        match c {
            SysCommand::Fork(p) => {
                assert(fork_pids(commands.push(c), next) =~= fork_pids(commands, next).push(
                    (next + fork_count(commands)) as u32,
                ));
                assert(forked_processes(commands.push(c)) =~= forked_processes(commands).push(p));
            },
            SysCommand::Send(_, _) => {
                assert(fork_pids(commands.push(c), next) =~= fork_pids(commands, next));
                assert(forked_processes(commands.push(c)) =~= forked_processes(commands));
            },
        }
    }
}

/// Crate-internal bridge between the kernel's public views and its
/// fields, for modules that build or read a kernel value directly.
pub(crate) proof fn kernel_view_facts<P: Process>(k: Kernel<P>)
    ensures
        k.infos() == k.info_table@,
        k.procs() == k.process_table@,
        k.next_pid() == k.next_pid_number,
        k.queue() == k.scheduler.task_queue@,
        k.deferred() == k.scheduler.next_tick_tasks@,
        k.cur_tick() == k.current_tick,
        k.wake() == k.wake_list@,
{
}

/// Registry metadata for one resident process: its pid, its parent if it
/// has a living one at creation, the pids it has forked, and the stable
/// type tag of its payload.
pub struct ProcessInfo {
    /// The pid this entry describes.
    pub pid: u32,
    /// The pid of the process that forked this one, if any.
    pub parent_pid: Option<u32>,
    /// The pids this process has forked, in fork order, minus those whose
    /// join has been resolved.
    pub children_processes: Vec<u32>,
    /// The stable numeric type tag of the payload.
    pub process_type_id: u32,
}

impl ProcessInfo {
    fn new(pid: u32, parent_pid: Option<u32>, process_type_id: u32) -> (info: Self)
        ensures
            info.pid == pid,
            info.parent_pid == parent_pid,
            info.children_processes@ == Seq::<u32>::empty(),
            info.process_type_id == process_type_id,
    {
        ProcessInfo { pid, parent_pid, children_processes: Vec::new(), process_type_id }
    }
}

/// The pids a wake index holds for the given tick, in registration order.
pub open spec fn wake_pids_for(wake: Seq<(u32, u32)>, tick: u32) -> Seq<u32>
    decreases wake.len(),
{
    if wake.len() == 0 {
        Seq::empty()
    } else {
        (if wake[0].0 == tick {
            seq![wake[0].1]
        } else {
            Seq::empty()
        }) + wake_pids_for(wake.drop_first(), tick)
    }
}

/// The wake index with every entry for the given tick removed.
pub open spec fn wake_without(wake: Seq<(u32, u32)>, tick: u32) -> Seq<(u32, u32)>
    decreases wake.len(),
{
    if wake.len() == 0 {
        wake
    } else {
        (if wake[0].0 == tick {
            Seq::empty()
        } else {
            seq![wake[0]]
        }) + wake_without(wake.drop_first(), tick)
    }
}

/// A sequence of Run tasks aimed at the given pids, in order.
pub open spec fn run_tasks_for<M, R>(pids: Seq<u32>) -> Seq<Task<M, R>> {
    pids.map_values(|p: u32| Task { ty: TaskType::<M, R>::Run, pid: p })
}

/// How one more wake entry extends the tick's pid list and the survivors.
pub proof fn lemma_wake_push(wake: Seq<(u32, u32)>, e: (u32, u32), tick: u32)
    ensures
        wake_pids_for(wake.push(e), tick) == if e.0 == tick {
            wake_pids_for(wake, tick).push(e.1)
        } else {
            wake_pids_for(wake, tick)
        },
        wake_without(wake.push(e), tick) == if e.0 == tick {
            wake_without(wake, tick)
        } else {
            wake_without(wake, tick).push(e)
        },
    decreases wake.len(),
{
    if wake.len() == 0 {
        assert(wake.push(e).drop_first() =~= wake);
        if e.0 == tick {
            assert(wake_pids_for(wake.push(e), tick) =~= wake_pids_for(wake, tick).push(e.1));
            assert(wake_without(wake.push(e), tick) =~= wake_without(wake, tick));
        } else {
            assert(wake_pids_for(wake.push(e), tick) =~= wake_pids_for(wake, tick));
            assert(wake_without(wake.push(e), tick) =~= wake_without(wake, tick).push(e));
        }
    } else {
        assert(wake.push(e).drop_first() =~= wake.drop_first().push(e));
        lemma_wake_push(wake.drop_first(), e, tick);
        if e.0 == tick {
            assert(wake_pids_for(wake.push(e), tick) =~= wake_pids_for(wake, tick).push(e.1));
            assert(wake_without(wake.push(e), tick) =~= wake_without(wake, tick));
        } else {
            assert(wake_pids_for(wake.push(e), tick) =~= wake_pids_for(wake, tick));
            assert(wake_without(wake.push(e), tick) =~= wake_without(wake, tick).push(e));
        }
    }
}

/// Structural well-formedness of the registry tables: the metadata table
/// is well formed (see [`info_wf`]) and every payload has a metadata entry.
pub open spec fn tables_wf(infos: Map<u32, ProcessInfo>, payload_dom: Set<u32>, next: u32) -> bool {
    &&& info_wf(infos, next)
    &&& forall|p: u32| #[trigger] payload_dom.contains(p) ==> infos.contains_key(p)
}

/// Registry state of the `k`-th forked child after a flush: registered
/// under its promised pid with the dispatching process as parent, no
/// children yet, and its payload stored live.
pub open spec fn forked_entry_ok<P: Process>(
    infos1: Map<u32, ProcessInfo>,
    procs1: Map<u32, MaybeSerializedProcess<P>>,
    fp: Seq<u32>,
    fv: Seq<P>,
    pid: u32,
    k: int,
) -> bool {
    &&& infos1.contains_key(fp[k])
    &&& infos1[fp[k]].pid == fp[k]
    &&& infos1[fp[k]].parent_pid == Some(pid)
    &&& infos1[fp[k]].children_processes@ == Seq::<u32>::empty()
    &&& procs1.contains_key(fp[k])
    &&& procs1[fp[k]] == MaybeSerializedProcess::<P>::De(fv[k])
}

/// The registry effect of applying a buffered command list: the forked
/// instances are registered as children of the dispatching pid, in order,
/// under consecutive pids starting at the pre-flush counter, with their
/// payloads stored live and their first dispatch queued; everything else
/// is untouched.
pub open spec fn flushed_tables<P: Process>(
    infos0: Map<u32, ProcessInfo>,
    procs0: Map<u32, MaybeSerializedProcess<P>>,
    next0: u32,
    infos1: Map<u32, ProcessInfo>,
    procs1: Map<u32, MaybeSerializedProcess<P>>,
    commands: Seq<SysCommand<P::Content, P>>,
    pid: u32,
) -> bool {
    let base = next0 as int;
    let fp = fork_pids(commands, base);
    let fv = forked_processes(commands);
    &&& fp.len() == fv.len()
    &&& fp.len() == fork_count(commands)
    &&& forall|k: int| 0 <= k < fp.len() ==> #[trigger] fp[k] == base + k
    &&& forall|d: u32|
        #![trigger infos1.contains_key(d)]
        #![trigger infos0.contains_key(d)]
        infos1.contains_key(d) <==> infos0.contains_key(d) || fp.contains(d)
    &&& forall|k: int| 0 <= k < fp.len() ==> #[trigger] forked_entry_ok(infos1, procs1, fp, fv, pid, k)
    &&& infos0.contains_key(pid) ==> infos1[pid].children_processes@ == infos0[
        pid
    ].children_processes@ + fp && infos1[pid].pid == infos0[pid].pid && infos1[pid].parent_pid
        == infos0[pid].parent_pid && infos1[pid].process_type_id == infos0[pid].process_type_id
    &&& forall|d: u32| #[trigger]
        infos0.contains_key(d) && d != pid && !fp.contains(d) ==> infos1[d] == infos0[d]
    &&& forall|d: u32|
        #![trigger procs1.contains_key(d)]
        #![trigger procs0.contains_key(d)]
        procs1.contains_key(d) <==> procs0.contains_key(d) || fp.contains(d)
    &&& forall|d: u32| #[trigger]
        procs0.contains_key(d) && !fp.contains(d) ==> procs1[d] == procs0[d]
}

/// [`flushed_tables`], projected out of two kernel states.
pub open spec fn flushed<P: Process>(
    pre: Kernel<P>,
    post: Kernel<P>,
    commands: Seq<SysCommand<P::Content, P>>,
    pid: u32,
) -> bool {
    flushed_tables(
        pre.infos(),
        pre.procs(),
        pre.next_pid(),
        post.infos(),
        post.procs(),
        commands,
        pid,
    )
}

/// The fork count of a concatenation is the sum of the two counts.
proof fn lemma_fork_count_concat<M, P>(a: Seq<SysCommand<M, P>>, b: Seq<SysCommand<M, P>>)
    ensures
        fork_count(a + b) == fork_count(a) + fork_count(b),
    decreases b.len(),
{
    if b.len() == 0 {
        assert(a + b =~= a);
    } else {
        assert((a + b).drop_last() =~= a + b.drop_last());
        lemma_fork_count_concat(a, b.drop_last());
    }
}

/// The kernel effect of parking the dispatched process again: its payload
/// goes back into the table and nothing else changes.  The scheduler
/// queues are owned by the caller's clauses.
pub open spec fn payload_restored<P: Process>(
    pre: Kernel<P>,
    post: Kernel<P>,
    payload: MaybeSerializedProcess<P>,
    pid: u32,
) -> bool {
    &&& post.procs() == pre.procs().insert(pid, payload)
    &&& post.infos() == pre.infos()
    &&& post.next_pid() == pre.next_pid()
    &&& post.cur_tick() == pre.cur_tick()
}

/// The kernel effect of a failed dispatch: the failing pid and its whole
/// subtree disappear from both tables, and nothing else changes.
pub open spec fn error_step<P: Process>(pre: Kernel<P>, post: Kernel<P>, pid: u32) -> bool {
    let sub = subtree(pre.infos(), pid, pre.next_pid() as int);
    &&& post.infos() == pre.infos().remove_keys(sub)
    &&& post.procs() == pre.procs().remove_keys(sub)
    &&& post.queue() == pre.queue()
    &&& post.deferred() == pre.deferred()
    &&& post.wake() == pre.wake()
    &&& post.next_pid() == pre.next_pid()
    &&& post.cur_tick() == pre.cur_tick()
}

/// The kernel effect of a finished dispatch: the parent, if one is still
/// registered, receives a Join task carrying the return value and no
/// longer records the finished pid as a child; then the finished pid and
/// its whole subtree disappear from both tables.
pub open spec fn done_step<P: Process>(
    pre: Kernel<P>,
    post: Kernel<P>,
    pid: u32,
    rv: Option<P::Return>,
) -> bool {
    let sub = subtree(pre.infos(), pid, pre.next_pid() as int);
    &&& post.procs() == pre.procs().remove_keys(sub)
    &&& post.deferred() == pre.deferred()
    &&& post.wake() == pre.wake()
    &&& post.next_pid() == pre.next_pid()
    &&& post.cur_tick() == pre.cur_tick()
    &&& match join_target(pre.infos(), pid) {
        Some(pp) => {
            &&& post.queue() == pre.queue().push(Task { ty: TaskType::Join(rv), pid: pp })
            &&& post.infos().dom() == pre.infos().dom().difference(sub)
            &&& post.infos().contains_key(pp)
            &&& post.infos()[pp].children_processes@ == pre.infos()[
                pp
            ].children_processes@.remove_value(pid)
            &&& post.infos()[pp].pid == pre.infos()[pp].pid
            &&& post.infos()[pp].parent_pid == pre.infos()[pp].parent_pid
            &&& post.infos()[pp].process_type_id == pre.infos()[pp].process_type_id
            &&& forall|d: u32| #[trigger]
                post.infos().contains_key(d) && d != pp ==> post.infos()[d] == pre.infos()[d]
        },
        None => {
            &&& post.queue() == pre.queue()
            &&& post.infos() == pre.infos().remove_keys(sub)
        },
    }
}

/// How the kernel routes the outcome of a `start` or `run` dispatch of
/// `pid`, with `payload` the (now live) payload held out of the table
/// during the dispatch.
pub open spec fn result_step<P: Process>(
    pre: Kernel<P>,
    post: Kernel<P>,
    payload: MaybeSerializedProcess<P>,
    res: PResult<P::Return>,
    pid: u32,
) -> bool {
    match res {
        PResult::Done(rv) => done_step(pre, post, pid, rv),
        PResult::Yield => {
            &&& payload_restored(pre, post, payload, pid)
            &&& post.queue() == pre.queue().push(Task { ty: TaskType::Run, pid })
            &&& post.deferred() == pre.deferred()
            &&& post.wake() == pre.wake()
        },
        PResult::YieldTick => {
            &&& payload_restored(pre, post, payload, pid)
            &&& post.queue() == pre.queue()
            &&& post.deferred() == pre.deferred().push(Task { ty: TaskType::Run, pid })
            &&& post.wake() == pre.wake()
        },
        PResult::Sleep(n) => {
            &&& payload_restored(pre, post, payload, pid)
            &&& post.queue() == pre.queue()
            &&& post.deferred() == pre.deferred()
            &&& post.wake() == if pre.cur_tick() + n <= u32::MAX {
                pre.wake().push(((pre.cur_tick() + n) as u32, pid))
            } else {
                pre.wake()
            }
        },
        PResult::Wait => {
            &&& payload_restored(pre, post, payload, pid)
            &&& post.queue() == pre.queue()
            &&& post.deferred() == pre.deferred()
            &&& post.wake() == pre.wake()
        },
        PResult::Error(_) => error_step(pre, post, pid),
    }
}

/// How the kernel routes the outcome of a `join` or `receive` dispatch of
/// `pid`.  A signal handler cannot reschedule its process: it finishes,
/// fails, or leaves everything exactly as it was.
pub open spec fn signal_step<P: Process>(
    pre: Kernel<P>,
    post: Kernel<P>,
    payload: MaybeSerializedProcess<P>,
    res: PSignalResult<P::Return>,
    pid: u32,
) -> bool {
    match res {
        PSignalResult::Done(rv) => done_step(pre, post, pid, rv),
        PSignalResult::Error(_) => error_step(pre, post, pid),
        PSignalResult::Ignore => {
            &&& payload_restored(pre, post, payload, pid)
            &&& post.queue() == pre.queue()
            &&& post.deferred() == pre.deferred()
            &&& post.wake() == pre.wake()
        },
    }
}

/// Putting a payload back for a registered pid preserves the kernel
/// invariant.
proof fn lemma_wf_after_park<P: Process>(pre: Kernel<P>, post: Kernel<P>, pid: u32)
    requires
        pre.wf(),
        pre.infos().contains_key(pid),
        post.infos() == pre.infos(),
        post.next_pid() == pre.next_pid(),
        post.procs() == pre.procs().insert(
            pid,
            post.procs()[pid],
        ) || post.procs() == pre.procs(),
    ensures
        post.wf(),
{
    assert forall|d: u32| #[trigger]
        post.procs().dom().contains(d) implies post.infos().contains_key(d) by {
        if d != pid {
            assert(pre.procs().dom().contains(d));
        }
    }
}

/// Removing a subtree from both tables preserves the kernel invariant,
/// where `mid` is the state the removal actually ran from.
proof fn lemma_wf_after_removal<P: Process>(
    pre: Kernel<P>,
    mid: Kernel<P>,
    post: Kernel<P>,
    pid: u32,
)
    requires
        mid.wf(),
        mid.next_pid() == post.next_pid(),
        info_wf(post.infos(), post.next_pid()),
        post.infos() == mid.infos().remove_keys(subtree(mid.infos(), pid, mid.next_pid() as int)),
        post.procs() == mid.procs().remove_keys(subtree(mid.infos(), pid, mid.next_pid() as int)),
    ensures
        post.wf(),
{
    let sub = subtree(mid.infos(), pid, mid.next_pid() as int);
    assert forall|d: u32| #[trigger]
        post.procs().dom().contains(d) implies post.infos().contains_key(d) by {
        assert(mid.procs().dom().contains(d));
        assert(mid.infos().contains_key(d));
        assert(!sub.contains(d));
    }
}

/// The state of the kernel at the moment a dispatched lifecycle call has
/// returned and its buffered requests have been applied, relative to the
/// kernel as it stood before the front task was popped: the task is gone,
/// the dispatched pid's payload is held out of the table, the buffered
/// forks and messages have taken effect, and nothing else has moved.
pub open spec fn dispatch_mid<P: Process>(
    pre: Kernel<P>,
    mid: Kernel<P>,
    commands: Seq<SysCommand<P::Content, P>>,
    pid: u32,
) -> bool {
    &&& flushed_tables(
        pre.infos(),
        pre.procs().remove(pid),
        pre.next_pid(),
        mid.infos(),
        mid.procs(),
        commands,
        pid,
    )
    &&& mid.next_pid() == pre.next_pid() + fork_count(commands)
    &&& mid.cur_tick() == pre.cur_tick()
    &&& mid.wake() == pre.wake()
    &&& mid.deferred() == pre.deferred()
    &&& mid.queue() == pre.queue().drop_first() + command_tasks(
        commands,
        pre.next_pid() as int,
    )
}

/// One full dispatch round on a kernel whose front task addressed a
/// resident process: the task was popped, the payload taken out of the
/// table and promoted to live form, the lifecycle method matching the
/// trigger kind ran against a fresh capability handle bound to the target
/// pid, the requests it buffered were applied, and its outcome was routed
/// through the scheduling rules.  The buffered commands and the outcome
/// are whatever the process chose; everything else is pinned down.
pub open spec fn dispatched<P: Process>(pre: Kernel<P>, post: Kernel<P>) -> bool {
    let task = pre.queue()[0];
    let pid = task.pid;
    exists|mid: Kernel<P>, commands: Seq<SysCommand<P::Content, P>>|
        {
            &&& #[trigger] dispatch_mid(pre, mid, commands, pid)
            &&& match task.ty {
                TaskType::Start => exists|live: MaybeSerializedProcess<P>, res: PResult<P::Return>|
                    live is De && #[trigger] result_step(mid, post, live, res, pid),
                TaskType::Run => exists|live: MaybeSerializedProcess<P>, res: PResult<P::Return>|
                    live is De && #[trigger] result_step(mid, post, live, res, pid),
                TaskType::Join(_) => exists|
                    live: MaybeSerializedProcess<P>,
                    res: PSignalResult<P::Return>,
                |
                    live is De && #[trigger] signal_step(mid, post, live, res, pid),
                TaskType::ReceiveMessage(_) => exists|
                    live: MaybeSerializedProcess<P>,
                    res: PSignalResult<P::Return>,
                |
                    live is De && #[trigger] signal_step(mid, post, live, res, pid),
            }
        }
}

/// Any pid registered over a dispatch round is fresh: it lies between the
/// pre-dispatch and post-dispatch next-pid counters.
proof fn lemma_dispatch_freshness<P: Process>(
    pre: Kernel<P>,
    mid: Kernel<P>,
    post: Kernel<P>,
    commands: Seq<SysCommand<P::Content, P>>,
    pid: u32,
)
    requires
        dispatch_mid(pre, mid, commands, pid),
        post.next_pid() == mid.next_pid(),
        forall|d: u32| #[trigger]
            post.infos().contains_key(d) ==> mid.infos().contains_key(d),
    ensures
        pre.next_pid() <= post.next_pid(),
        forall|d: u32| #[trigger]
            post.infos().contains_key(d) ==> pre.infos().contains_key(d) || (pre.next_pid() <= d
                < post.next_pid()),
{
    let base = pre.next_pid() as int;
    let fp = fork_pids(commands, base);
    assert forall|d: u32| #[trigger]
        post.infos().contains_key(d) implies pre.infos().contains_key(d) || (pre.next_pid() <= d
            < post.next_pid()) by {
        assert(mid.infos().contains_key(d));
        if !pre.infos().contains_key(d) {
            assert(fp.contains(d));
            let k = choose|k: int| 0 <= k < fp.len() && fp[k] == d;
            assert(fp[k] == base + k);
        }
    }
}

/// The parent a finished `pid` reports to: its recorded parent, provided
/// both `pid` and that parent are still registered.
pub open spec fn join_target(infos: Map<u32, ProcessInfo>, pid: u32) -> Option<u32> {
    if infos.contains_key(pid) {
        match infos[pid].parent_pid {
            Some(pp) => if infos.contains_key(pp) {
                Some(pp)
            } else {
                None
            },
            None => None,
        }
    } else {
        None
    }
}

/// Maps an index into an entry's child list after one child was struck off
/// back to the index of the same child before; entries other than the
/// struck one are unchanged.
pub open spec fn lifted_index(
    infos0: Map<u32, ProcessInfo>,
    infos1: Map<u32, ProcessInfo>,
    pp: u32,
    pid: u32,
    p: u32,
    j: int,
) -> int {
    if p == pp {
        match infos0[pp].children_processes@.index_of_first(pid) {
            Some(idx) => if j < idx {
                j
            } else {
                j + 1
            },
            None => j,
        }
    } else {
        j
    }
}

/// The kernel: registry, scheduler, wake index, tick counter and next-pid
/// counter.  This aggregate is the unit of persistence.
pub struct Kernel<P: Process> {
    pub(crate) process_table: HashMap<u32, MaybeSerializedProcess<P>>,
    pub(crate) info_table: HashMap<u32, ProcessInfo>,
    pub(crate) next_pid_number: u32,
    pub(crate) scheduler: Scheduler<P::Content, P::Return>,
    pub(crate) current_tick: u32,
    pub(crate) wake_list: Vec<(u32, u32)>,
}

impl<P: Process> Kernel<P> {
    /// The payload table: pid to live-or-serialized process.
    pub closed spec fn procs(self) -> Map<u32, MaybeSerializedProcess<P>> {
        self.process_table@
    }

    /// The metadata table: pid to registry entry.
    pub closed spec fn infos(self) -> Map<u32, ProcessInfo> {
        self.info_table@
    }

    /// The next pid to be assigned.
    pub closed spec fn next_pid(self) -> u32 {
        self.next_pid_number
    }

    /// The pending tasks for the current tick, front first.
    pub closed spec fn queue(self) -> Seq<Task<P::Content, P::Return>> {
        self.scheduler.queue()
    }

    /// The tasks deferred to the next tick, front first.
    pub closed spec fn deferred(self) -> Seq<Task<P::Content, P::Return>> {
        self.scheduler.deferred()
    }

    /// The current logical tick.
    pub closed spec fn cur_tick(self) -> u32 {
        self.current_tick
    }

    /// The wake index: pairs of a future tick and a pid to reschedule when
    /// that tick arrives, in the order the entries were created.
    pub closed spec fn wake(self) -> Seq<(u32, u32)> {
        self.wake_list@
    }

    /// The kernel's structural invariant; see [`tables_wf`] and
    /// [`wake_unique`].
    pub open spec fn wf(self) -> bool {
        tables_wf(self.infos(), self.procs().dom(), self.next_pid())
    }

    /// A fresh kernel with no processes and no pending work, starting at
    /// the given tick.
    pub fn new(current_tick: u32) -> (k: Self)
        ensures
            k.wf(),
            k.procs() == Map::<u32, MaybeSerializedProcess<P>>::empty(),
            k.infos() == Map::<u32, ProcessInfo>::empty(),
            k.next_pid() == 0,
            k.queue() == Seq::<Task<P::Content, P::Return>>::empty(),
            k.deferred() == Seq::<Task<P::Content, P::Return>>::empty(),
            k.cur_tick() == current_tick,
            k.wake() == Seq::<(u32, u32)>::empty(),
    {
        Kernel {
            process_table: HashMap::new(),
            info_table: HashMap::new(),
            next_pid_number: 0,
            scheduler: Scheduler::new(),
            current_tick,
            wake_list: Vec::new(),
        }
    }

    /// The current logical tick.
    pub fn tick(&self) -> (t: u32)
        ensures
            t == self.cur_tick(),
    {
        self.current_tick
    }

    /// Whether a payload for `pid` is resident.
    pub fn contains_process(&self, pid: u32) -> (r: bool)
        ensures
            r == self.procs().contains_key(pid),
    {
        self.process_table.contains_key(&pid)
    }

    /// The recorded children of `pid`, in fork order, or None if `pid` is
    /// not registered.
    pub fn children_of(&self, pid: u32) -> (r: Option<Vec<u32>>)
        ensures
            match r {
                Some(children) => self.infos().contains_key(pid) && children@ == self.infos()[
                    pid
                ].children_processes@,
                None => !self.infos().contains_key(pid),
            },
    {
        match self.info_table.get(&pid) {
            Some(info) => {
                let mut children: Vec<u32> = Vec::new();
                let mut i: usize = 0;
                while i < info.children_processes.len()
                    invariant
                        0 <= i <= info.children_processes@.len(),
                        children@ == info.children_processes@.subrange(0, i as int),
                    decreases info.children_processes@.len() - i,
                {
                    children.push(info.children_processes[i]);
                    proof {
                        assert(children@ =~= info.children_processes@.subrange(0, i as int + 1));
                    }
                    i = i + 1;
                }
                proof {
                    assert(info.children_processes@.subrange(
                        0,
                        info.children_processes@.len() as int,
                    ) =~= info.children_processes@);
                }
                Some(children)
            },
            None => None,
        }
    }

    /// The recorded parent of `pid`: None if `pid` is not registered,
    /// otherwise its optional parent pid.
    pub fn parent_of(&self, pid: u32) -> (r: Option<Option<u32>>)
        ensures
            match r {
                Some(parent) => self.infos().contains_key(pid) && parent == self.infos()[
                    pid
                ].parent_pid,
                None => !self.infos().contains_key(pid),
            },
    {
        match self.info_table.get(&pid) {
            Some(info) => Some(info.parent_pid),
            None => None,
        }
    }

    /// The number of resident processes.
    pub fn process_count(&self) -> (r: usize)
        ensures
            r == self.procs().len(),
    {
        self.process_table.len()
    }

    /// The next pid that will be assigned.
    pub fn peek_next_pid(&self) -> (r: u32)
        ensures
            r == self.next_pid(),
    {
        self.next_pid_number
    }

    /// Pop and execute exactly one task.  Returns false, without any other
    /// effect, when no task is pending.  A task addressed to a pid that is
    /// no longer resident is silently dropped: termination cannot always
    /// purge the queue, so such tasks are expected and harmless.  Otherwise
    /// the payload is promoted to live form through the host-supplied
    /// factory and the lifecycle method matching the trigger kind runs,
    /// with its outcome routed through the scheduling rules.
    ///
    /// Pids only ever grow: any pid registered during the dispatch is
    /// fresh, at or above the pre-dispatch counter.
    pub fn run_next<F: Fn(u32, &[u8]) -> P>(&mut self, deserializer: &F) -> (r: bool)
        requires
            forall|tag: u32, bytes: &[u8]| #[trigger] call_requires(*deserializer, (tag, bytes)),
            old(self).wf(),
        ensures
            final(self).wf(),
            r == (old(self).queue().len() > 0),
            !r ==> final(self).infos() == old(self).infos() && final(self).procs() == old(self).procs() && final(self).queue() == old(self).queue() && final(self).deferred()
                == old(self).deferred() && final(self).wake() == old(self).wake() && final(self).next_pid() == old(self).next_pid(),
            final(self).cur_tick() == old(self).cur_tick(),
            old(self).next_pid() <= final(self).next_pid(),
            forall|d: u32| #[trigger]
                final(self).infos().contains_key(d) ==> old(self).infos().contains_key(d) || (
                old(self).next_pid() <= d < final(self).next_pid()),
            r && !old(self).procs().contains_key(old(self).queue()[0].pid) ==> final(self).infos()
                == old(self).infos() && final(self).procs() == old(self).procs() && final(self).queue() == old(self).queue().drop_first() && final(self).deferred() == old(self).deferred() && final(self).wake() == old(self).wake() && final(self).next_pid()
                == old(self).next_pid(),
            r && old(self).procs().contains_key(old(self).queue()[0].pid) ==> dispatched(
                *old(self),
                *final(self),
            ),
    {
        let ghost pre = *old(self);
        let task_opt = self.scheduler.next();
        match task_opt {
            None => false,
            Some(task) => {
                let Task { ty, pid } = task;
                let payload_opt = self.process_table.remove(&pid);
                match payload_opt {
                    None => true,
                    Some(mut ser_proc) => {
                        let ghost popped = *self;
                        proof {
                            assert(popped.infos().contains_key(pid));
                            assert forall|d: u32| #[trigger]
                                popped.procs().dom().contains(d) implies popped.infos(
                            ).contains_key(d) by {
                                assert(pre.procs().dom().contains(d));
                            }
                            assert(popped.wf());
                        }
                        let mut sc = SysCall::new(pid, self.next_pid_number);
                        let process = ser_proc.deserialized_process(deserializer);
                        match ty {
                            TaskType::Start => {
                                let pr = process.start(&mut sc);
                                let ghost cmds = sc.commands();
                                self.apply_syscalls(sc, pid);
                                let ghost mid = *self;
                                proof {
                                    assert(mid.infos().contains_key(pid));
                                }
                                self.process_result(ser_proc, pr, pid, deserializer);
                                proof {
                                    assert(dispatch_mid(pre, mid, cmds, pid));
                                    assert(result_step(mid, *self, ser_proc, pr, pid));
                                    assert(dispatched(pre, *self));
                                    lemma_dispatch_freshness(pre, mid, *self, cmds, pid);
                                }
                            },
                            TaskType::Run => {
                                let pr = process.run(&mut sc);
                                let ghost cmds = sc.commands();
                                self.apply_syscalls(sc, pid);
                                let ghost mid = *self;
                                proof {
                                    assert(mid.infos().contains_key(pid));
                                }
                                self.process_result(ser_proc, pr, pid, deserializer);
                                proof {
                                    assert(dispatch_mid(pre, mid, cmds, pid));
                                    assert(result_step(mid, *self, ser_proc, pr, pid));
                                    assert(dispatched(pre, *self));
                                    lemma_dispatch_freshness(pre, mid, *self, cmds, pid);
                                }
                            },
                            TaskType::Join(result) => {
                                let pr = process.join(&mut sc, result);
                                let ghost cmds = sc.commands();
                                self.apply_syscalls(sc, pid);
                                let ghost mid = *self;
                                proof {
                                    assert(mid.infos().contains_key(pid));
                                }
                                self.process_signal_result(ser_proc, pr, pid, deserializer);
                                proof {
                                    assert(dispatch_mid(pre, mid, cmds, pid));
                                    assert(signal_step(mid, *self, ser_proc, pr, pid));
                                    assert(dispatched(pre, *self));
                                    lemma_dispatch_freshness(pre, mid, *self, cmds, pid);
                                }
                            },
                            TaskType::ReceiveMessage(msg) => {
                                let pr = process.receive(&mut sc, msg);
                                let ghost cmds = sc.commands();
                                self.apply_syscalls(sc, pid);
                                let ghost mid = *self;
                                proof {
                                    assert(mid.infos().contains_key(pid));
                                }
                                self.process_signal_result(ser_proc, pr, pid, deserializer);
                                proof {
                                    assert(dispatch_mid(pre, mid, cmds, pid));
                                    assert(signal_step(mid, *self, ser_proc, pr, pid));
                                    assert(dispatched(pre, *self));
                                    lemma_dispatch_freshness(pre, mid, *self, cmds, pid);
                                }
                            },
                        };
                        true
                    },
                }
            },
        }
    }

    /// Register a new process, store its payload live, and queue its first
    /// dispatch.  The host launches top-level processes with no parent;
    /// forks are realized internally by launching with the forking pid as
    /// parent, which also records the new pid as that parent's child.
    ///
    /// The assigned pid is the current next-pid counter, which then
    /// advances: pids are strictly increasing and never reused.
    pub fn launch_process(&mut self, proc: P, parent_pid: Option<u32>) -> (pid: u32)
        requires
            old(self).wf(),
            old(self).next_pid() < u32::MAX,
            parent_pid matches Some(q) ==> old(self).infos().contains_key(q),
        ensures
            final(self).wf(),
            pid == old(self).next_pid(),
            final(self).next_pid() == old(self).next_pid() + 1,
            !old(self).infos().contains_key(pid),
            final(self).infos().contains_key(pid),
            final(self).infos()[pid].pid == pid,
            final(self).infos()[pid].parent_pid == parent_pid,
            final(self).infos()[pid].children_processes@ == Seq::<u32>::empty(),
            final(self).infos().dom() == old(self).infos().dom().insert(pid),
            parent_pid matches Some(q) ==> final(self).infos()[q].children_processes@
                == old(self).infos()[q].children_processes@.push(pid)
                && final(self).infos()[q].pid == old(self).infos()[q].pid
                && final(self).infos()[q].parent_pid == old(self).infos()[q].parent_pid
                && final(self).infos()[q].process_type_id == old(self).infos()[q].process_type_id,
            forall|r: u32| #[trigger]
                old(self).infos().contains_key(r) && r != pid && Some(r) != parent_pid
                    ==> final(self).infos()[r] == old(self).infos()[r],
            final(self).procs() == old(self).procs().insert(
                pid,
                MaybeSerializedProcess::De(proc),
            ),
            final(self).queue() == old(self).queue().push(
                Task { ty: TaskType::Start, pid },
            ),
            final(self).deferred() == old(self).deferred(),
            final(self).cur_tick() == old(self).cur_tick(),
            final(self).wake() == old(self).wake(),
    {
        let pid = self.next_pid_number;
        let type_tag = proc.type_id();
        let pinfo = ProcessInfo::new(pid, parent_pid, type_tag);
        self.info_table.insert(pid, pinfo);
        self.process_table.insert(pid, MaybeSerializedProcess::De(proc));
        self.scheduler.launch_process(pid);
        if let Some(q) = parent_pid {
            match self.info_table.remove(&q) {
                Some(mut qinfo) => {
                    qinfo.children_processes.push(pid);
                    self.info_table.insert(q, qinfo);
                },
                None => {
                },
            }
        }
        self.next_pid_number = self.next_pid_number + 1;
        proof {
            assert(self.infos().dom() =~= old(self).infos().dom().insert(pid));
            assert forall|p: u32, j: int|
                self.infos().contains_key(p) && 0 <= j
                    < self.infos()[p].children_processes@.len() implies p < (
            #[trigger] self.infos()[p].children_processes@[j]) && self.infos()[p].children_processes@[j] < self.next_pid() by {
                if Some(p) == parent_pid {
                    if j < self.infos()[p].children_processes@.len() - 1 {
                        assert(self.infos()[p].children_processes@[j] == old(self).infos()[p].children_processes@[j]);
                    }
                } else if p != pid {
                    assert(old(self).infos().contains_key(p));
                    assert(self.infos()[p] == old(self).infos()[p]);
                }
            }
            assert forall|p: u32, q: u32, j: int, k: int|
                self.infos().contains_key(p) && self.infos().contains_key(q) && 0 <= j
                    < self.infos()[p].children_processes@.len() && 0 <= k < self.infos()[q].children_processes@.len() && (#[trigger] self.infos()[p].children_processes@[j]) == (
            #[trigger] self.infos()[q].children_processes@[k]) implies p == q && j == k by {
                let vp = self.infos()[p].children_processes@[j];
                let vq = self.infos()[q].children_processes@[k];
                let p_new = Some(p) == parent_pid && j == self.infos()[p].children_processes@.len() - 1;
                let q_new = Some(q) == parent_pid && k == self.infos()[q].children_processes@.len() - 1;
                if p_new && q_new {
                } else if p_new && !q_new {
                    assert(vp == pid);
                    assert(old(self).infos().contains_key(q));
                    assert(vq == old(self).infos()[q].children_processes@[k]);
                    assert(vq < pid);
                } else if !p_new && q_new {
                    assert(vq == pid);
                    assert(old(self).infos().contains_key(p));
                    assert(vp == old(self).infos()[p].children_processes@[j]);
                    assert(vp < pid);
                } else {
                    assert(old(self).infos().contains_key(p));
                    assert(old(self).infos().contains_key(q));
                    assert(vp == old(self).infos()[p].children_processes@[j]);
                    assert(vq == old(self).infos()[q].children_processes@[k]);
                }
            }
            assert forall|p: u32| #[trigger]
                self.infos().contains_key(p) implies p < self.next_pid() && self.infos()[p].pid
                == p by {
                if p != pid && Some(p) != parent_pid {
                    assert(old(self).infos().contains_key(p));
                    assert(self.infos()[p] == old(self).infos()[p]);
                }
            }
            assert forall|p: u32| #[trigger]
                self.infos().contains_key(p) implies match self.infos()[p].parent_pid {
                Some(q) => q < p,
                None => true,
            } by {
                if p != pid && Some(p) != parent_pid {
                    assert(old(self).infos().contains_key(p));
                    assert(self.infos()[p] == old(self).infos()[p]);
                }
            }
            assert forall|p: u32| #[trigger]
                self.procs().contains_key(p) implies self.infos().contains_key(p) by {
                if p != pid {
                    assert(old(self).procs().contains_key(p));
                }
            }
            assert(self.wake() == old(self).wake());
        }
        pid
    }

    /// Advance to the next tick: wake every pid registered for the new
    /// tick, in registration order, then move the deferred queue behind
    /// whatever the current queue still holds.
    #[verifier::loop_isolation(false)]
    pub fn next_tick(&mut self)
        requires
            old(self).wf(),
            old(self).cur_tick() < u32::MAX,
        ensures
            final(self).wf(),
            final(self).cur_tick() == old(self).cur_tick() + 1,
            final(self).queue() == old(self).queue() + run_tasks_for::<P::Content, P::Return>(
                wake_pids_for(old(self).wake(), (old(self).cur_tick() + 1) as u32),
            ) + old(self).deferred(),
            final(self).deferred() == Seq::<Task<P::Content, P::Return>>::empty(),
            final(self).wake() == wake_without(old(self).wake(), (old(self).cur_tick() + 1) as u32),
            final(self).infos() == old(self).infos(),
            final(self).procs() == old(self).procs(),
            final(self).next_pid() == old(self).next_pid(),
    {
        self.current_tick = self.current_tick + 1;
        let tick = self.current_tick;
        let ghost wake0 = self.wake();
        let ghost queue0 = self.queue();
        let mut remaining: Vec<(u32, u32)> = Vec::new();
        let mut i: usize = 0;
        while i < self.wake_list.len()
            invariant
                0 <= i <= wake0.len(),
                self.wake_list@ == wake0,
                self.info_table@ == old(self).infos(),
                self.process_table@ == old(self).procs(),
                self.next_pid_number == old(self).next_pid(),
                self.current_tick == tick,
                remaining@ == wake_without(wake0.subrange(0, i as int), tick),
                self.scheduler.queue() == queue0 + run_tasks_for::<P::Content, P::Return>(
                    wake_pids_for(wake0.subrange(0, i as int), tick),
                ),
                self.scheduler.deferred() == old(self).deferred(),
            decreases wake0.len() - i,
        {
            let entry = self.wake_list[i];
            proof {
                assert(wake0.subrange(0, i as int + 1) =~= wake0.subrange(0, i as int).push(
                    entry,
                ));
                lemma_wake_push(wake0.subrange(0, i as int), entry, tick);
            }
            if entry.0 == tick {
                self.scheduler.reschedule(entry.1);
                proof {
                    assert(self.scheduler.queue() =~= queue0 + run_tasks_for::<
                        P::Content,
                        P::Return,
                    >(wake_pids_for(wake0.subrange(0, i as int + 1), tick)));
                }
            } else {
                remaining.push(entry);
                proof {
                    assert(self.scheduler.queue() =~= queue0 + run_tasks_for::<
                        P::Content,
                        P::Return,
                    >(wake_pids_for(wake0.subrange(0, i as int + 1), tick)));
                }
            }
            i = i + 1;
        }
        proof {
            assert(wake0.subrange(0, wake0.len() as int) =~= wake0);
        }
        self.wake_list = remaining;
        self.scheduler.next_tick();
    }

    /// Apply the requests a process buffered in its capability handle
    /// during one dispatch, in issue order: each forked instance is
    /// launched as a child of the dispatching pid, under exactly the pid
    /// the handle promised for it, and each buffered message is enqueued
    /// for its recipient.
    #[verifier::loop_isolation(false)]
    fn apply_syscalls(&mut self, syscall: SysCall<P::Content, P>, pid: u32)
        requires
            old(self).wf(),
            old(self).infos().contains_key(pid),
            syscall.wf(),
            syscall.base() == old(self).next_pid(),
        ensures
            final(self).wf(),
            final(self).next_pid() == syscall.promised_next(),
            final(self).cur_tick() == old(self).cur_tick(),
            final(self).wake() == old(self).wake(),
            final(self).deferred() == old(self).deferred(),
            final(self).queue() == old(self).queue() + command_tasks(
                syscall.commands(),
                old(self).next_pid() as int,
            ),
            flushed(*old(self), *final(self), syscall.commands(), pid),
    {
        let ghost base = old(self).next_pid() as int;
        let ghost all = syscall.commands();
        let SysCall { user_pid: _, first_pid: _, next_pid: _, commands } = syscall;
        let mut cmds = commands;
        let ghost mut done: Seq<SysCommand<P::Content, P>> = Seq::empty();
        proof {
            assert(done + cmds@ =~= all);
            assert(fork_count(done) == 0);
            assert(command_tasks::<P::Content, P::Return, P>(done, base) =~= Seq::<
                Task<P::Content, P::Return>,
            >::empty());
            assert(fork_pids(done, base) =~= Seq::<u32>::empty());
            assert(forked_processes(done) =~= Seq::<P>::empty());
            assert(self.queue() =~= old(self).queue() + command_tasks::<
                P::Content,
                P::Return,
                P,
            >(done, base));
            assert(flushed(*old(self), *self, done, pid));
        }
        while cmds.len() > 0
            invariant
                done + cmds@ == all,
                self.next_pid_number == base + fork_count(done),
                fork_count(done) >= 0,
                self.wf(),
                self.current_tick == old(self).cur_tick(),
                self.wake_list@ == old(self).wake(),
                self.scheduler.deferred() == old(self).deferred(),
                self.scheduler.queue() == old(self).queue() + command_tasks::<
                    P::Content,
                    P::Return,
                    P,
                >(done, base),
                flushed(*old(self), *self, done, pid),
            decreases cmds@.len(),
        {
            let ghost done0 = done;
            let ghost pre = *self;
            let c = cmds.remove(0);
            proof {
                assert(done0 + cmds@.insert(0, c) =~= all);
                assert(done0.push(c) + cmds@ =~= all);
                lemma_commands_push::<P::Content, P::Return, P>(done0, c, base);
                lemma_fork_count_push(done0, c);
                lemma_fork_count_nonneg(cmds@);
                lemma_fork_count_first(seq![c] + cmds@);
                assert((seq![c] + cmds@).drop_first() =~= cmds@);
                assert(done0.push(c) + cmds@ == all);
                lemma_fork_count_concat(done0.push(c), cmds@);
                done = done0.push(c);
            }
            match c {
                SysCommand::Fork(p) => {
                    proof {
                        assert(flushed(*old(self), *self, done0, pid));
                        assert(syscall.promised_next() == base + fork_count(all));
                        assert(fork_count(done) + fork_count(cmds@) == fork_count(all));
                        assert(self.next_pid_number < u32::MAX);
                        assert(self.infos().contains_key(pid));
                    }
                    let cpid = self.launch_process(p, Some(pid));
                    proof {
                        let orig = *old(self);
                        assert(flushed(orig, pre, done0, pid));
                        let fp0 = fork_pids(done0, base);
                        let fv0 = forked_processes(done0);
                        let fp1 = fork_pids(done, base);
                        let fv1 = forked_processes(done);
                        assert(cpid == base + fork_count(done0));
                        assert(fp1 == fp0.push(cpid));
                        assert(fv1 == fv0.push(p));
                        assert(fp0.len() == fork_count(done0));
                        assert(fp1.len() == fork_count(done));
                        assert(orig.infos().contains_key(pid));
                        assert(pid < base);
                        assert forall|d: u32| fp1.contains(d) <==> fp0.contains(d) || d
                            == cpid by {
                            if fp1.contains(d) {
                                let k = choose|k: int| 0 <= k < fp1.len() && fp1[k] == d;
                                if k < fp0.len() {
                                    assert(fp0[k] == d);
                                }
                            }
                            if fp0.contains(d) {
                                let k = choose|k: int| 0 <= k < fp0.len() && fp0[k] == d;
                                assert(fp1[k] == d);
                            }
                            if d == cpid {
                                assert(fp1[fp0.len() as int] == d);
                            }
                        }
                        assert forall|k: int| 0 <= k < fp1.len() implies #[trigger] fp1[k] == base
                            + k by {
                            if k < fp0.len() {
                                assert(fp0[k] == base + k);
                            }
                        }
                        assert forall|d: u32|
                            self.infos().contains_key(d) <==> orig.infos().contains_key(d)
                                || fp1.contains(d) by {
                            assert(pre.infos().contains_key(d) <==> orig.infos().contains_key(d)
                                || fp0.contains(d));
                        }
                        assert forall|d: u32|
                            self.procs().contains_key(d) <==> orig.procs().contains_key(d)
                                || fp1.contains(d) by {
                            assert(pre.procs().contains_key(d) <==> orig.procs().contains_key(d)
                                || fp0.contains(d));
                            assert(self.procs() == pre.procs().insert(
                                cpid,
                                MaybeSerializedProcess::De(p),
                            ));
                        }
                        assert forall|k: int| 0 <= k < fp1.len() implies #[trigger] forked_entry_ok(
                            self.infos(),
                            self.procs(),
                            fp1,
                            fv1,
                            pid,
                            k,
                        ) by {
                            if k < fp0.len() {
                                assert(fp0[k] == fp1[k]);
                                assert(fp0[k] == base + k);
                                assert(fp0[k] != cpid);
                                assert(fp0[k] != pid);
                                assert(forked_entry_ok(pre.infos(), pre.procs(), fp0, fv0, pid, k));
                                assert(pre.infos().contains_key(fp0[k]));
                                assert(self.infos()[fp1[k]] == pre.infos()[fp1[k]]);
                                assert(fv0[k] == fv1[k]);
                            } else {
                                assert(fp1[k] == cpid);
                                assert(fv1[k] == p);
                            }
                        }
                        assert(pre.infos()[pid].children_processes@ == orig.infos()[
                            pid
                        ].children_processes@ + fp0);
                        assert(self.infos()[pid].children_processes@ =~= orig.infos()[
                            pid
                        ].children_processes@ + fp1);
                        assert(fp1.len() == fv1.len());
                        assert(self.infos()[pid].pid == orig.infos()[pid].pid);
                        assert(self.infos()[pid].parent_pid == orig.infos()[pid].parent_pid);
                        assert(self.infos()[pid].process_type_id == orig.infos()[
                            pid
                        ].process_type_id);
                        assert forall|d: u32| #[trigger]
                            orig.infos().contains_key(d) && d != pid && !fp1.contains(
                            d,
                        ) implies self.infos()[d] == orig.infos()[d] by {
                            assert(pre.infos()[d] == orig.infos()[d]);
                            assert(d != cpid);
                        }
                        assert forall|d: u32| #[trigger]
                            orig.procs().contains_key(d) && !fp1.contains(d) implies self.procs()[
                            d
                        ] == orig.procs()[d] by {
                            assert(pre.procs()[d] == orig.procs()[d]);
                            assert(d != cpid);
                        }

                        assert(flushed(*old(self), *self, done, pid));
                    }
                },
                SysCommand::Send(recipient, msg) => {
                    self.scheduler.send_message(recipient, msg);
                    proof {
                        assert(flushed(*old(self), pre, done0, pid));
                        assert(fork_pids(done, base) == fork_pids(done0, base));
                        assert(forked_processes(done) == forked_processes(done0));
                        assert(self.infos() == pre.infos());
                        assert(self.procs() == pre.procs());
                        assert forall|k: int|
                            0 <= k < fork_pids(done, base).len() implies #[trigger] forked_entry_ok(
                            self.infos(),
                            self.procs(),
                            fork_pids(done, base),
                            forked_processes(done),
                            pid,
                            k,
                        ) by {
                            assert(forked_entry_ok(
                                pre.infos(),
                                pre.procs(),
                                fork_pids(done0, base),
                                forked_processes(done0),
                                pid,
                                k,
                            ));
                        }
                        assert(flushed(*old(self), *self, done, pid));
                    }
                },
            }
            proof {
                assert(self.scheduler.queue() =~= old(self).queue() + command_tasks::<
                    P::Content,
                    P::Return,
                    P,
                >(done, base));
            }
        }
        proof {
            assert(done =~= all);
        }
    }

    /// Resolve a finished child's join with its parent: if `pid` is
    /// registered and has a registered parent, enqueue a Join task carrying
    /// the child's return value to the parent and strike `pid` off the
    /// parent's recorded children.  Otherwise do nothing.
    #[verifier::loop_isolation(false)]
    pub(crate) fn join_parent(&mut self, pid: u32, rv: Option<P::Return>)
        requires
            old(self).wf(),
        ensures
            final(self).wf(),
            final(self).next_pid() == old(self).next_pid(),
            final(self).procs() == old(self).procs(),
            final(self).deferred() == old(self).deferred(),
            final(self).cur_tick() == old(self).cur_tick(),
            final(self).wake() == old(self).wake(),
            match join_target(old(self).infos(), pid) {
                Some(pp) => {
                    &&& final(self).queue() == old(self).queue().push(
                        Task { ty: TaskType::Join(rv), pid: pp },
                    )
                    &&& final(self).infos().dom() == old(self).infos().dom()
                    &&& final(self).infos()[pp].children_processes@ == old(self).infos()[
                        pp
                    ].children_processes@.remove_value(pid)
                    &&& final(self).infos()[pp].pid == old(self).infos()[pp].pid
                    &&& final(self).infos()[pp].parent_pid == old(self).infos()[pp].parent_pid
                    &&& final(self).infos()[pp].process_type_id == old(self).infos()[
                        pp
                    ].process_type_id
                    &&& forall|d: u32| #[trigger]
                        old(self).infos().contains_key(d) && d != pp ==> final(self).infos()[d]
                            == old(self).infos()[d]
                },
                None => {
                    &&& final(self).queue() == old(self).queue()
                    &&& final(self).infos() == old(self).infos()
                },
            },
    {
        let parent_opt = match self.info_table.get(&pid) {
            Some(info) => info.parent_pid,
            None => None,
        };
        let mut resolved: bool = false;
        if let Some(pp) = parent_opt {
            match self.info_table.remove(&pp) {
                Some(mut pinfo) => {
                    resolved = true;
                    self.scheduler.join_process(pp, rv);
                    let ghost ch0 = pinfo.children_processes@;
                    let mut i: usize = 0;
                    let mut found: Option<usize> = None;
                    while i < pinfo.children_processes.len()
                        invariant
                            0 <= i <= ch0.len(),
                            pinfo.children_processes@ == ch0,
                            match found {
                                Some(idx) => idx < i && ch0[idx as int] == pid && forall|j: int|
                                    0 <= j < idx ==> ch0[j] != pid,
                                None => forall|j: int| 0 <= j < i ==> ch0[j] != pid,
                            },
                        decreases ch0.len() - i,
                    {
                        if found.is_none() && pinfo.children_processes[i] == pid {
                            found = Some(i);
                        }
                        i = i + 1;
                    }
                    match found {
                        Some(idx) => {
                            pinfo.children_processes.remove(idx);
                            proof {
                                ch0.index_of_first_ensures(pid);
                                assert(ch0.index_of_first(pid) == Some(idx as int));
                                assert(pinfo.children_processes@ == ch0.remove_value(pid));
                            }
                        },
                        None => {
                            proof {
                                ch0.index_of_first_ensures(pid);
                                assert(!ch0.contains(pid));
                                assert(pinfo.children_processes@ == ch0.remove_value(pid));
                            }
                        },
                    }
                    let ghost ch1 = pinfo.children_processes@;
                    proof {
                        assert forall|j: int| 0 <= j < ch1.len() implies exists|j0: int|
                            0 <= j0 < ch0.len() && ch0[j0] == #[trigger] ch1[j] by {
                            match ch0.index_of_first(pid) {
                                Some(idx) => {
                                    if j < idx {
                                        assert(ch0[j] == ch1[j]);
                                    } else {
                                        assert(ch0[j + 1] == ch1[j]);
                                    }
                                },
                                None => {
                                    assert(ch0[j] == ch1[j]);
                                },
                            }
                        }
                    }
                    self.info_table.insert(pp, pinfo);
                    proof {
                        assert(self.infos().dom() =~= old(self).infos().dom());
                        let infos1 = self.infos();
                        let infos0 = old(self).infos();
                        let next = old(self).next_pid();
                        assert forall|p: u32, j: int|
                            infos1.contains_key(p) && 0 <= j
                                < infos1[p].children_processes@.len() implies p < (
                        #[trigger] infos1[p].children_processes@[j]) && infos1[
                            p
                        ].children_processes@[j] < next by {
                            if p == pp {
                                let v = ch1[j];
                                let j0 = choose|j0: int|
                                    0 <= j0 < ch0.len() && ch0[j0] == #[trigger] ch1[j];
                                assert(infos0[pp].children_processes@[j0] == v);
                            } else {
                                assert(infos0.contains_key(p));
                                assert(infos1[p] == infos0[p]);
                            }
                        }
                        assert forall|p: u32, q: u32, j: int, k: int|
                            infos1.contains_key(p) && infos1.contains_key(q) && 0 <= j
                                < infos1[p].children_processes@.len() && 0 <= k < infos1[
                            q
                        ].children_processes@.len() && (
                        #[trigger] infos1[p].children_processes@[j]) == (
                        #[trigger] infos1[q].children_processes@[k]) implies p == q && j
                            == k by {
                            let jm = lifted_index(infos0, infos1, pp, pid, p, j);
                            let km = lifted_index(infos0, infos1, pp, pid, q, k);
                            assert(infos0[p].children_processes@[jm] == infos1[
                                p
                            ].children_processes@[j]);
                            assert(infos0[q].children_processes@[km] == infos1[
                                q
                            ].children_processes@[k]);
                        }
                        assert forall|p: u32| #[trigger]
                            infos1.contains_key(p) implies p < next && infos1[p].pid == p by {
                            assert(infos0.contains_key(p));
                        }
                        assert forall|p: u32| #[trigger]
                            infos1.contains_key(p) implies match infos1[p].parent_pid {
                            Some(q) => q < p,
                            None => true,
                        } by {
                            assert(infos0.contains_key(p));
                        }
                        assert forall|p: u32| #[trigger]
                            self.procs().dom().contains(p) implies infos1.contains_key(p) by {
                            assert(old(self).procs().dom().contains(p));
                        }
                    }
                },
                None => {
                },
            }
        }
        proof {
            if !resolved {
                assert(join_target(old(self).infos(), pid) is None);
            }
        }
    }

    /// Route the outcome of a `start` or `run` dispatch of `pid`, whose
    /// (now live) payload the dispatcher holds out of the table: park it
    /// again, reschedule it, or tear it down, as the outcome directs.
    pub(crate) fn process_result<F: Fn(u32, &[u8]) -> P>(
        &mut self,
        process: MaybeSerializedProcess<P>,
        proc_res: PResult<P::Return>,
        pid: u32,
        deserializer: &F,
    )
        requires
            forall|tag: u32, bytes: &[u8]| #[trigger] call_requires(*deserializer, (tag, bytes)),
            old(self).wf(),
            old(self).infos().contains_key(pid),
        ensures
            final(self).wf(),
            result_step(*old(self), *final(self), process, proc_res, pid),
    {
        match proc_res {
            PResult::Done(rv) => {
                self.finish(pid, rv, deserializer);
            },
            PResult::Yield => {
                self.scheduler.reschedule(pid);
                self.process_table.insert(pid, process);
                proof {
                    lemma_wf_after_park(*old(self), *self, pid);
                }
            },
            PResult::YieldTick => {
                self.scheduler.schedule_next_tick(pid);
                self.process_table.insert(pid, process);
                proof {
                    lemma_wf_after_park(*old(self), *self, pid);
                }
            },
            PResult::Sleep(duration) => {
                match self.current_tick.checked_add(duration) {
                    Some(wake_tick) => {
                        self.wake_list.push((wake_tick, pid));
                    },
                    None => {
                    },
                }
                self.process_table.insert(pid, process);
                proof {
                    lemma_wf_after_park(*old(self), *self, pid);
                }
            },
            PResult::Wait => {
                self.process_table.insert(pid, process);
                proof {
                    lemma_wf_after_park(*old(self), *self, pid);
                }
            },
            PResult::Error(_) => {
                self.terminate(pid, deserializer);
                proof {
                    lemma_wf_after_removal(*old(self), *old(self), *self, pid);
                }
            },
        };
    }

    /// Route the outcome of a `join` or `receive` dispatch of `pid`: leave
    /// everything as it was, or tear the process down, as the outcome
    /// directs.
    pub(crate) fn process_signal_result<F: Fn(u32, &[u8]) -> P>(
        &mut self,
        process: MaybeSerializedProcess<P>,
        proc_res: PSignalResult<P::Return>,
        pid: u32,
        deserializer: &F,
    )
        requires
            forall|tag: u32, bytes: &[u8]| #[trigger] call_requires(*deserializer, (tag, bytes)),
            old(self).wf(),
            old(self).infos().contains_key(pid),
        ensures
            final(self).wf(),
            signal_step(*old(self), *final(self), process, proc_res, pid),
    {
        match proc_res {
            PSignalResult::Ignore => {
                self.process_table.insert(pid, process);
                proof {
                    lemma_wf_after_park(*old(self), *self, pid);
                }
            },
            PSignalResult::Done(rv) => {
                self.finish(pid, rv, deserializer);
            },
            PSignalResult::Error(_) => {
                self.terminate(pid, deserializer);
                proof {
                    lemma_wf_after_removal(*old(self), *old(self), *self, pid);
                }
            },
        };
    }

    /// Resolve the finished pid's join with its parent, then tear the pid
    /// and its whole subtree down.
    fn finish<F: Fn(u32, &[u8]) -> P>(&mut self, pid: u32, rv: Option<P::Return>, deserializer: &F)
        requires
            forall|tag: u32, bytes: &[u8]| #[trigger] call_requires(*deserializer, (tag, bytes)),
            old(self).wf(),
            old(self).infos().contains_key(pid),
        ensures
            final(self).wf(),
            done_step(*old(self), *final(self), pid, rv),
    {
        let ghost pre = *old(self);
        let ghost b = old(self).next_pid() as int;
        self.join_parent(pid, rv);
        let ghost mid = *self;
        proof {
            assert(mid.infos().contains_key(pid));
        }
        self.terminate(pid, deserializer);
        proof {
            let sub_pre = subtree(pre.infos(), pid, b);
            let sub_mid = subtree(mid.infos(), pid, b);
            match join_target(pre.infos(), pid) {
                Some(pp) => {
                    assert(pp < pid);
                    assert forall|p: u32|
                        p >= pid implies (#[trigger] mid.infos().contains_key(p)
                            <==> pre.infos().contains_key(p)) && (mid.infos().contains_key(p)
                            ==> mid.infos()[p] == pre.infos()[p]) by {
                        if pre.infos().contains_key(p) {
                            assert(mid.infos()[p] == pre.infos()[p]);
                        }
                    }
                    assert forall|d: u32| sub_mid.contains(d) <==> sub_pre.contains(d) by {
                        if sub_mid.contains(d) {
                            lemma_subtree_agree_above(mid.infos(), pre.infos(), pid, b, d);
                        }
                        if sub_pre.contains(d) {
                            lemma_subtree_agree_above(pre.infos(), mid.infos(), pid, b, d);
                        }
                    }
                    assert(sub_mid =~= sub_pre);
                    if sub_pre.contains(pp) {
                        lemma_subtree_geq(pre.infos(), pid, b, pp);
                        assert(false);
                    }
                    assert(self.infos().dom() =~= pre.infos().dom().difference(sub_pre));
                    assert(self.infos().contains_key(pp));
                    assert(self.infos()[pp] == mid.infos()[pp]);
                    assert forall|d: u32| #[trigger]
                        self.infos().contains_key(d) && d != pp implies self.infos()[d]
                        == pre.infos()[d] by {
                        assert(self.infos()[d] == mid.infos()[d]);
                        assert(pre.infos().contains_key(d));
                    }
                    assert(self.procs() =~= pre.procs().remove_keys(sub_pre));
                    lemma_wf_after_removal(pre, mid, *self, pid);
                },
                None => {
                    assert(mid.infos() == pre.infos());
                    assert(mid.procs() == pre.procs());
                    assert(sub_mid == sub_pre);
                    lemma_wf_after_removal(pre, mid, *self, pid);
                },
            }
        }
    }

    /// Cascading, post-order termination: recursively terminate every
    /// recorded child, then transcode this pid's own payload to live form
    /// if needed, invoke its teardown hook, and drop both table entries.
    /// After the call, no pid of the subtree remains in either table; a
    /// stale child reference to an already-gone pid is harmless.
    #[verifier::loop_isolation(false)]
    fn terminate<F: Fn(u32, &[u8]) -> P>(&mut self, pid: u32, deserializer: &F)
        requires
            forall|tag: u32, bytes: &[u8]| #[trigger] call_requires(*deserializer, (tag, bytes)),
            info_wf(old(self).infos(), old(self).next_pid()),
            pid < old(self).next_pid(),
        ensures
            final(self).infos() == old(self).infos().remove_keys(
                subtree(old(self).infos(), pid, old(self).next_pid() as int),
            ),
            final(self).procs() == old(self).procs().remove_keys(
                subtree(old(self).infos(), pid, old(self).next_pid() as int),
            ),
            info_wf(final(self).infos(), old(self).next_pid()),
            final(self).next_pid() == old(self).next_pid(),
            final(self).queue() == old(self).queue(),
            final(self).deferred() == old(self).deferred(),
            final(self).cur_tick() == old(self).cur_tick(),
            final(self).wake() == old(self).wake(),
        decreases old(self).next_pid() - pid,
    {
        let ghost m0 = self.infos();
        let ghost p0 = self.procs();
        let ghost bound = self.next_pid() as int;
        let info_opt = self.info_table.remove(&pid);
        match info_opt {
            Some(info) => {
                let children = info.children_processes;
                let ghost ch = children@;
                proof {
                    assert(m0.contains_key(pid));
                    assert(ch == m0[pid].children_processes@);
                    assert(self.infos() =~= m0.remove(pid).remove_keys(
                        children_subtrees(m0, ch, pid, bound, 0),
                    ));
                    assert(self.procs() =~= p0.remove_keys(
                        children_subtrees(m0, ch, pid, bound, 0),
                    ));
                    lemma_info_wf_submap(m0, self.infos(), old(self).next_pid());
                }
                let mut i: usize = 0;
                while i < children.len()
                    invariant
                        i <= ch.len(),
                        children@ == ch,
                        self.next_pid_number == old(self).next_pid(),
                        info_wf(self.infos(), old(self).next_pid()),
                        self.infos() == m0.remove(pid).remove_keys(
                            children_subtrees(m0, ch, pid, bound, i as int),
                        ),
                        self.procs() == p0.remove_keys(
                            children_subtrees(m0, ch, pid, bound, i as int),
                        ),
                        self.scheduler.queue() == old(self).queue(),
                        self.scheduler.deferred() == old(self).deferred(),
                        self.current_tick == old(self).cur_tick(),
                        self.wake_list@ == old(self).wake(),
                    decreases ch.len() - i,
                {
                    let c = children[i];
                    let ghost m_i = self.infos();
                    let ghost p_i = self.procs();
                    let ghost soc_i = children_subtrees(m0, ch, pid, bound, i as int);
                    let ghost removed_i = set![pid].union(soc_i);
                    proof {
                        assert(ch[i as int] == m0[pid].children_processes@[i as int]);
                        assert(pid < c && c < old(self).next_pid());
                        assert(m_i =~= m0.remove_keys(removed_i));
                        // The next recorded child is not among the pids already
                        // removed, by slot injectivity.
                        if soc_i.contains(c) {
                            lemma_children_subtrees_mem(m0, ch, pid, bound, i as int, c);
                            let j = choose|j: int|
                                0 <= j < i && j < ch.len() && pid < ch[j] && ch[j] < bound
                                    && subtree(m0, #[trigger] ch[j], bound).contains(c);
                            if c == ch[j] {
                                assert(m0[pid].children_processes@[i as int] == m0[pid].children_processes@[j]);
                                assert(false);
                            } else {
                                lemma_subtree_provenance(m0, ch[j], bound, c);
                                let (y, t): (u32, int) = choose|y: u32, t: int|
                                    subtree(m0, ch[j], bound).contains(y) && m0.contains_key(y)
                                        && 0 <= t < m0[y].children_processes@.len() && (
                                    #[trigger] m0[y].children_processes@[t]) == c;
                                lemma_subtree_geq(m0, ch[j], bound, y);
                                assert(m0[y].children_processes@[t] == m0[pid].children_processes@[i as int]);
                                assert(y == pid && t == i);
                                assert(false);
                            }
                        }
                    }
                    self.terminate(c, deserializer);
                    proof {
                        let sub_mi_c = subtree(m_i, c, bound);
                        let sub_m0_c = subtree(m0, c, bound);
                        let soc_ip1 = children_subtrees(m0, ch, pid, bound, i as int + 1);
                        assert(soc_ip1 == soc_i.union(sub_m0_c));
                        // In the shrunken map, the subtree of the next child is
                        // what it was in the original map, up to already-removed
                        // pids.
                        assert forall|x: u32, e: u32|
                            removed_i.contains(x) && sub_m0_c.contains(x) && subtree(
                                m0,
                                x,
                                bound,
                            ).contains(e) implies removed_i.contains(e) by {
                            if x == pid {
                                lemma_subtree_geq(m0, c, bound, pid);
                                assert(false);
                            } else {
                                lemma_children_subtrees_mem(m0, ch, pid, bound, i as int, x);
                                let j = choose|j: int|
                                    0 <= j < i && j < ch.len() && pid < ch[j] && ch[j] < bound
                                        && subtree(m0, #[trigger] ch[j], bound).contains(x);
                                lemma_subtree_trans(m0, ch[j], bound, x, e);
                                lemma_children_subtrees_mem(m0, ch, pid, bound, i as int, e);
                            }
                        }
                        assert forall|d: u32| !removed_i.contains(d) implies (sub_mi_c.contains(
                            d,
                        ) <==> sub_m0_c.contains(d)) by {
                            if sub_mi_c.contains(d) {
                                lemma_subtree_submap(m_i, m0, c, bound, d);
                            }
                            if sub_m0_c.contains(d) {
                                lemma_subtree_remove_complete(m0, removed_i, c, bound, d);
                                assert(subtree(m0.remove_keys(removed_i), c, bound).contains(d));
                            }
                        }
                        if sub_m0_c.contains(pid) {
                            lemma_subtree_geq(m0, c, bound, pid);
                            assert(false);
                        }
                        if sub_mi_c.contains(pid) {
                            lemma_subtree_geq(m_i, c, bound, pid);
                            assert(false);
                        }
                        assert(self.infos() =~= m0.remove(pid).remove_keys(soc_ip1));
                        assert(self.procs() =~= p0.remove_keys(soc_ip1));
                    }
                    i = i + 1;
                }
                proof {
                    assert(i as int == ch.len());
                }
            },
            None => {
            },
        }
        let payload_opt = self.process_table.remove(&pid);
        match payload_opt {
            Some(mut payload) => {
                let process = payload.deserialized_process(deserializer);
                process.kill();
            },
            None => {
            },
        }
        proof {
            let sub = subtree(m0, pid, bound);
            if m0.contains_key(pid) {
                let ch = m0[pid].children_processes@;
                assert(sub == set![pid].union(
                    children_subtrees(m0, ch, pid, bound, ch.len() as int),
                ));
                assert(self.infos() =~= m0.remove_keys(sub));
                assert(self.procs() =~= p0.remove_keys(sub));
            } else {
                assert(sub == set![pid]);
                assert(self.infos() =~= m0.remove_keys(sub));
                assert(self.procs() =~= p0.remove_keys(sub));
            }
            lemma_info_wf_submap(m0, self.infos(), old(self).next_pid());
        }
    }
}

} // verus!

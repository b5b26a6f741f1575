//! The persistence layer: a kernel whose resident processes are all in
//! their opaque serialized form can be captured as one plain-data snapshot
//! and rebuilt from it, with every component that drives dispatch intact.

use vstd::prelude::*;

use std::collections::HashMap;
use std::collections::VecDeque;

use crate::kernel::{kernel_view_facts, Kernel, ProcessInfo, Scheduler, Task, TaskType};
use crate::lineage::info_wf;
use crate::process::{MaybeSerializedProcess, Process, SerializedProcess};

verus! {

broadcast use vstd::std_specs::hash::group_hash_axioms;

/// The map an association list denotes; later entries win, though the
/// lists the kernel produces have strictly ascending keys.
pub open spec fn map_of_pairs<V>(pairs: Seq<(u32, V)>) -> Map<u32, V>
    decreases pairs.len(),
{
    if pairs.len() == 0 {
        Map::empty()
    } else {
        map_of_pairs(pairs.drop_last()).insert(pairs.last().0, pairs.last().1)
    }
}

/// Whether an association list has strictly ascending keys.
pub open spec fn ascending_keys<V>(pairs: Seq<(u32, V)>) -> bool {
    forall|i: int, j: int|
        0 <= i < j < pairs.len() ==> (#[trigger] pairs[i]).0 < (#[trigger] pairs[j]).0
}

/// What a registry entry means, independently of the vector holding its
/// child list: its pid, parent, recorded children and type tag.
pub open spec fn info_model(info: ProcessInfo) -> (u32, Option<u32>, Seq<u32>, u32) {
    (info.pid, info.parent_pid, info.children_processes@, info.process_type_id)
}

/// The meaning of a whole metadata table.
pub open spec fn infos_model(infos: Map<u32, ProcessInfo>) -> Map<
    u32,
    (u32, Option<u32>, Seq<u32>, u32),
> {
    infos.map_values(|info: ProcessInfo| info_model(info))
}

/// What an opaque payload means: its type tag and its byte image.
pub open spec fn payload_model(sp: SerializedProcess) -> (u32, Seq<u8>) {
    (sp.tag(), sp.image())
}

/// The meaning of a payload table whose entries are all serialized; a
/// live entry has no snapshot meaning and is mapped to a placeholder.
pub open spec fn procs_model<P: Process>(procs: Map<u32, MaybeSerializedProcess<P>>) -> Map<
    u32,
    (u32, Seq<u8>),
> {
    procs.map_values(
        |payload: MaybeSerializedProcess<P>|
            match payload {
                MaybeSerializedProcess::Ser(sp) => payload_model(sp),
                MaybeSerializedProcess::De(_) => (0u32, Seq::empty()),
            },
    )
}

/// Whether every resident payload is in its opaque serialized form.
pub open spec fn all_serialized<P: Process>(procs: Map<u32, MaybeSerializedProcess<P>>) -> bool {
    forall|p: u32| #[trigger] procs.contains_key(p) ==> procs[p] is Ser
}

/// Whether a task carries no payload, so that a snapshot can hold it: a
/// Start, a Run, or a Join with no return value.
pub open spec fn plain_task<M, R>(task: Task<M, R>) -> bool {
    match task.ty {
        TaskType::Start => true,
        TaskType::Run => true,
        TaskType::Join(rv) => rv is None,
        TaskType::ReceiveMessage(_) => false,
    }
}

/// Whether every task of a queue is payload-free.
pub open spec fn plain_tasks<M, R>(tasks: Seq<Task<M, R>>) -> bool {
    forall|i: int| 0 <= i < tasks.len() ==> plain_task(#[trigger] tasks[i])
}

/// The task a stored task code denotes.
pub open spec fn task_of_code<M, R>(code: (u8, u32)) -> Task<M, R> {
    Task {
        ty: if code.0 == 0 {
            TaskType::Start
        } else if code.0 == 1 {
            TaskType::Run
        } else {
            TaskType::Join(None)
        },
        pid: code.1,
    }
}

/// The task queue a stored code list denotes.
pub open spec fn tasks_of_codes<M, R>(codes: Seq<(u8, u32)>) -> Seq<Task<M, R>> {
    codes.map_values(|code: (u8, u32)| task_of_code(code))
}

/// A kernel captured as plain data: counters, metadata entries and opaque
/// payloads keyed by ascending pid, the wake index, and the two task
/// queues as payload-free task codes.  A snapshot is only produced by
/// [`Kernel::snapshot`], so it always describes a well-formed kernel.
pub struct Snapshot {
    pub(crate) next_pid_number: u32,
    pub(crate) current_tick: u32,
    pub(crate) info_list: Vec<(u32, ProcessInfo)>,
    pub(crate) payload_list: Vec<(u32, SerializedProcess)>,
    pub(crate) wake_list: Vec<(u32, u32)>,
    pub(crate) queue_codes: Vec<(u8, u32)>,
    pub(crate) deferred_codes: Vec<(u8, u32)>,
}

/// Crate-internal bridge between a snapshot's public views and its
/// fields, for the byte codec.
pub(crate) proof fn snapshot_view_facts(s: Snapshot)
    ensures
        s.next_pid() == s.next_pid_number,
        s.tick() == s.current_tick,
        s.info_pairs() == s.info_list@,
        s.payload_pairs() == s.payload_list@,
        s.wake() == s.wake_list@,
        s.queue() == s.queue_codes@,
        s.deferred() == s.deferred_codes@,
{
}

impl Snapshot {
    /// The persisted next-pid counter.
    pub closed spec fn next_pid(self) -> u32 {
        self.next_pid_number
    }

    /// The persisted tick counter.
    pub closed spec fn tick(self) -> u32 {
        self.current_tick
    }

    /// The persisted metadata entries, keyed by ascending pid.
    pub closed spec fn info_pairs(self) -> Seq<(u32, ProcessInfo)> {
        self.info_list@
    }

    /// The persisted opaque payloads, keyed by ascending pid.
    pub closed spec fn payload_pairs(self) -> Seq<(u32, SerializedProcess)> {
        self.payload_list@
    }

    /// The persisted wake index.
    pub closed spec fn wake(self) -> Seq<(u32, u32)> {
        self.wake_list@
    }

    /// The persisted current-tick queue, as task codes.
    pub closed spec fn queue(self) -> Seq<(u8, u32)> {
        self.queue_codes@
    }

    /// The persisted deferred queue, as task codes.
    pub closed spec fn deferred(self) -> Seq<(u8, u32)> {
        self.deferred_codes@
    }

    /// A snapshot's integrity: ascending keys, a well-formed metadata
    /// table, no payload without a metadata entry, and valid task codes.
    pub open spec fn wf(self) -> bool {
        &&& ascending_keys(self.info_pairs())
        &&& ascending_keys(self.payload_pairs())
        &&& info_wf(map_of_pairs(self.info_pairs()), self.next_pid())
        &&& forall|j: int|
            0 <= j < self.payload_pairs().len() ==> map_of_pairs(self.info_pairs()).contains_key(
                (#[trigger] self.payload_pairs()[j]).0,
            )
    }
}

/// Whether a snapshot captures a kernel: every component that drives
/// dispatch agrees, with tables compared by what their entries mean.
pub open spec fn models<P: Process>(s: Snapshot, k: Kernel<P>) -> bool {
    &&& s.next_pid() == k.next_pid()
    &&& s.tick() == k.cur_tick()
    &&& s.wake() == k.wake()
    &&& infos_model(map_of_pairs(s.info_pairs())) == infos_model(k.infos())
    &&& procs_model(
        map_of_pairs(s.payload_pairs()).map_values(
            |sp: SerializedProcess| MaybeSerializedProcess::<P>::Ser(sp),
        ),
    ) == procs_model(k.procs())
    &&& tasks_of_codes::<P::Content, P::Return>(s.queue()) == k.queue()
    &&& tasks_of_codes::<P::Content, P::Return>(s.deferred()) == k.deferred()
}

/// Two kernels captured by the same snapshot are indistinguishable: every
/// component that drives dispatch is equal, so driven identically they
/// dispatch identically.  In particular, restoring a snapshot yields a
/// kernel that behaves as the snapshotted one did.
pub proof fn lemma_models_faithful<P: Process>(s: Snapshot, k1: Kernel<P>, k2: Kernel<P>)
    requires
        models(s, k1),
        models(s, k2),
    ensures
        infos_model(k1.infos()) == infos_model(k2.infos()),
        procs_model(k1.procs()) == procs_model(k2.procs()),
        k1.queue() == k2.queue(),
        k1.deferred() == k2.deferred(),
        k1.wake() == k2.wake(),
        k1.next_pid() == k2.next_pid(),
        k1.cur_tick() == k2.cur_tick(),
{
}

/// A metadata table has the same well-formedness as any table whose
/// entries mean the same.
pub proof fn lemma_info_wf_model_transfer(
    m1: Map<u32, ProcessInfo>,
    m2: Map<u32, ProcessInfo>,
    next: u32,
)
    requires
        infos_model(m1) == infos_model(m2),
        info_wf(m2, next),
    ensures
        info_wf(m1, next),
{
    assert forall|p: u32| #[trigger] m1.contains_key(p) implies m2.contains_key(p) && info_model(
        m1[p],
    ) == info_model(m2[p]) by {
        assert(infos_model(m1).contains_key(p));
        assert(infos_model(m2).contains_key(p));
        assert(infos_model(m1)[p] == info_model(m1[p]));
        assert(infos_model(m2)[p] == info_model(m2[p]));
    }
    assert forall|p: u32| #[trigger] m1.contains_key(p) implies p < next && m1[p].pid == p by {
        assert(m2.contains_key(p));
    }
    assert forall|p: u32| #[trigger] m1.contains_key(p) implies match m1[p].parent_pid {
        Some(q) => q < p,
        None => true,
    } by {
        assert(m2.contains_key(p));
    }
    assert forall|p: u32, j: int|
        m1.contains_key(p) && 0 <= j < m1[p].children_processes@.len() implies p < (
    #[trigger] m1[p].children_processes@[j]) && m1[p].children_processes@[j] < next by {
        assert(m2.contains_key(p));
        assert(m2[p].children_processes@ == m1[p].children_processes@);
    }
    assert forall|p: u32, q: u32, j: int, k: int|
        m1.contains_key(p) && m1.contains_key(q) && 0 <= j < m1[p].children_processes@.len() && 0
            <= k < m1[q].children_processes@.len() && (
    #[trigger] m1[p].children_processes@[j]) == (#[trigger] m1[q].children_processes@[k]) implies p
        == q && j == k by {
        assert(m2.contains_key(p));
        assert(m2.contains_key(q));
        assert(m2[p].children_processes@ == m1[p].children_processes@);
        assert(m2[q].children_processes@ == m1[q].children_processes@);
    }
}


/// Every key of an association list is a key of the map it denotes, and
/// under ascending keys the map's keys all come from the list.
pub proof fn lemma_map_of_pairs_keys<V>(pairs: Seq<(u32, V)>, d: u32)
    ensures
        map_of_pairs(pairs).contains_key(d) <==> exists|j: int|
            0 <= j < pairs.len() && (#[trigger] pairs[j]).0 == d,
    decreases pairs.len(),
{
    if pairs.len() > 0 {
        lemma_map_of_pairs_keys(pairs.drop_last(), d);
        if map_of_pairs(pairs).contains_key(d) {
            if pairs.last().0 == d {
                assert(pairs[pairs.len() - 1].0 == d);
            } else {
                let j = choose|j: int|
                    0 <= j < pairs.drop_last().len() && (#[trigger] pairs.drop_last()[j]).0 == d;
                assert(pairs[j].0 == d);
            }
        }
        if exists|j: int| 0 <= j < pairs.len() && (#[trigger] pairs[j]).0 == d {
            let j = choose|j: int| 0 <= j < pairs.len() && (#[trigger] pairs[j]).0 == d;
            if j < pairs.len() - 1 {
                assert(pairs.drop_last()[j].0 == d);
            }
        }
    }
}

/// Copy a vector of plain values.
fn copy_vals<T: Copy>(v: &Vec<T>) -> (r: Vec<T>)
    ensures
        r@ == v@,
{
    let mut r: Vec<T> = Vec::new();
    let mut i: usize = 0;
    while i < v.len()
        invariant
            0 <= i <= v@.len(),
            r@ == v@.subrange(0, i as int),
        decreases v@.len() - i,
    {
        r.push(v[i]);
        proof {
            assert(r@ =~= v@.subrange(0, i as int + 1));
        }
        i = i + 1;
    }
    proof {
        assert(v@.subrange(0, v@.len() as int) =~= v@);
    }
    r
}

/// Copy a registry entry, preserving its meaning.
fn copy_info(info: &ProcessInfo) -> (r: ProcessInfo)
    ensures
        info_model(r) == info_model(*info),
{
    ProcessInfo {
        pid: info.pid,
        parent_pid: info.parent_pid,
        children_processes: copy_vals(&info.children_processes),
        process_type_id: info.process_type_id,
    }
}

/// Encode a task queue as payload-free task codes, or report that some
/// task carries a payload.
fn encode_tasks<M, R>(tasks: &VecDeque<Task<M, R>>) -> (r: Option<Vec<(u8, u32)>>)
    ensures
        r is Some <==> plain_tasks(tasks@),
        match r {
            Some(codes) => tasks_of_codes::<M, R>(codes@) == tasks@ && forall|i: int|
                0 <= i < codes@.len() ==> (#[trigger] codes@[i]).0 <= 2,
            None => true,
        },
{
    let mut codes: Vec<(u8, u32)> = Vec::new();
    let mut i: usize = 0;
    while i < tasks.len()
        invariant
            0 <= i <= tasks@.len(),
            forall|j: int| 0 <= j < i ==> plain_task(#[trigger] tasks@[j]),
            tasks_of_codes::<M, R>(codes@) == tasks@.subrange(0, i as int),
            forall|j: int| 0 <= j < codes@.len() ==> (#[trigger] codes@[j]).0 <= 2,
        decreases tasks@.len() - i,
    {
        let task = &tasks[i];
        let code: u8 = match &task.ty {
            TaskType::Start => 0,
            TaskType::Run => 1,
            TaskType::Join(None) => 2,
            TaskType::Join(Some(_)) => {
                return None;
            },
            TaskType::ReceiveMessage(_) => {
                return None;
            },
        };
        codes.push((code, task.pid));
        proof {
            assert(tasks@.subrange(0, i as int + 1) =~= tasks@.subrange(0, i as int).push(
                tasks@[i as int],
            ));
            assert(task_of_code::<M, R>((code, task.pid)) == tasks@[i as int]);
            assert(tasks_of_codes::<M, R>(codes@) =~= tasks@.subrange(0, i as int + 1));
        }
        i = i + 1;
    }
    proof {
        assert(tasks@.subrange(0, tasks@.len() as int) =~= tasks@);
    }
    Some(codes)
}

/// Decode stored task codes back into a task queue.
fn decode_tasks<M, R>(codes: &Vec<(u8, u32)>) -> (r: VecDeque<Task<M, R>>)
    ensures
        r@ == tasks_of_codes::<M, R>(codes@),
{
    let mut tasks: VecDeque<Task<M, R>> = VecDeque::new();
    let mut i: usize = 0;
    while i < codes.len()
        invariant
            0 <= i <= codes@.len(),
            tasks@ == tasks_of_codes::<M, R>(codes@.subrange(0, i as int)),
        decreases codes@.len() - i,
    {
        let (code, pid) = codes[i];
        let ty: TaskType<M, R> = if code == 0 {
            TaskType::Start
        } else if code == 1 {
            TaskType::Run
        } else {
            TaskType::Join(None)
        };
        tasks.push_back(Task { ty, pid });
        proof {
            assert(codes@.subrange(0, i as int + 1) =~= codes@.subrange(0, i as int).push(
                codes@[i as int],
            ));
            assert(tasks@ =~= tasks_of_codes::<M, R>(codes@.subrange(0, i as int + 1)));
        }
        i = i + 1;
    }
    proof {
        assert(codes@.subrange(0, codes@.len() as int) =~= codes@);
    }
    tasks
}

impl<P: Process> Kernel<P> {
    /// Capture the kernel as a plain-data snapshot.  Succeeds exactly when
    /// every resident payload is already in its opaque serialized form and
    /// no queued task carries a payload; call [`Kernel::make_serialized`]
    /// first to transcode live payloads.
    #[verifier::loop_isolation(false)]
    pub fn snapshot(&self) -> (r: Option<Snapshot>)
        requires
            self.wf(),
        ensures
            r is Some <==> all_serialized(self.procs()) && plain_tasks(self.queue())
                && plain_tasks(self.deferred()),
            match r {
                Some(s) => s.wf() && models::<P>(s, *self),
                None => true,
            },
    {
        proof {
            kernel_view_facts(*self);
        }
        let queue_codes = match encode_tasks(&self.scheduler.task_queue) {
            Some(codes) => codes,
            None => {
                return None;
            },
        };
        let deferred_codes = match encode_tasks(&self.scheduler.next_tick_tasks) {
            Some(codes) => codes,
            None => {
                return None;
            },
        };
        let mut info_list: Vec<(u32, ProcessInfo)> = Vec::new();
        let mut payload_list: Vec<(u32, SerializedProcess)> = Vec::new();
        let mut p: u32 = 0;
        while p < self.next_pid_number
            invariant
                0 <= p <= self.next_pid(),
                self.wf(),
                forall|j: int| 0 <= j < info_list@.len() ==> (#[trigger] info_list@[j]).0 < p,
                ascending_keys(info_list@),
                forall|j: int|
                    0 <= j < payload_list@.len() ==> (#[trigger] payload_list@[j]).0 < p,
                ascending_keys(payload_list@),
                infos_model(map_of_pairs(info_list@)) == infos_model(
                    self.infos().restrict(Set::new(|q: u32| q < p)),
                ),
                procs_model(
                    map_of_pairs(payload_list@).map_values(
                        |sp: SerializedProcess| MaybeSerializedProcess::<P>::Ser(sp),
                    ),
                ) == procs_model(self.procs().restrict(Set::new(|q: u32| q < p))),
                forall|q: u32|
                    q < p && #[trigger] self.procs().contains_key(q) ==> self.procs()[q] is Ser,
            decreases self.next_pid() - p,
        {
            let ghost infos_before = map_of_pairs(info_list@);
            let ghost payloads_before = map_of_pairs(payload_list@);
            proof {
                kernel_view_facts(*self);
            }
            match self.info_table.get(&p) {
                Some(info) => {
                    let ghost before_view = info_list@;
                    let copied = copy_info(info);
                    info_list.push((p, copied));
                    proof {
                        assert(info_list@.drop_last() =~= before_view);
                        assert(info_list@.last() == (p, copied));
                        assert(map_of_pairs(info_list@) == infos_before.insert(p, copied));
                        assert(self.infos().contains_key(p));
                        assert(*info == self.infos()[p]);
                        assert(info_model(copied) == info_model(self.infos()[p]));
                        assert(self.infos().restrict(Set::new(|q: u32| q < p + 1))
                            =~= self.infos().restrict(Set::new(|q: u32| q < p)).insert(
                            p,
                            self.infos()[p],
                        ));
                        let lhs = infos_model(map_of_pairs(info_list@));
                        let rhs = infos_model(
                            self.infos().restrict(Set::new(|q: u32| q < p + 1)),
                        );
                        assert forall|q: u32| #[trigger]
                            lhs.contains_key(q) implies rhs.contains_key(q) && lhs[q]
                            == rhs[q] by {
                            if q != p {
                                assert(infos_before.contains_key(q));
                                assert(infos_model(infos_before).contains_key(q));
                                assert(lhs[q] == info_model(infos_before[q]));
                                assert(infos_model(infos_before)[q] == info_model(
                                    infos_before[q],
                                ));
                                assert(infos_model(
                                    self.infos().restrict(Set::new(|qq: u32| qq < p)),
                                )[q] == infos_model(infos_before)[q]);
                            }
                        }
                        assert forall|q: u32| #[trigger]
                            rhs.contains_key(q) implies lhs.contains_key(q) by {
                            if q != p {
                                assert(infos_model(
                                    self.infos().restrict(Set::new(|qq: u32| qq < p)),
                                ).contains_key(q));
                                assert(infos_model(infos_before).contains_key(q));
                            }
                        }
                        assert(infos_model(map_of_pairs(info_list@)) =~= infos_model(
                            self.infos().restrict(Set::new(|q: u32| q < p + 1)),
                        ));
                    }
                },
                None => {
                    proof {
                        assert(self.infos().restrict(Set::new(|q: u32| q < p + 1))
                            =~= self.infos().restrict(Set::new(|q: u32| q < p)));
                        assert(infos_model(map_of_pairs(info_list@)) =~= infos_model(
                            self.infos().restrict(Set::new(|q: u32| q < p + 1)),
                        ));
                    }
                },
            }
            match self.process_table.get(&p) {
                Some(payload) => match payload {
                    MaybeSerializedProcess::Ser(sp) => {
                        let ghost before_view = payload_list@;
                        let copied = SerializedProcess::new(sp.type_id(), copy_vals(sp.bytes()));
                        payload_list.push((p, copied));
                        proof {
                            assert(payload_list@.drop_last() =~= before_view);
                            assert(payload_list@.last() == (p, copied));
                            assert(map_of_pairs(payload_list@) == payloads_before.insert(
                                p,
                                copied,
                            ));
                            assert(self.procs().contains_key(p));
                            assert(*payload == self.procs()[p]);
                            assert(self.procs()[p] == MaybeSerializedProcess::<P>::Ser(*sp));
                            assert(payload_model(copied) == payload_model(*sp));
                            assert(self.procs().restrict(Set::new(|q: u32| q < p + 1))
                                =~= self.procs().restrict(Set::new(|q: u32| q < p)).insert(
                                p,
                                self.procs()[p],
                            ));
                            let lhs = procs_model(
                                map_of_pairs(payload_list@).map_values(
                                    |sp2: SerializedProcess| MaybeSerializedProcess::<P>::Ser(
                                        sp2,
                                    ),
                                ),
                            );
                            let rhs = procs_model(
                                self.procs().restrict(Set::new(|q: u32| q < p + 1)),
                            );
                            let prev_lhs = procs_model(
                                payloads_before.map_values(
                                    |sp2: SerializedProcess| MaybeSerializedProcess::<P>::Ser(
                                        sp2,
                                    ),
                                ),
                            );
                            let prev_rhs = procs_model(
                                self.procs().restrict(Set::new(|q: u32| q < p)),
                            );
                            assert forall|q: u32| #[trigger]
                                lhs.contains_key(q) implies rhs.contains_key(q) && lhs[q]
                                == rhs[q] by {
                                if q != p {
                                    assert(payloads_before.contains_key(q));
                                    assert(prev_lhs.contains_key(q));
                                    assert(lhs[q] == prev_lhs[q]);
                                    assert(prev_lhs[q] == prev_rhs[q]);
                                }
                            }
                            assert forall|q: u32| #[trigger]
                                rhs.contains_key(q) implies lhs.contains_key(q) by {
                                if q != p {
                                    assert(prev_rhs.contains_key(q));
                                    assert(prev_lhs.contains_key(q));
                                }
                            }
                            assert(procs_model(
                                map_of_pairs(payload_list@).map_values(
                                    |sp2: SerializedProcess| MaybeSerializedProcess::<P>::Ser(
                                        sp2,
                                    ),
                                ),
                            ) =~= procs_model(
                                self.procs().restrict(Set::new(|q: u32| q < p + 1)),
                            ));
                        }
                    },
                    MaybeSerializedProcess::De(_) => {
                        return None;
                    },
                },
                None => {
                    proof {
                        assert(self.procs().restrict(Set::new(|q: u32| q < p + 1))
                            =~= self.procs().restrict(Set::new(|q: u32| q < p)));
                        assert(procs_model(
                            map_of_pairs(payload_list@).map_values(
                                |sp: SerializedProcess| MaybeSerializedProcess::<P>::Ser(sp),
                            ),
                        ) =~= procs_model(
                            self.procs().restrict(Set::new(|q: u32| q < p + 1)),
                        ));
                    }
                },
            }
            p = p + 1;
        }
        let result = Snapshot {
            next_pid_number: self.next_pid_number,
            current_tick: self.current_tick,
            info_list,
            payload_list,
            wake_list: copy_vals(&self.wake_list),
            queue_codes,
            deferred_codes,
        };
        proof {
            assert(self.infos().restrict(Set::new(|q: u32| q < self.next_pid())) =~= self.infos());
            assert(self.procs().restrict(Set::new(|q: u32| q < self.next_pid())) =~= self.procs());
            assert forall|q: u32| #[trigger]
                self.procs().contains_key(q) implies self.procs()[q] is Ser by {
                assert(self.infos().contains_key(q));
            }
            assert(models::<P>(result, *self));
            lemma_info_wf_model_transfer(
                map_of_pairs(result.info_pairs()),
                self.infos(),
                result.next_pid(),
            );
            assert forall|j: int|
                0 <= j < result.payload_pairs().len() implies map_of_pairs(
                result.info_pairs(),
            ).contains_key((#[trigger] result.payload_pairs()[j]).0) by {
                let q = result.payload_pairs()[j].0;
                lemma_map_of_pairs_keys(result.payload_pairs(), q);
                assert(map_of_pairs(result.payload_pairs()).contains_key(q));
                assert(procs_model(
                    map_of_pairs(result.payload_pairs()).map_values(
                        |sp: SerializedProcess| MaybeSerializedProcess::<P>::Ser(sp),
                    ),
                ).contains_key(q));
                assert(self.procs().contains_key(q));
                assert(self.infos().contains_key(q));
                assert(infos_model(self.infos()).contains_key(q));
                lemma_map_of_pairs_keys(result.info_pairs(), q);
            }
        }
        Some(result)
    }

    /// Transcode every live payload to its opaque serialized form, using
    /// each process's own type tag and byte encoding, so that the kernel
    /// can be snapshotted.  Payloads already serialized are untouched, and
    /// nothing else changes.
    #[verifier::loop_isolation(false)]
    pub fn make_serialized(&mut self)
        requires
            old(self).wf(),
        ensures
            final(self).wf(),
            all_serialized(final(self).procs()),
            final(self).procs().dom() == old(self).procs().dom(),
            forall|p: u32| #[trigger]
                old(self).procs().contains_key(p) && old(self).procs()[p] is Ser ==> final(self).procs()[p] == old(self).procs()[p],
            final(self).infos() == old(self).infos(),
            final(self).next_pid() == old(self).next_pid(),
            final(self).queue() == old(self).queue(),
            final(self).deferred() == old(self).deferred(),
            final(self).wake() == old(self).wake(),
            final(self).cur_tick() == old(self).cur_tick(),
    {
        proof {
            kernel_view_facts(*old(self));
        }
        let mut p: u32 = 0;
        let end = self.next_pid_number;
        while p < end
            invariant
                0 <= p <= end,
                end == old(self).next_pid(),
                self.next_pid_number == old(self).next_pid(),
                self.info_table@ == old(self).infos(),
                self.current_tick == old(self).cur_tick(),
                self.wake_list@ == old(self).wake(),
                self.scheduler == old(self).scheduler,
                self.process_table@.dom() == old(self).procs().dom(),
                forall|q: u32| #[trigger]
                    old(self).procs().contains_key(q) && old(self).procs()[q] is Ser
                        ==> self.process_table@[q] == old(self).procs()[q],
                forall|q: u32|
                    q < p && #[trigger] self.process_table@.contains_key(q)
                        ==> self.process_table@[q] is Ser,
            decreases end - p,
        {
            let transcoded = match self.process_table.remove(&p) {
                Some(payload) => match payload {
                    MaybeSerializedProcess::De(process) => {
                        let type_id = process.type_id();
                        let bytes = process.to_bytes();
                        Some(MaybeSerializedProcess::Ser(SerializedProcess::new(type_id, bytes)))
                    },
                    MaybeSerializedProcess::Ser(sp) => Some(MaybeSerializedProcess::Ser(sp)),
                },
                None => None,
            };
            match transcoded {
                Some(payload) => {
                    self.process_table.insert(p, payload);
                    proof {
                        assert(self.process_table@.dom() =~= old(self).procs().dom());
                    }
                },
                None => {
                },
            }
            p = p + 1;
        }
        proof {
            kernel_view_facts(*self);
            assert forall|q: u32| #[trigger]
                self.procs().contains_key(q) implies self.procs()[q] is Ser by {
                assert(old(self).procs().contains_key(q));
                assert(old(self).infos().contains_key(q));
                assert(q < end);
            }
        }
    }

    /// Rebuild a kernel from a snapshot.  The result is well formed and
    /// captured by the same snapshot, so driven identically it dispatches
    /// exactly as the snapshotted kernel did.
    #[verifier::loop_isolation(false)]
    pub fn restore(image: Snapshot) -> (k: Kernel<P>)
        requires
            image.wf(),
        ensures
            k.wf(),
            models::<P>(image, k),
            k.infos() == map_of_pairs(image.info_pairs()),
            k.procs() == map_of_pairs(image.payload_pairs()).map_values(
                |sp: SerializedProcess| MaybeSerializedProcess::<P>::Ser(sp),
            ),
            k.queue() == tasks_of_codes::<P::Content, P::Return>(image.queue()),
            k.deferred() == tasks_of_codes::<P::Content, P::Return>(image.deferred()),
            k.wake() == image.wake(),
            k.next_pid() == image.next_pid(),
            k.cur_tick() == image.tick(),
    {
        let ghost image0 = image;
        let Snapshot {
            next_pid_number,
            current_tick,
            info_list,
            payload_list,
            wake_list,
            queue_codes,
            deferred_codes,
        } = image;
        let ghost info_pairs = info_list@;
        let ghost payload_pairs = payload_list@;
        let mut info_table: HashMap<u32, ProcessInfo> = HashMap::new();
        let mut remaining_infos = info_list;
        let ghost mut i: int = 0;
        while remaining_infos.len() > 0
            invariant
                0 <= i,
                i + remaining_infos@.len() == info_pairs.len(),
                remaining_infos@ == info_pairs.subrange(i, info_pairs.len() as int),
                info_table@ == map_of_pairs(info_pairs.subrange(0, i)),
            decreases remaining_infos@.len(),
        {
            let (p, info) = remaining_infos.remove(0);
            info_table.insert(p, info);
            proof {
                assert(info_pairs.subrange(0, i + 1).drop_last() =~= info_pairs.subrange(0, i));
                assert((p, info) == info_pairs[i]);
                assert(info_table@ =~= map_of_pairs(info_pairs.subrange(0, i + 1)));
                assert(remaining_infos@ =~= info_pairs.subrange(i + 1, info_pairs.len() as int));
            }
            proof {
                i = i + 1;
            }
        }
        let mut process_table: HashMap<u32, MaybeSerializedProcess<P>> = HashMap::new();
        let mut remaining_payloads = payload_list;
        let ghost mut j: int = 0;
        while remaining_payloads.len() > 0
            invariant
                0 <= j,
                j + remaining_payloads@.len() == payload_pairs.len(),
                remaining_payloads@ == payload_pairs.subrange(j, payload_pairs.len() as int),
                process_table@ == map_of_pairs(payload_pairs.subrange(0, j)).map_values(
                    |sp: SerializedProcess| MaybeSerializedProcess::<P>::Ser(sp),
                ),
            decreases remaining_payloads@.len(),
        {
            let (p, sp) = remaining_payloads.remove(0);
            process_table.insert(p, MaybeSerializedProcess::Ser(sp));
            proof {
                assert(payload_pairs.subrange(0, j + 1).drop_last() =~= payload_pairs.subrange(
                    0,
                    j,
                ));
                assert((p, sp) == payload_pairs[j]);
                assert(process_table@ =~= map_of_pairs(payload_pairs.subrange(0, j + 1)).map_values(
                    |sp: SerializedProcess| MaybeSerializedProcess::<P>::Ser(sp),
                ));
                assert(remaining_payloads@ =~= payload_pairs.subrange(
                    j + 1,
                    payload_pairs.len() as int,
                ));
            }
            proof {
                j = j + 1;
            }
        }
        let task_queue = decode_tasks(&queue_codes);
        let next_tick_tasks = decode_tasks(&deferred_codes);
        let k = Kernel {
            process_table,
            info_table,
            next_pid_number,
            scheduler: Scheduler { task_queue, next_tick_tasks },
            current_tick,
            wake_list,
        };
        proof {
            kernel_view_facts(k);
            assert(info_pairs.subrange(0, info_pairs.len() as int) =~= info_pairs);
            assert(payload_pairs.subrange(0, payload_pairs.len() as int) =~= payload_pairs);
            assert(k.infos() == map_of_pairs(image0.info_pairs()));
            assert forall|d: u32| #[trigger]
                k.procs().dom().contains(d) implies k.infos().contains_key(d) by {
                lemma_map_of_pairs_keys(image0.payload_pairs(), d);
            }
            assert(k.wf());
        }
        k
    }
}


/// Association lists whose entries mean the same denote tables that mean
/// the same.
pub proof fn lemma_info_pairs_model_transfer(
    p1: Seq<(u32, ProcessInfo)>,
    p2: Seq<(u32, ProcessInfo)>,
)
    requires
        p1.len() == p2.len(),
        forall|j: int|
            0 <= j < p1.len() ==> (#[trigger] p1[j]).0 == (#[trigger] p2[j]).0 && info_model(
                p1[j].1,
            ) == info_model(p2[j].1),
    ensures
        infos_model(map_of_pairs(p1)) == infos_model(map_of_pairs(p2)),
    decreases p1.len(),
{
    if p1.len() > 0 {
        assert forall|j: int|
            0 <= j < p1.drop_last().len() implies (#[trigger] p1.drop_last()[j]).0 == (
        #[trigger] p2.drop_last()[j]).0 && info_model(p1.drop_last()[j].1) == info_model(
            p2.drop_last()[j].1,
        ) by {
            assert(p1[j] == p1.drop_last()[j]);
            assert(p2[j] == p2.drop_last()[j]);
        }
        lemma_info_pairs_model_transfer(p1.drop_last(), p2.drop_last());
        assert(p1.last() == p1[p1.len() - 1]);
        assert(p2.last() == p2[p2.len() - 1]);
        assert(p1[p1.len() - 1].0 == p2[p2.len() - 1].0);
        assert(info_model(p1[p1.len() - 1].1) == info_model(p2[p2.len() - 1].1));
        let m1 = map_of_pairs(p1);
        let m2 = map_of_pairs(p2);
        let d1 = map_of_pairs(p1.drop_last());
        let d2 = map_of_pairs(p2.drop_last());
        let key = p1.last().0;
        assert(m1 == d1.insert(key, p1.last().1));
        assert(m2 == d2.insert(key, p2.last().1));
        assert forall|q: u32| #[trigger]
            infos_model(m1).contains_key(q) implies infos_model(m2).contains_key(q)
            && infos_model(m1)[q] == infos_model(m2)[q] by {
            if q != key {
                assert(d1.contains_key(q));
                assert(infos_model(d1).contains_key(q));
                assert(infos_model(d1)[q] == infos_model(d2)[q]);
                assert(infos_model(m1)[q] == info_model(m1[q]));
                assert(m1[q] == d1[q]);
                assert(m2[q] == d2[q]);
            }
        }
        assert forall|q: u32| #[trigger]
            infos_model(m2).contains_key(q) implies infos_model(m1).contains_key(q) by {
            if q != key {
                assert(d2.contains_key(q));
                assert(infos_model(d2).contains_key(q));
                assert(infos_model(d1).contains_key(q));
            }
        }
        assert(infos_model(map_of_pairs(p1)) =~= infos_model(map_of_pairs(p2)));
    }
}

/// Payload lists whose entries mean the same denote payload tables that
/// mean the same.
pub proof fn lemma_payload_pairs_model_transfer<P: Process>(
    p1: Seq<(u32, SerializedProcess)>,
    p2: Seq<(u32, SerializedProcess)>,
)
    requires
        p1.len() == p2.len(),
        forall|j: int|
            0 <= j < p1.len() ==> (#[trigger] p1[j]).0 == (#[trigger] p2[j]).0 && payload_model(
                p1[j].1,
            ) == payload_model(p2[j].1),
    ensures
        procs_model(
            map_of_pairs(p1).map_values(
                |sp: SerializedProcess| MaybeSerializedProcess::<P>::Ser(sp),
            ),
        ) == procs_model(
            map_of_pairs(p2).map_values(
                |sp: SerializedProcess| MaybeSerializedProcess::<P>::Ser(sp),
            ),
        ),
    decreases p1.len(),
{
    if p1.len() > 0 {
        assert forall|j: int|
            0 <= j < p1.drop_last().len() implies (#[trigger] p1.drop_last()[j]).0 == (
        #[trigger] p2.drop_last()[j]).0 && payload_model(p1.drop_last()[j].1) == payload_model(
            p2.drop_last()[j].1,
        ) by {
            assert(p1[j] == p1.drop_last()[j]);
            assert(p2[j] == p2.drop_last()[j]);
        }
        lemma_payload_pairs_model_transfer::<P>(p1.drop_last(), p2.drop_last());
        assert(p1.last() == p1[p1.len() - 1]);
        assert(p2.last() == p2[p2.len() - 1]);
        assert(p1[p1.len() - 1].0 == p2[p2.len() - 1].0);
        assert(payload_model(p1[p1.len() - 1].1) == payload_model(p2[p2.len() - 1].1));
        let f = |sp: SerializedProcess| MaybeSerializedProcess::<P>::Ser(sp);
        let m1 = procs_model(map_of_pairs(p1).map_values(f));
        let m2 = procs_model(map_of_pairs(p2).map_values(f));
        let d1 = procs_model(map_of_pairs(p1.drop_last()).map_values(f));
        let d2 = procs_model(map_of_pairs(p2.drop_last()).map_values(f));
        let key = p1.last().0;
        assert forall|q: u32| #[trigger] m1.contains_key(q) implies m2.contains_key(q) && m1[q]
            == m2[q] by {
            if q == key {
                assert(m1[q] == payload_model(p1.last().1));
                assert(m2[q] == payload_model(p2.last().1));
            } else {
                assert(map_of_pairs(p1.drop_last()).contains_key(q));
                assert(d1.contains_key(q));
                assert(d1[q] == d2[q]);
                assert(m1[q] == d1[q]);
                assert(m2[q] == d2[q]);
            }
        }
        assert forall|q: u32| #[trigger] m2.contains_key(q) implies m1.contains_key(q) by {
            if q != key {
                assert(map_of_pairs(p2.drop_last()).contains_key(q));
                assert(d2.contains_key(q));
                assert(d1.contains_key(q));
            }
        }
        assert(procs_model(
            map_of_pairs(p1).map_values(
                |sp: SerializedProcess| MaybeSerializedProcess::<P>::Ser(sp),
            ),
        ) =~= procs_model(
            map_of_pairs(p2).map_values(
                |sp: SerializedProcess| MaybeSerializedProcess::<P>::Ser(sp),
            ),
        ));
    }
}

} // verus!

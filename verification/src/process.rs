//! The process contract: the state-machine interface every managed unit of
//! work implements, the result types its lifecycle methods return, and the
//! transcoding wrapper that holds a process either live or as opaque bytes.

use vstd::prelude::*;

use crate::kernel::SysCall;

verus! {

/// Outcome of a `start` or `run` lifecycle call.
pub enum PResult<R> {
    /// The process finished; its optional return value is delivered to the
    /// parent as a join event.
    Done(Option<R>),
    /// Run again before the current tick ends.
    Yield,
    /// Run again next tick, after everything queued for the current tick.
    YieldTick,
    /// Park until the given number of ticks has elapsed.
    Sleep(u32),
    /// Park until an externally delivered join or message event arrives.
    Wait,
    /// The process failed; it and all its descendants are torn down.
    Error(String),
}

/// Outcome of a `join` or `receive` lifecycle call.  A process reacting to
/// an asynchronous signal either finishes, fails, or does nothing; it cannot
/// request to be rescheduled from this callback.
pub enum PSignalResult<R> {
    /// The process finished; the value is delivered to the parent as a join.
    Done(Option<R>),
    /// The process failed; it and all its descendants are torn down.
    Error(String),
    /// No scheduling change; the process stays exactly as it was.
    Ignore,
}

/// A message addressed to a process, tagged with the pid of its sender.
pub struct Message<T> {
    sender_pid: u32,
    msg: T,
}

impl<T> Message<T> {
    /// The pid the message claims as its sender.
    pub closed spec fn sender(self) -> u32 {
        self.sender_pid
    }

    /// The payload carried by the message.
    pub closed spec fn content(self) -> T {
        self.msg
    }

    pub fn new(sender_pid: u32, msg: T) -> (m: Message<T>)
        ensures
            m.sender() == sender_pid,
            m.content() == msg,
    {
        Message { sender_pid, msg }
    }

    pub fn sender_pid(&self) -> (r: u32)
        ensures
            r == self.sender(),
    {
        self.sender_pid
    }

    pub fn into_content(self) -> (r: T)
        ensures
            r == self.content(),
    {
        self.msg
    }
}

/// The contract every managed process implements.  The kernel drives a
/// process exclusively through these methods and routes each returned
/// outcome through its scheduling logic.
///
/// A lifecycle method receives the per-dispatch capability handle by mutable
/// reference and may use it to fork children or send messages.  The handle
/// contracts below are satisfied automatically by any implementation that
/// touches the handle only through its public methods, which is the only
/// thing an implementation can do with it.
///
/// `type_id` and `to_bytes` must round-trip through the host's factory
/// function to an equivalent instance; the kernel relies on that for lazy
/// transcoding but cannot check it.
pub trait Process: Sized {
    /// The payload type of messages exchanged between processes.
    type Content;

    /// The type of the value a finished process hands to its parent.
    type Return;

    /// Invoked once, when the process is first dispatched after launch.
    fn start(&mut self, syscall: &mut SysCall<Self::Content, Self>) -> (r: PResult<Self::Return>)
        requires
            old(syscall).wf(),
        ensures
            final(syscall).wf(),
            final(syscall).base() == old(syscall).base(),
    {
        PResult::Yield
    }

    /// Invoked on every scheduled run after the first.
    fn run(&mut self, syscall: &mut SysCall<Self::Content, Self>) -> (r: PResult<Self::Return>)
        requires
            old(syscall).wf(),
        ensures
            final(syscall).wf(),
            final(syscall).base() == old(syscall).base(),
    ;

    /// Invoked when a child of this process has finished; `return_value` is
    /// what the child returned.
    fn join(
        &mut self,
        syscall: &mut SysCall<Self::Content, Self>,
        return_value: Option<Self::Return>,
    ) -> (r: PSignalResult<Self::Return>)
        requires
            old(syscall).wf(),
        ensures
            final(syscall).wf(),
            final(syscall).base() == old(syscall).base(),
    {
        PSignalResult::Ignore
    }

    /// Invoked when another process has sent this one a message.
    fn receive(
        &mut self,
        syscall: &mut SysCall<Self::Content, Self>,
        msg: Message<Self::Content>,
    ) -> (r: PSignalResult<Self::Return>)
        requires
            old(syscall).wf(),
        ensures
            final(syscall).wf(),
            final(syscall).base() == old(syscall).base(),
    {
        PSignalResult::Ignore
    }

    /// Teardown hook, invoked exactly when the process is force-terminated.
    fn kill(&mut self) {
    }

    /// The stable numeric tag the host's factory maps back to this concrete
    /// type.
    fn type_id(&self) -> u32;

    /// An opaque byte image of the process state, decodable by the host's
    /// factory under this process's type tag.
    fn to_bytes(&self) -> Vec<u8>;
}

/// A process payload in its opaque, persistable form: a type tag plus the
/// byte image produced by `Process::to_bytes`.
pub struct SerializedProcess {
    type_id: u32,
    bytes: Vec<u8>,
}

impl SerializedProcess {
    /// The stable numeric type tag.
    pub closed spec fn tag(self) -> u32 {
        self.type_id
    }

    /// The opaque byte image.
    pub closed spec fn image(self) -> Seq<u8> {
        self.bytes@
    }

    pub fn new(type_id: u32, bytes: Vec<u8>) -> (s: SerializedProcess)
        ensures
            s.tag() == type_id,
            s.image() == bytes@,
    {
        SerializedProcess { type_id, bytes }
    }

    pub fn type_id(&self) -> (r: u32)
        ensures
            r == self.tag(),
    {
        self.type_id
    }

    pub fn bytes(&self) -> (r: &Vec<u8>)
        ensures
            r@ == self.image(),
    {
        &self.bytes
    }
}

/// A resident process payload: either still an opaque byte image (`Ser`) or
/// a live instance (`De`).  The kernel promotes a payload to `De` lazily,
/// just before it has to invoke a lifecycle method on it.
pub enum MaybeSerializedProcess<P> {
    Ser(SerializedProcess),
    De(P),
}

impl<P: Process> MaybeSerializedProcess<P> {
    /// Promote this payload to its live form if it is still opaque, using
    /// the host-supplied factory to rebuild the instance from its tag and
    /// byte image.  A live payload is left untouched.
    pub fn deserialize<F: Fn(u32, &[u8]) -> P>(&mut self, deserializer: &F)
        requires
            forall|tag: u32, bytes: &[u8]| #[trigger] call_requires(*deserializer, (tag, bytes)),
        ensures
            *final(self) is De,
            *old(self) is De ==> *final(self) == *old(self),
            *old(self) is Ser ==> exists|bytes: &[u8]|
                bytes@ == (*old(self))->Ser_0.image() && call_ensures(
                    *deserializer,
                    ((*old(self))->Ser_0.tag(), bytes),
                    (*final(self))->De_0,
                ),
    {
        let selector = match self {
            MaybeSerializedProcess::Ser(sp) => Some(deserializer(sp.type_id, sp.bytes.as_slice())),
            MaybeSerializedProcess::De(_) => None,
        };
        if let Some(process) = selector {
            *self = MaybeSerializedProcess::De(process);
        }
    }

    /// Promote to live form if needed, then hand out mutable access to the
    /// live instance.
    pub fn deserialized_process<F: Fn(u32, &[u8]) -> P>(&mut self, deserializer: &F) -> (p: &mut P)
        requires
            forall|tag: u32, bytes: &[u8]| #[trigger] call_requires(*deserializer, (tag, bytes)),
        ensures
            *final(self) == MaybeSerializedProcess::<P>::De(*final(p)),
            *old(self) is De ==> *p == (*old(self))->De_0,
            *old(self) is Ser ==> exists|bytes: &[u8]|
                bytes@ == (*old(self))->Ser_0.image() && call_ensures(
                    *deserializer,
                    ((*old(self))->Ser_0.tag(), bytes),
                    *p,
                ),
    {
        self.deserialize(deserializer);
        match self {
            MaybeSerializedProcess::De(process) => process,
            MaybeSerializedProcess::Ser(_) => vstd::pervasive::unreached(),
        }
    }
}


/// The byte image of a serialized payload is vector-backed, so its length
/// fits the machine.
pub proof fn lemma_serialized_image_bound(sp: SerializedProcess)
    ensures
        sp.image().len() <= usize::MAX,
{
    vstd::std_specs::vec::axiom_spec_len(&sp.bytes);
}

} // verus!

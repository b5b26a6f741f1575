use oxydized_screeps::kernel::SysCall;
use oxydized_screeps::snapshot::Snapshot;
use oxydized_screeps::Kernel;
use oxydized_screeps::Message;
use oxydized_screeps::PResult;
use oxydized_screeps::PSignalResult;
use oxydized_screeps::Process;

#[derive(Debug)]
struct ParentProcess {
    h: String,
    s: bool,
}

impl ParentProcess {
    fn new() -> Self {
        ParentProcess { h: "Hello, ".to_owned(), s: false }
    }

    fn to_bytes(&self) -> Vec<u8> {
        let mut bytes = vec![if self.s { 1u8 } else { 0u8 }];
        bytes.extend_from_slice(self.h.as_bytes());
        bytes
    }

    fn from_bytes(bytes: &[u8]) -> Self {
        ParentProcess {
            s: bytes[0] != 0,
            h: String::from_utf8(bytes[1..].to_vec()).unwrap(),
        }
    }
}

#[derive(Debug)]
struct ChildProcess {
    w: String,
    s: bool,
    n_run: u32,
}

impl ChildProcess {
    fn new() -> Self {
        ChildProcess { w: "World".to_owned(), s: false, n_run: 0 }
    }

    fn to_bytes(&self) -> Vec<u8> {
        let mut bytes = vec![if self.s { 1u8 } else { 0u8 }];
        bytes.extend_from_slice(&self.n_run.to_le_bytes());
        bytes.extend_from_slice(self.w.as_bytes());
        bytes
    }

    fn from_bytes(bytes: &[u8]) -> Self {
        ChildProcess {
            s: bytes[0] != 0,
            n_run: u32::from_le_bytes([bytes[1], bytes[2], bytes[3], bytes[4]]),
            w: String::from_utf8(bytes[5..].to_vec()).unwrap(),
        }
    }
}

#[derive(Debug)]
enum TestProc {
    Parent(ParentProcess),
    Child(ChildProcess),
}

impl Process for TestProc {
    type Content = ();
    type Return = String;

    fn start(&mut self, sc: &mut SysCall<(), TestProc>) -> PResult<String> {
        match self {
            TestProc::Parent(_) => {
                sc.fork(vec![TestProc::Child(ChildProcess::new())]);
                PResult::YieldTick
            }
            TestProc::Child(child) => {
                child.s = true;
                PResult::Sleep(3)
            }
        }
    }

    fn run(&mut self, sc: &mut SysCall<(), TestProc>) -> PResult<String> {
        match self {
            TestProc::Parent(parent) => {
                parent.s = true;
                sc.fork(vec![TestProc::Child(ChildProcess::new())]);
                PResult::YieldTick
            }
            TestProc::Child(child) => {
                child.n_run += 1;
                PResult::Done(Some(child.w.clone()))
            }
        }
    }

    fn join(
        &mut self,
        _: &mut SysCall<(), TestProc>,
        return_value: Option<String>,
    ) -> PSignalResult<String> {
        match self {
            TestProc::Parent(parent) => {
                if let Some(value) = return_value {
                    if parent.s {
                        return PSignalResult::Done(Some(format!("{}{}", parent.h, value)));
                    }
                }
                PSignalResult::Ignore
            }
            TestProc::Child(_) => PSignalResult::Ignore,
        }
    }

    fn receive(
        &mut self,
        _: &mut SysCall<(), TestProc>,
        _msg: Message<()>,
    ) -> PSignalResult<String> {
        PSignalResult::Ignore
    }

    fn kill(&mut self) {}

    fn type_id(&self) -> u32 {
        match self {
            TestProc::Parent(_) => 1,
            TestProc::Child(_) => 2,
        }
    }

    fn to_bytes(&self) -> Vec<u8> {
        match self {
            TestProc::Parent(parent) => parent.to_bytes(),
            TestProc::Child(child) => child.to_bytes(),
        }
    }
}

fn deserialize_process(type_id: u32, bytes: &[u8]) -> TestProc {
    match type_id {
        1 => TestProc::Parent(ParentProcess::from_bytes(bytes)),
        2 => TestProc::Child(ChildProcess::from_bytes(bytes)),
        _ => panic!("bad process number"),
    }
}

fn round_trip(ker: Kernel<TestProc>) -> Kernel<TestProc> {
    let mut ker = ker;
    ker.make_serialized();
    let snapshot = ker.snapshot().unwrap();
    let blob = snapshot.to_bytes();
    let restored = Snapshot::from_bytes(&blob);
    Kernel::restore(restored)
}

#[test]
fn empty_kernel() {
    let mut ker = Kernel::<TestProc>::new(10);

    for _ in 0..10 {
        ker.run_next(&deserialize_process);
    }

    let mut de_ker = round_trip(ker);

    de_ker.next_tick();
}

#[test]
fn lauch_single_process() {
    let mut ker = Kernel::<TestProc>::new(10);

    ker.launch_process(TestProc::Child(ChildProcess::new()), None);

    for _ in 0..10 {
        ker.run_next(&deserialize_process);
    }

    let mut de_ker = round_trip(ker);

    de_ker.next_tick();
}

#[test]
fn lauch_child_process() {
    let mut ker = Kernel::<TestProc>::new(10);
    ker.launch_process(TestProc::Parent(ParentProcess::new()), None);

    for _ in 0..10 {
        while ker.run_next(&deserialize_process) {}

        ker = round_trip(ker);
        ker.next_tick()
    }
}

#[test]
fn snapshot_preserves_behavior() {
    fn build() -> Kernel<TestProc> {
        let mut ker = Kernel::<TestProc>::new(10);
        ker.launch_process(TestProc::Child(ChildProcess::new()), None);
        while ker.run_next(&deserialize_process) {}
        ker
    }

    // One kernel is driven as built; the other goes through a snapshot
    // round trip first.  Driven identically, they behave identically: the
    // sleeping child wakes after exactly three tick-advances in both.
    let mut direct = build();
    let mut restored = round_trip(build());

    assert_eq!(direct.tick(), restored.tick());
    assert_eq!(direct.peek_next_pid(), restored.peek_next_pid());
    assert_eq!(direct.process_count(), restored.process_count());
    assert_eq!(direct.children_of(0), restored.children_of(0));
    assert_eq!(direct.parent_of(0), restored.parent_of(0));

    for _ in 0..2 {
        direct.next_tick();
        restored.next_tick();
        while direct.run_next(&deserialize_process) {}
        while restored.run_next(&deserialize_process) {}
        assert!(direct.contains_process(0));
        assert!(restored.contains_process(0));
    }

    direct.next_tick();
    restored.next_tick();
    while direct.run_next(&deserialize_process) {}
    while restored.run_next(&deserialize_process) {}
    assert!(!direct.contains_process(0));
    assert!(!restored.contains_process(0));
    assert_eq!(direct.process_count(), 0);
    assert_eq!(restored.process_count(), 0);
    assert_eq!(direct.tick(), 13);
    assert_eq!(restored.tick(), 13);
}

#[test]
fn identical_kernels_share_a_blob() {
    fn build() -> Kernel<TestProc> {
        let mut ker = Kernel::<TestProc>::new(7);
        ker.launch_process(TestProc::Child(ChildProcess::new()), None);
        while ker.run_next(&deserialize_process) {}
        ker.make_serialized();
        ker
    }

    // Two kernels built by the same steps produce byte-identical blobs,
    // and the blob survives its own round trip unchanged.
    let blob_a = build().snapshot().unwrap().to_bytes();
    let blob_b = build().snapshot().unwrap().to_bytes();
    assert_eq!(blob_a, blob_b);

    let reread = Snapshot::from_bytes(&blob_a).to_bytes();
    assert_eq!(blob_a, reread);
}

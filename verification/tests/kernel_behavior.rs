use std::cell::RefCell;
use std::rc::Rc;

use oxydized_screeps::kernel::SysCall;
use oxydized_screeps::Kernel;
use oxydized_screeps::Message;
use oxydized_screeps::PResult;
use oxydized_screeps::PSignalResult;
use oxydized_screeps::Process;

type Log = Rc<RefCell<Vec<String>>>;

/// A scripted process: on each lifecycle call it records what happened in
/// a shared log and performs the next step of its script.
enum Scripted {
    /// Forks a sleeper on start, then defers to the next tick; on join it
    /// concatenates its stored prefix with the child's value.
    Greeter { log: Log, prefix: String },
    /// Sets a flag and sleeps for the given ticks on start; when run,
    /// finishes with its stored word.
    Sleeper { log: Log, word: String, flagged: bool, ticks: u32 },
    /// Runs again within the same tick a fixed number of times.
    Yielder { log: Log, remaining: u32 },
    /// Fails immediately when run.
    Failer { log: Log },
    /// Forks a failer child, then waits forever.
    Guardian { log: Log },
    /// Waits for a message and records it.
    Listener { log: Log },
    /// Sends a message to a fixed pid, then finishes.
    Notifier { log: Log, target: u32 },
    /// Forks a yielder child and waits, but fails as soon as the child's
    /// join arrives.
    Grump { log: Log },
}

impl Process for Scripted {
    type Content = String;
    type Return = String;

    fn start(&mut self, sc: &mut SysCall<String, Scripted>) -> PResult<String> {
        match self {
            Scripted::Greeter { log, .. } => {
                let pids = sc.fork(vec![Scripted::Sleeper {
                    log: log.clone(),
                    word: "World".to_owned(),
                    flagged: false,
                    ticks: 3,
                }]);
                log.borrow_mut().push(format!("greeter forked {}", pids[0]));
                PResult::YieldTick
            }
            Scripted::Sleeper { log, flagged, ticks, .. } => {
                *flagged = true;
                log.borrow_mut().push("sleeper parked".to_owned());
                PResult::Sleep(*ticks)
            }
            Scripted::Yielder { .. } => PResult::Yield,
            Scripted::Failer { .. } => PResult::Yield,
            Scripted::Guardian { log } => {
                sc.fork(vec![Scripted::Failer { log: log.clone() }]);
                PResult::Wait
            }
            Scripted::Listener { .. } => PResult::Wait,
            Scripted::Notifier { log, target } => {
                sc.send_message(*target, Message::new(sc.my_pid(), "ping".to_owned()));
                log.borrow_mut().push("notifier sent".to_owned());
                PResult::Done(None)
            }
            Scripted::Grump { log } => {
                sc.fork(vec![Scripted::Yielder { log: log.clone(), remaining: 0 }]);
                PResult::Wait
            }
        }
    }

    fn run(&mut self, _: &mut SysCall<String, Scripted>) -> PResult<String> {
        match self {
            Scripted::Greeter { .. } => PResult::YieldTick,
            Scripted::Sleeper { log, word, .. } => {
                log.borrow_mut().push("sleeper ran".to_owned());
                PResult::Done(Some(word.clone()))
            }
            Scripted::Yielder { log, remaining } => {
                log.borrow_mut().push(format!("yielder at {}", *remaining));
                if *remaining == 0 {
                    PResult::Done(None)
                } else {
                    *remaining -= 1;
                    PResult::Yield
                }
            }
            Scripted::Failer { log } => {
                log.borrow_mut().push("failer failed".to_owned());
                PResult::Error("scripted failure".to_owned())
            }
            Scripted::Guardian { .. } => PResult::Wait,
            Scripted::Listener { .. } => PResult::Wait,
            Scripted::Notifier { .. } => PResult::Done(None),
            Scripted::Grump { .. } => PResult::Wait,
        }
    }

    fn join(
        &mut self,
        _: &mut SysCall<String, Scripted>,
        return_value: Option<String>,
    ) -> PSignalResult<String> {
        match self {
            Scripted::Grump { log } => {
                log.borrow_mut().push("grump grumbled".to_owned());
                let _ = return_value;
                PSignalResult::Error("unwanted join".to_owned())
            }
            Scripted::Greeter { log, prefix } => {
                if let Some(value) = return_value {
                    let greeting = format!("{}{}", prefix, value);
                    log.borrow_mut().push(greeting.clone());
                    return PSignalResult::Done(Some(greeting));
                }
                PSignalResult::Ignore
            }
            _ => PSignalResult::Ignore,
        }
    }

    fn receive(
        &mut self,
        _: &mut SysCall<String, Scripted>,
        msg: Message<String>,
    ) -> PSignalResult<String> {
        match self {
            Scripted::Listener { log } => {
                let sender = msg.sender_pid();
                log.borrow_mut().push(format!("heard {} from {}", msg.into_content(), sender));
                PSignalResult::Ignore
            }
            _ => PSignalResult::Ignore,
        }
    }

    fn kill(&mut self) {
        match self {
            Scripted::Failer { log } => log.borrow_mut().push("failer killed".to_owned()),
            Scripted::Guardian { log } => log.borrow_mut().push("guardian killed".to_owned()),
            _ => {}
        }
    }

    fn type_id(&self) -> u32 {
        99
    }

    fn to_bytes(&self) -> Vec<u8> {
        Vec::new()
    }
}

fn no_factory(_type_id: u32, _bytes: &[u8]) -> Scripted {
    panic!("these tests never restore a scripted process from bytes");
}

fn drain(ker: &mut Kernel<Scripted>) {
    while ker.run_next(&no_factory) {}
}

/// The full fork / sleep / join scenario: the greeter forks a sleeper and
/// defers; the sleeper flags itself and sleeps three ticks; on the third
/// tick-advance it runs, finishes with "World", and its join delivers
/// "Hello, World" to the greeter, which finishes with no children left.
#[test]
fn greeter_scenario() {
    let log: Log = Rc::new(RefCell::new(Vec::new()));
    let mut ker = Kernel::<Scripted>::new(0);

    let a = ker.launch_process(
        Scripted::Greeter { log: log.clone(), prefix: "Hello, ".to_owned() },
        None,
    );
    assert_eq!(a, 0);

    // The greeter starts: it forks the sleeper and defers itself.
    assert!(ker.run_next(&no_factory));
    let children = ker.children_of(a).unwrap();
    assert_eq!(children, vec![1]);
    assert!(ker.contains_process(1));
    assert_eq!(ker.parent_of(1), Some(Some(a)));

    // The sleeper starts and parks itself for three ticks.
    assert!(ker.run_next(&no_factory));
    assert!(!ker.run_next(&no_factory));

    // Two tick-advances: the sleeper must not wake early; only the
    // deferred greeter runs.
    for _ in 0..2 {
        ker.next_tick();
        drain(&mut ker);
        assert!(ker.contains_process(1));
        assert!(!log.borrow().iter().any(|line| line == "sleeper ran"));
    }

    // Third tick-advance: the sleeper wakes, finishes with "World", the
    // greeter's join concatenates and finishes too.
    ker.next_tick();
    drain(&mut ker);

    assert!(log.borrow().iter().any(|line| line == "sleeper ran"));
    assert!(log.borrow().iter().any(|line| line == "Hello, World"));
    assert!(!ker.contains_process(0));
    assert!(!ker.contains_process(1));
    assert!(ker.children_of(0).is_none());
    assert_eq!(ker.process_count(), 0);
}

/// Pids are assigned strictly increasing from zero and never reused, even
/// after processes die.
#[test]
fn pids_strictly_increase() {
    let log: Log = Rc::new(RefCell::new(Vec::new()));
    let mut ker = Kernel::<Scripted>::new(0);

    let first = ker.launch_process(Scripted::Failer { log: log.clone() }, None);
    let second = ker.launch_process(Scripted::Failer { log: log.clone() }, None);
    assert_eq!(first, 0);
    assert_eq!(second, 1);

    drain(&mut ker);
    ker.next_tick();
    drain(&mut ker);
    assert_eq!(ker.process_count(), 0);

    // The dead pids are not handed out again.
    let third = ker.launch_process(Scripted::Failer { log: log.clone() }, None);
    assert_eq!(third, 2);
    assert_eq!(ker.peek_next_pid(), 3);
}

/// A Yield outcome reruns the process within the same tick, before any
/// tick-advance.
#[test]
fn yield_reruns_same_tick() {
    let log: Log = Rc::new(RefCell::new(Vec::new()));
    let mut ker = Kernel::<Scripted>::new(0);

    ker.launch_process(Scripted::Yielder { log: log.clone(), remaining: 2 }, None);
    drain(&mut ker);

    // All three runs happened without a single next_tick.
    let lines = log.borrow().clone();
    assert_eq!(lines, vec!["yielder at 2", "yielder at 1", "yielder at 0"]);
    assert_eq!(ker.process_count(), 0);
}

/// An Error outcome tears down the failing process and its whole subtree;
/// only descendants get their teardown hook, and the parent of the failing
/// process hears nothing.
#[test]
fn error_cascades_to_children() {
    let log: Log = Rc::new(RefCell::new(Vec::new()));
    let mut ker = Kernel::<Scripted>::new(0);

    let guardian = ker.launch_process(Scripted::Guardian { log: log.clone() }, None);
    // The guardian starts, forking the failer; the failer start-yields,
    // then runs and fails.
    drain(&mut ker);
    ker.next_tick();
    drain(&mut ker);

    let lines = log.borrow().clone();
    assert!(lines.iter().any(|line| line == "failer failed"));
    // The failing process itself finished by failing: no teardown hook ran
    // for it, and the waiting guardian never received a join for it.
    assert!(!lines.iter().any(|line| line == "failer killed"));
    assert!(ker.contains_process(guardian));
    assert!(!lines.iter().any(|line| line.starts_with("Hello")));
    // The failer is gone from the registry; its entry in the guardian's
    // child list is at most a harmless stale reference.
    assert_eq!(ker.process_count(), 1);
}

/// A finished parent force-terminates a child that never finished: the
/// child's teardown hook runs and both disappear.
#[test]
fn parent_done_reaps_waiting_child() {
    let log: Log = Rc::new(RefCell::new(Vec::new()));
    let mut ker = Kernel::<Scripted>::new(0);

    // A notifier that forks a listener child, then finishes right away:
    // use a guardian variant built from primitives: fork a listener under
    // a process that returns Done on start.
    let parent = ker.launch_process(
        Scripted::Notifier { log: log.clone(), target: 999 },
        None,
    );
    // Hand-fork a listener as the notifier's child through the kernel
    // surface: launch it, then check the parent link.
    let child = ker.launch_process(Scripted::Listener { log: log.clone() }, Some(parent));
    assert_eq!(ker.parent_of(child), Some(Some(parent)));
    assert_eq!(ker.children_of(parent).unwrap(), vec![child]);

    // The notifier starts and immediately finishes; the listener, though
    // it was never told to stop, is force-terminated with it.
    assert!(ker.run_next(&no_factory));
    assert!(!ker.contains_process(parent));
    assert!(!ker.contains_process(child));
    assert_eq!(ker.process_count(), 0);
}

/// Messages reach their recipient's receive hook with sender and content
/// intact; a message to a dead pid is silently dropped.
#[test]
fn messages_are_delivered() {
    let log: Log = Rc::new(RefCell::new(Vec::new()));
    let mut ker = Kernel::<Scripted>::new(0);

    let listener = ker.launch_process(Scripted::Listener { log: log.clone() }, None);
    let notifier = ker.launch_process(
        Scripted::Notifier { log: log.clone(), target: listener },
        None,
    );
    drain(&mut ker);

    let lines = log.borrow().clone();
    assert!(lines.iter().any(|line| line == &format!("heard ping from {}", notifier)));
    assert!(ker.contains_process(listener));
    assert!(!ker.contains_process(notifier));

    // A message to a pid that never existed is dropped without effect.
    let mut quiet = Kernel::<Scripted>::new(0);
    let lone = quiet.launch_process(
        Scripted::Notifier { log: log.clone(), target: 424242 },
        None,
    );
    drain(&mut quiet);
    assert!(!quiet.contains_process(lone));
    assert_eq!(quiet.process_count(), 0);
}

/// The tick counter starts where the host says and only moves on
/// next_tick.
#[test]
fn tick_advances_only_on_next_tick() {
    let mut ker = Kernel::<Scripted>::new(41);
    assert_eq!(ker.tick(), 41);
    ker.run_next(&no_factory);
    assert_eq!(ker.tick(), 41);
    ker.next_tick();
    assert_eq!(ker.tick(), 42);
}

/// Two processes sleeping until the same tick wake in the order they went
/// to sleep, and a deferred run lands after both wake-ups.
#[test]
fn wake_ups_precede_deferred_runs() {
    let log: Log = Rc::new(RefCell::new(Vec::new()));
    let mut ker = Kernel::<Scripted>::new(0);

    // Two sleepers park for one tick; a yielder defers itself to the next
    // tick after running once.
    let s1 = ker.launch_process(
        Scripted::Sleeper { log: log.clone(), word: "first".to_owned(), flagged: false, ticks: 1 },
        None,
    );
    let s2 = ker.launch_process(
        Scripted::Sleeper { log: log.clone(), word: "second".to_owned(), flagged: false, ticks: 1 },
        None,
    );
    drain(&mut ker);
    log.borrow_mut().clear();

    // On the next tick both wake, in registration order, and both finish.
    ker.next_tick();
    assert!(ker.contains_process(s1));
    assert!(ker.contains_process(s2));
    drain(&mut ker);
    assert!(!ker.contains_process(s1));
    assert!(!ker.contains_process(s2));
    let lines = log.borrow().clone();
    assert_eq!(lines, vec!["sleeper ran", "sleeper ran"]);
}

/// A signal handler may fail too: a process that errors on a child's join
/// is torn down just like one that errors while running.
#[test]
fn join_error_tears_down() {
    let log: Log = Rc::new(RefCell::new(Vec::new()));
    let mut ker = Kernel::<Scripted>::new(0);

    let grump = ker.launch_process(Scripted::Grump { log: log.clone() }, None);
    drain(&mut ker);

    // The forked yielder finished immediately, so its join reached the
    // grump, whose handler failed; the grump is gone.
    assert!(log.borrow().iter().any(|line| line == "grump grumbled"));
    assert!(!ker.contains_process(grump));
    assert_eq!(ker.process_count(), 0);
}

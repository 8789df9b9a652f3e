use std::cell::RefCell;
use std::collections::{BTreeMap, HashMap, HashSet, VecDeque};
use std::rc::Rc;

use gnome_foreground_booster::cgroup::DmemValue;
use gnome_foreground_booster::path::CgroupPath;
use gnome_foreground_booster::policy::ForegroundPolicy;
use gnome_foreground_booster::recovery::parse_state;
use gnome_foreground_booster::request::{IoFailure, Reply, Request, Xattr};
use gnome_foreground_booster::watch::{WatchEvent, ATTRIB, DELETE_SELF, IGNORED, Q_OVERFLOW};

/// A path as text.
fn key(path: &CgroupPath) -> String {
    let mut text = String::new();
    for part in path.components() {
        if !text.is_empty() && text != "/" {
            text.push('/');
        }
        text.push_str(std::str::from_utf8(part).unwrap());
    }
    text
}

fn path(text: &str) -> CgroupPath {
    CgroupPath::new(text)
}

fn low(cgroup: &str) -> String {
    format!("{cgroup}/dmem.low")
}

const FOCUS: Xattr = Xattr::Focus;
const STATE: Xattr = Xattr::State;

#[derive(Default)]
struct FakeState {
    files: HashMap<String, BTreeMap<String, DmemValue>>,
    xattrs: HashMap<(String, &'static str), Vec<u8>>,
    writes: Vec<(String, String, DmemValue)>,
    requests: usize,
    failures: VecDeque<(String, IoFailure)>,
    failed_write_calls: VecDeque<usize>,
    write_calls: usize,
    set_xattr_calls: usize,
    unreadable_focus: HashSet<String>,
    unwritable: HashSet<String>,
    unsupported_xattrs: HashSet<String>,
    /// Whether a cgroup is there only if it was created.
    directories: Option<HashSet<String>>,
    watchable: HashSet<String>,
    watches: BTreeMap<i32, String>,
    next_watch: i32,
    events: Vec<WatchEvent>,
    no_watches: bool,
}

#[derive(Clone, Default)]
struct FakeIo(Rc<RefCell<FakeState>>);

impl FakeState {
    fn is_there(&self, cgroup: &str) -> bool {
        match &self.directories {
            Some(directories) => directories.contains(cgroup),
            None => true,
        }
    }

    fn failure(&mut self, operation: &str) -> Option<IoFailure> {
        if self.failures.front().map(|item| item.0.as_str()) == Some(operation) {
            return self.failures.pop_front().map(|item| item.1);
        }
        None
    }

    fn notify(&mut self, cgroup: &str, mask: u32) {
        let found: Vec<i32> = self
            .watches
            .iter()
            .filter(|(_, watched)| watched.as_str() == cgroup)
            .map(|(watch, _)| *watch)
            .collect();
        for watch in found {
            self.events.push(WatchEvent { watch, mask });
        }
    }

    fn answer(&mut self, request: Request) -> Reply {
        self.requests += 1;
        match request {
            Request::Read(file) => {
                if let Some(failure) = self.failure("read") {
                    return Reply::Text(Err(failure));
                }
                match self.files.get(&key(&file)) {
                    Some(values) => Reply::Text(Ok(values
                        .iter()
                        .map(|(region, value)| format!("{region} {}", value.text()))
                        .collect::<Vec<_>>()
                        .join("\n"))),
                    None => Reply::Text(Err(IoFailure::NotFound)),
                }
            }
            Request::WriteDmem { file, region, value } => {
                if let Some(failure) = self.failure("write") {
                    return Reply::Done(Err(failure));
                }
                self.write_calls += 1;
                if self.failed_write_calls.front() == Some(&self.write_calls) {
                    self.failed_write_calls.pop_front();
                    return Reply::Done(Err(IoFailure::Other));
                }
                match self.files.get_mut(&key(&file)) {
                    Some(values) => {
                        values.insert(region.clone(), value);
                        self.writes.push((key(&file), region, value));
                        Reply::Done(Ok(()))
                    }
                    None => Reply::Done(Err(IoFailure::NotFound)),
                }
            }
            Request::GetXattr { path, name } => {
                let cgroup = key(&path);
                if name == FOCUS && self.unreadable_focus.contains(&cgroup) {
                    return Reply::Attribute(Err(IoFailure::Other));
                }
                if let Some(failure) = self.failure("get_xattr") {
                    return Reply::Attribute(Err(failure));
                }
                if !self.is_there(&cgroup) {
                    return Reply::Attribute(Err(IoFailure::NotFound));
                }
                Reply::Attribute(Ok(self.xattrs.get(&(cgroup, name.name())).cloned()))
            }
            Request::SetXattr { path, name, bytes } => {
                self.set_xattr_calls += 1;
                if let Some(failure) = self.failure("set_xattr") {
                    return Reply::Done(Err(failure));
                }
                let cgroup = key(&path);
                if !self.is_there(&cgroup) {
                    return Reply::Done(Err(IoFailure::NotFound));
                }
                self.notify(&cgroup, ATTRIB);
                self.xattrs.insert((cgroup, name.name()), bytes);
                Reply::Done(Ok(()))
            }
            Request::RemoveXattr { path, name } => {
                if let Some(failure) = self.failure("remove_xattr") {
                    return Reply::Done(Err(failure));
                }
                let cgroup = key(&path);
                if !self.is_there(&cgroup) {
                    return Reply::Done(Err(IoFailure::NotFound));
                }
                self.notify(&cgroup, ATTRIB);
                self.xattrs.remove(&(cgroup, name.name()));
                Reply::Done(Ok(()))
            }
            Request::XattrsSupported(path) => {
                let cgroup = key(&path);
                if !self.is_there(&cgroup) {
                    Reply::Done(Err(IoFailure::NotFound))
                } else if self.unsupported_xattrs.contains(&cgroup) {
                    Reply::Done(Err(IoFailure::Other))
                } else {
                    Reply::Done(Ok(()))
                }
            }
            Request::Writable(file) => {
                let file = key(&file);
                if self.unwritable.contains(&file) {
                    Reply::Done(Err(IoFailure::Other))
                } else if self.files.contains_key(&file) {
                    Reply::Done(Ok(()))
                } else {
                    Reply::Done(Err(IoFailure::NotFound))
                }
            }
            Request::AddWatch(path) => {
                let cgroup = key(&path);
                if !self.watchable.contains(&cgroup) {
                    return Reply::Watch(Err(IoFailure::NotFound));
                }
                self.next_watch += 1;
                self.watches.insert(self.next_watch, cgroup);
                Reply::Watch(Ok(self.next_watch))
            }
            Request::RemoveWatch(watch) => {
                if self.watches.remove(&watch).is_some() {
                    self.events.push(WatchEvent { watch, mask: IGNORED });
                    Reply::Done(Ok(()))
                } else {
                    Reply::Done(Err(IoFailure::Other))
                }
            }
            Request::ResetWatches => {
                if self.no_watches {
                    return Reply::Done(Err(IoFailure::Other));
                }
                self.watches.clear();
                self.events.clear();
                Reply::Done(Ok(()))
            }
        }
    }
}

impl FakeIo {
    fn file(&self, path: &str, values: &[(&str, DmemValue)]) {
        self.0.borrow_mut().files.insert(
            path.to_owned(),
            values
                .iter()
                .map(|(key, value)| ((*key).to_owned(), *value))
                .collect(),
        );
    }

    fn xattr(&self, cgroup: &str, name: Xattr, value: &[u8]) {
        let mut state = self.0.borrow_mut();
        state.notify(cgroup, ATTRIB);
        state
            .xattrs
            .insert((cgroup.to_owned(), name.name()), value.to_vec());
    }

    fn value(&self, path: &str, region: &str) -> DmemValue {
        self.0.borrow().files[path][region]
    }

    fn has_xattr(&self, cgroup: &str, name: Xattr) -> bool {
        self.0
            .borrow()
            .xattrs
            .contains_key(&(cgroup.to_owned(), name.name()))
    }

    fn fail(&self, operation: &str, kind: IoFailure) {
        self.0
            .borrow_mut()
            .failures
            .push_back((operation.to_owned(), kind));
    }

    fn fail_writes(&self, calls: &[usize]) {
        self.0.borrow_mut().failed_write_calls = calls.iter().copied().collect();
    }

    /// Creates a cgroup that can be watched.
    fn create(&self, cgroup: &str) {
        let mut state = self.0.borrow_mut();
        state.watchable.insert(cgroup.to_owned());
        if let Some(directories) = &mut state.directories {
            directories.insert(cgroup.to_owned());
        }
    }

    /// Removes a cgroup with everything in it.
    fn remove(&self, cgroup: &str) {
        let mut state = self.0.borrow_mut();
        state.watchable.remove(cgroup);
        if let Some(directories) = &mut state.directories {
            directories.remove(cgroup);
        }
        state.files.remove(&low(cgroup));
        state.xattrs.retain(|(owner, _), _| owner != cgroup);
        state.notify(cgroup, DELETE_SELF);
        state.notify(cgroup, IGNORED);
        state.watches.retain(|_, watched| watched != cgroup);
    }

    /// Removes only the directory, as seen by the watches.
    fn remove_directory(&self, cgroup: &str) {
        let mut state = self.0.borrow_mut();
        state.watchable.remove(cgroup);
        state.notify(cgroup, DELETE_SELF);
        state.notify(cgroup, IGNORED);
        state.watches.retain(|_, watched| watched != cgroup);
    }
}

/// Carries out what the policy asks for until the operation has ended.
fn drive(policy: &mut ForegroundPolicy, io: &FakeIo) -> bool {
    while let Some(request) = policy.request() {
        let reply = io.0.borrow_mut().answer(request);
        policy.resume(reply);
    }
    policy.result().unwrap()
}

/// Carries out so many requests and then gives up.
fn drive_some(policy: &mut ForegroundPolicy, io: &FakeIo, steps: usize) -> bool {
    for _ in 0..steps {
        let Some(request) = policy.request() else {
            return true;
        };
        let reply = io.0.borrow_mut().answer(request);
        policy.resume(reply);
    }
    policy.request().is_none()
}

fn activate(policy: &mut ForegroundPolicy, io: &FakeIo, cgroup: &str) {
    policy.activate(&path(cgroup));
    drive(policy, io);
}

fn restore(policy: &mut ForegroundPolicy, io: &FakeIo, cgroup: &str) {
    policy.restore(&path(cgroup));
    drive(policy, io);
}

fn register(policy: &mut ForegroundPolicy, io: &FakeIo, cgroup: &str) -> bool {
    policy.register(&path(cgroup));
    drive(policy, io)
}

fn eligible(policy: &mut ForegroundPolicy, io: &FakeIo, cgroup: &str) -> bool {
    policy.eligible(&path(cgroup));
    drive(policy, io)
}

fn untrack(policy: &mut ForegroundPolicy, io: &FakeIo, cgroup: &str) {
    policy.untrack(&path(cgroup));
    drive(policy, io);
}

fn reconcile_paths(policy: &mut ForegroundPolicy, io: &FakeIo, cgroups: &[&str]) -> bool {
    policy.reconcile_paths(cgroups.iter().map(|cgroup| path(cgroup)).collect());
    drive(policy, io)
}

fn process_focus(policy: &mut ForegroundPolicy, io: &FakeIo, cgroup: &str) {
    let cgroup = path(cgroup);
    let mut paths = policy.state().focus_values.paths();
    if !policy.state().focus_values.contains(&cgroup) {
        paths.push(cgroup);
    }
    policy.reconcile_paths(paths);
    drive(policy, io);
}

fn process_events(policy: &mut ForegroundPolicy, io: &FakeIo) {
    let events = std::mem::take(&mut io.0.borrow_mut().events);
    policy.process_events(&events);
    drive(policy, io);
}

fn reconcile(policy: &mut ForegroundPolicy, io: &FakeIo) {
    policy.reconcile();
    drive(policy, io);
}

fn maintenance(policy: &mut ForegroundPolicy, io: &FakeIo) {
    policy.maintenance();
    drive(policy, io);
}

fn shutdown(policy: &mut ForegroundPolicy, io: &FakeIo) {
    policy.shutdown();
    drive(policy, io);
}

fn foreground(policy: &ForegroundPolicy) -> Option<String> {
    policy.state().foreground.as_ref().map(key)
}

fn pending_restore(policy: &ForegroundPolicy, cgroup: &str) -> bool {
    policy.state().pending_restore.contains(&path(cgroup))
}

fn pending_apply(policy: &ForegroundPolicy, cgroup: &str) -> bool {
    policy.state().pending_apply.contains(&path(cgroup))
}

fn pending_registration(policy: &ForegroundPolicy, cgroup: &str) -> bool {
    policy.state().pending_registration.contains(&path(cgroup))
}

const ROOT: &str = "/test";
const APP: &str = "/test/app.slice/app.scope";
const OTHER_SCOPE: &str = "/test/app.slice/other.scope";
const OTHER: &str = "/test/other";
const WATCHED: &str = "/test/app";

fn setup() -> (ForegroundPolicy, FakeIo) {
    let io = FakeIo::default();
    io.file(
        "/test/dmem.capacity",
        &[("0", DmemValue::Finite(100)), ("1", DmemValue::Finite(50))],
    );
    io.file(
        &low(APP),
        &[("0", DmemValue::Finite(10)), ("1", DmemValue::Max)],
    );
    io.xattr(APP, FOCUS, b"-1");
    (ForegroundPolicy::new(path(ROOT), false), io)
}

/// A policy with watches, and cgroups that have to be created.
fn watched_setup() -> (ForegroundPolicy, FakeIo) {
    let io = FakeIo::default();
    io.0.borrow_mut().directories = Some(HashSet::new());
    io.file("/test/dmem.capacity", &[("0", DmemValue::Finite(100))]);
    (ForegroundPolicy::new(path(ROOT), true), io)
}

#[test]
fn boost_is_non_decreasing_and_repeated_focus_is_idempotent() {
    let (mut policy, io) = setup();
    activate(&mut policy, &io, APP);
    activate(&mut policy, &io, APP);

    assert_eq!(io.value(&low(APP), "0"), DmemValue::Finite(100));
    assert_eq!(io.value(&low(APP), "1"), DmemValue::Max);
    assert_eq!(io.0.borrow().writes.len(), 1);
    assert!(io.has_xattr(APP, STATE));
}

#[test]
fn inactive_transition_restores_baseline() {
    let (mut policy, io) = setup();
    activate(&mut policy, &io, APP);
    io.xattr(APP, FOCUS, b"20");
    process_focus(&mut policy, &io, APP);

    assert_eq!(io.value(&low(APP), "0"), DmemValue::Finite(10));
    assert!(!io.has_xattr(APP, STATE));
    assert!(foreground(&policy).is_none());
}

#[test]
fn restoration_preserves_external_writes() {
    let (mut policy, io) = setup();
    activate(&mut policy, &io, APP);
    io.file(
        &low(APP),
        &[("0", DmemValue::Finite(75)), ("1", DmemValue::Max)],
    );
    restore(&mut policy, &io, APP);

    assert_eq!(io.value(&low(APP), "0"), DmemValue::Finite(75));
    assert!(!io.has_xattr(APP, STATE));
}

fn two_regions() -> (ForegroundPolicy, FakeIo) {
    let (policy, io) = setup();
    io.file(
        "/test/dmem.capacity",
        &[("0", DmemValue::Finite(100)), ("1", DmemValue::Finite(100))],
    );
    io.file(
        &low(APP),
        &[("0", DmemValue::Finite(10)), ("1", DmemValue::Finite(20))],
    );
    (policy, io)
}

#[test]
fn failed_apply_rolls_back_partial_writes() {
    let (mut policy, io) = two_regions();
    io.fail_writes(&[2]);
    activate(&mut policy, &io, APP);

    assert_eq!(io.value(&low(APP), "0"), DmemValue::Finite(10));
    assert_eq!(io.value(&low(APP), "1"), DmemValue::Finite(20));
    assert!(!io.has_xattr(APP, STATE));
    assert!(foreground(&policy).is_none());
}

#[test]
fn failed_rollback_retains_recovery_state() {
    let (mut policy, io) = two_regions();
    io.fail_writes(&[2, 3]);
    activate(&mut policy, &io, APP);

    assert_eq!(io.value(&low(APP), "0"), DmemValue::Finite(100));
    assert!(io.has_xattr(APP, STATE));
    assert!(foreground(&policy).is_none());
}

#[test]
fn reactivation_preserves_pending_recovery_baseline() {
    let (mut policy, io) = two_regions();
    io.fail_writes(&[2, 3]);
    activate(&mut policy, &io, APP);
    activate(&mut policy, &io, APP);

    let record = io.0.borrow().xattrs[&(APP.to_owned(), STATE.name())].clone();
    let state = parse_state(&record).unwrap();
    assert_eq!(
        state.get(&"0".to_owned()).unwrap().baseline,
        DmemValue::Finite(10)
    );
    assert_eq!(foreground(&policy).as_deref(), Some(APP));
}

#[test]
fn cleanup_failure_keeps_stale_state_without_reapplying_protection() {
    let (mut policy, io) = setup();
    activate(&mut policy, &io, APP);
    io.fail("remove_xattr", IoFailure::Other);
    restore(&mut policy, &io, APP);

    assert!(io.has_xattr(APP, STATE));
    assert_eq!(io.value(&low(APP), "0"), DmemValue::Finite(10));
}

#[test]
fn cgroup_is_watch_eligible_before_focus_xattr_exists() {
    let (mut policy, io) = setup();
    io.0.borrow_mut()
        .xattrs
        .remove(&(APP.to_owned(), FOCUS.name()));
    assert!(eligible(&mut policy, &io, APP));

    io.0.borrow_mut().unwritable.insert(low(APP));
    assert!(!eligible(&mut policy, &io, APP));

    io.0.borrow_mut().unwritable.clear();
    io.0.borrow_mut().unsupported_xattrs.insert(APP.to_owned());
    assert!(!eligible(&mut policy, &io, APP));
}

#[test]
fn reconciliation_recovers_active_and_inactive_state() {
    let (mut policy, io) = setup();
    activate(&mut policy, &io, APP);
    policy.state_mut().foreground = None;
    reconcile_paths(&mut policy, &io, &[APP]);
    assert_eq!(foreground(&policy).as_deref(), Some(APP));

    policy.state_mut().foreground = None;
    io.xattr(APP, FOCUS, b"100");
    reconcile_paths(&mut policy, &io, &[APP]);
    assert_eq!(io.value(&low(APP), "0"), DmemValue::Finite(10));
    assert!(!io.has_xattr(APP, STATE));
}

#[test]
fn active_recovery_preserves_external_writes() {
    let (mut policy, io) = setup();
    activate(&mut policy, &io, APP);
    io.file(
        &low(APP),
        &[("0", DmemValue::Finite(75)), ("1", DmemValue::Max)],
    );
    policy.state_mut().foreground = None;

    reconcile_paths(&mut policy, &io, &[APP]);

    assert_eq!(foreground(&policy).as_deref(), Some(APP));
    assert_eq!(io.value(&low(APP), "0"), DmemValue::Finite(75));
}

#[test]
fn malformed_state_is_retained() {
    let (mut policy, io) = setup();
    io.xattr(APP, STATE, b"v1\n0 nope 100\n");
    restore(&mut policy, &io, APP);
    assert!(io.has_xattr(APP, STATE));
    assert_eq!(io.value(&low(APP), "0"), DmemValue::Finite(10));
}

#[test]
fn ambiguous_active_cgroups_are_not_boosted() {
    let (mut policy, io) = setup();
    io.file(&low(OTHER_SCOPE), &[("0", DmemValue::Finite(5))]);
    io.xattr(OTHER_SCOPE, FOCUS, b"-1");
    reconcile_paths(&mut policy, &io, &[APP, OTHER_SCOPE]);

    assert!(foreground(&policy).is_none());
    assert_eq!(io.value(&low(APP), "0"), DmemValue::Finite(10));
    assert_eq!(io.value(&low(OTHER_SCOPE), "0"), DmemValue::Finite(5));
}

#[test]
fn ambiguous_recovery_waits_for_a_new_focus_transition() {
    let (mut policy, io) = setup();
    activate(&mut policy, &io, APP);
    io.file(&low(OTHER_SCOPE), &[("0", DmemValue::Finite(100))]);
    io.xattr(OTHER_SCOPE, FOCUS, b"-1");
    io.xattr(OTHER_SCOPE, STATE, b"v1\n0 5 100\n");

    reconcile_paths(&mut policy, &io, &[APP, OTHER_SCOPE]);
    process_focus(&mut policy, &io, OTHER_SCOPE);
    assert!(foreground(&policy).is_none());
    assert_eq!(io.value(&low(OTHER_SCOPE), "0"), DmemValue::Finite(5));

    let unrelated = "/test/app.slice/unrelated.scope";
    io.xattr(unrelated, FOCUS, b"1");
    process_focus(&mut policy, &io, unrelated);
    process_focus(&mut policy, &io, OTHER_SCOPE);
    assert!(foreground(&policy).is_none());

    io.xattr(APP, FOCUS, b"1");
    process_focus(&mut policy, &io, APP);
    process_focus(&mut policy, &io, OTHER_SCOPE);
    assert_eq!(foreground(&policy).as_deref(), Some(OTHER_SCOPE));
    assert_eq!(io.value(&low(OTHER_SCOPE), "0"), DmemValue::Finite(100));
}

#[test]
fn missing_capabilities_do_not_write() {
    let (mut policy, io) = setup();
    io.0.borrow_mut().files.remove("/test/dmem.capacity");
    activate(&mut policy, &io, APP);
    assert!(io.0.borrow().writes.is_empty());
    assert!(!io.has_xattr(APP, STATE));
}

#[test]
fn failed_state_persistence_prevents_writes() {
    let (mut policy, io) = setup();
    io.fail("set_xattr", IoFailure::Other);
    activate(&mut policy, &io, APP);
    assert!(io.0.borrow().writes.is_empty());
    assert_eq!(io.value(&low(APP), "0"), DmemValue::Finite(10));
}

#[test]
fn untrack_restores_a_tracked_cgroup() {
    let (mut policy, io) = setup();
    activate(&mut policy, &io, APP);
    untrack(&mut policy, &io, APP);
    assert_eq!(io.value(&low(APP), "0"), DmemValue::Finite(10));
    assert!(foreground(&policy).is_none());
}

#[test]
fn changing_application_root_retires_old_paths_and_keeps_failed_cleanup() {
    let (mut policy, io) = setup();
    process_focus(&mut policy, &io, APP);
    policy
        .state_mut()
        .pending_registration
        .insert(path("/test/app.slice/late.scope"));
    io.fail("write", IoFailure::Other);
    policy.restrict_to(&path("/test/replacement.slice"));
    drive(&mut policy, &io);
    assert!(foreground(&policy).is_none());
    assert_eq!(policy.state().focus_values.len(), 0);
    assert!(policy.state().pending_registration.is_empty());
    assert!(pending_restore(&policy, APP));
    maintenance(&mut policy, &io);
    assert_eq!(io.value(&low(APP), "0"), DmemValue::Finite(10));
    assert!(policy.state().pending_restore.is_empty());
}

#[test]
fn unchanged_focus_does_not_retry_failed_apply() {
    let (mut policy, io) = setup();
    io.fail_writes(&[1, 2]);
    process_focus(&mut policy, &io, APP);
    for _ in 0..10 {
        process_focus(&mut policy, &io, APP);
    }
    assert_eq!(io.0.borrow().write_calls, 1);
    maintenance(&mut policy, &io);
    assert_eq!(io.0.borrow().write_calls, 2);
    maintenance(&mut policy, &io);
    assert_eq!(io.0.borrow().write_calls, 3);
    assert_eq!(foreground(&policy).as_deref(), Some(APP));
}

#[test]
fn incomplete_focus_snapshot_defers_selection_without_losing_changes() {
    let (mut policy, io) = setup();
    io.xattr(APP, FOCUS, b"1");
    io.xattr(OTHER, FOCUS, b"1");
    assert!(reconcile_paths(&mut policy, &io, &[APP, OTHER]));
    io.xattr(APP, FOCUS, b"-1");
    io.0.borrow_mut().unreadable_focus.insert(OTHER.to_owned());
    assert!(!reconcile_paths(&mut policy, &io, &[APP, OTHER]));
    maintenance(&mut policy, &io);
    assert!(foreground(&policy).is_none());
    assert!(io.0.borrow().writes.is_empty());
    io.0.borrow_mut().unreadable_focus.clear();
    assert!(reconcile_paths(&mut policy, &io, &[APP, OTHER]));
    assert_eq!(foreground(&policy).as_deref(), Some(APP));
}

#[test]
fn incomplete_focus_snapshot_blocks_pending_apply_but_not_restore() {
    for unreadable_app in [true, false] {
        let (mut policy, io) = setup();
        io.xattr(OTHER, FOCUS, b"1");
        io.fail_writes(&[1]);
        reconcile_paths(&mut policy, &io, &[APP, OTHER]);
        assert!(pending_apply(&policy, APP));
        io.file(&low(OTHER), &[("0", DmemValue::Finite(100))]);
        io.xattr(OTHER, STATE, b"v1\n0 5 100\n");
        policy.state_mut().pending_restore.insert(path(OTHER));
        io.0.borrow_mut().unreadable_focus.insert(
            if unreadable_app { APP } else { OTHER }.to_owned(),
        );
        maintenance(&mut policy, &io);
        assert!(foreground(&policy).is_none());
        assert!(pending_apply(&policy, APP));
        assert_eq!(io.value(&low(APP), "0"), DmemValue::Finite(10));
        assert_eq!(io.value(&low(OTHER), "0"), DmemValue::Finite(5));
        assert!(policy.state().pending_restore.is_empty());
        io.xattr(APP, FOCUS, b"2");
        io.0.borrow_mut().unreadable_focus.clear();
        maintenance(&mut policy, &io);
        assert!(policy.state().pending_apply.is_empty());
        assert_eq!(io.value(&low(APP), "0"), DmemValue::Finite(10));
    }
}

#[test]
fn restore_errors_do_not_forget_another_foreground() {
    for operation in [
        "get_xattr",
        "read",
        "set_xattr",
        "remove_xattr",
        "malformed",
    ] {
        let (mut policy, io) = setup();
        activate(&mut policy, &io, APP);
        io.file(&low(OTHER), &[("0", DmemValue::Finite(100))]);
        io.xattr(OTHER, STATE, b"v1\n0 5 100\n1 5 100\n");
        if operation == "malformed" {
            io.xattr(OTHER, STATE, b"invalid");
        } else {
            io.fail(operation, IoFailure::Other);
        }
        restore(&mut policy, &io, OTHER);
        assert_eq!(foreground(&policy).as_deref(), Some(APP), "{operation}");
        assert!(pending_restore(&policy, OTHER), "{operation}");
        assert!(io.has_xattr(OTHER, STATE));
    }
}

#[test]
fn failed_restore_waits_for_maintenance_and_keeps_its_record() {
    let (mut policy, io) = setup();
    process_focus(&mut policy, &io, APP);
    io.fail_writes(&[2, 3]);
    io.xattr(APP, FOCUS, b"1");
    process_focus(&mut policy, &io, APP);
    for _ in 0..10 {
        process_focus(&mut policy, &io, APP);
    }
    assert_eq!(io.0.borrow().write_calls, 2);
    assert!(io.has_xattr(APP, STATE));
    maintenance(&mut policy, &io);
    assert_eq!(io.0.borrow().write_calls, 3);
    assert!(io.has_xattr(APP, STATE));
    assert_eq!(io.0.borrow().set_xattr_calls, 1);
    maintenance(&mut policy, &io);
    assert_eq!(io.0.borrow().write_calls, 4);
    assert!(!io.has_xattr(APP, STATE));
    assert!(policy.state().pending_restore.is_empty());
}

#[test]
fn shutdown_restores_pending_apply_after_failed_rollback() {
    let (mut policy, io) = setup();
    io.file(
        &low(APP),
        &[("0", DmemValue::Finite(10)), ("1", DmemValue::Finite(20))],
    );
    io.fail_writes(&[2, 3]);
    process_focus(&mut policy, &io, APP);
    assert!(foreground(&policy).is_none());
    assert!(pending_apply(&policy, APP));
    shutdown(&mut policy, &io);
    assert_eq!(io.value(&low(APP), "0"), DmemValue::Finite(10));
    assert_eq!(io.value(&low(APP), "1"), DmemValue::Finite(20));
    assert!(!io.has_xattr(APP, STATE));
}

#[test]
fn pending_untracked_restores_are_retried_and_shutdown_attempts_all_paths() {
    let (mut policy, io) = setup();
    activate(&mut policy, &io, APP);
    io.fail("write", IoFailure::Other);
    untrack(&mut policy, &io, APP);
    assert!(pending_restore(&policy, APP));
    assert!(io.has_xattr(APP, STATE));
    maintenance(&mut policy, &io);
    assert!(!pending_restore(&policy, APP));
    assert_eq!(io.value(&low(APP), "0"), DmemValue::Finite(10));

    activate(&mut policy, &io, APP);
    io.fail("write", IoFailure::Other);
    untrack(&mut policy, &io, APP);
    io.file(&low(OTHER), &[("0", DmemValue::Finite(5))]);
    activate(&mut policy, &io, OTHER);
    shutdown(&mut policy, &io);
    assert_eq!(io.value(&low(APP), "0"), DmemValue::Finite(10));
    assert_eq!(io.value(&low(OTHER), "0"), DmemValue::Finite(5));
    assert!(policy.state().pending_restore.is_empty());
}

#[test]
fn recovery_finishes_interrupted_writes_and_preserves_external_values() {
    let (mut policy, io) = setup();
    io.file(
        &low(APP),
        &[
            ("0", DmemValue::Finite(100)),
            ("1", DmemValue::Finite(20)),
            ("2", DmemValue::Finite(75)),
        ],
    );
    io.xattr(APP, STATE, b"v1\n0 10 100\n1 20 100\n2 30 100\n");
    io.fail_writes(&[1]);
    process_focus(&mut policy, &io, APP);
    assert!(foreground(&policy).is_none());
    process_focus(&mut policy, &io, APP);
    assert_eq!(io.0.borrow().write_calls, 1);
    maintenance(&mut policy, &io);
    assert_eq!(io.value(&low(APP), "1"), DmemValue::Finite(100));
    assert_eq!(io.value(&low(APP), "2"), DmemValue::Finite(75));
    shutdown(&mut policy, &io);
    assert_eq!(io.value(&low(APP), "0"), DmemValue::Finite(10));
    assert_eq!(io.value(&low(APP), "1"), DmemValue::Finite(20));
    assert_eq!(io.value(&low(APP), "2"), DmemValue::Finite(75));
}

#[test]
fn registration_waits_for_external_setup_and_retries_only_on_maintenance() {
    let io = FakeIo::default();
    let mut policy = ForegroundPolicy::new(path(ROOT), true);
    io.create(WATCHED);

    assert!(!register(&mut policy, &io, WATCHED));
    io.file(&low(WATCHED), &[("0", DmemValue::Finite(10))]);
    for _ in 0..3 {
        assert!(!register(&mut policy, &io, WATCHED));
        process_events(&mut policy, &io);
    }
    assert!(pending_registration(&policy, WATCHED));
    assert_eq!(policy.state().paths.len(), 0);

    maintenance(&mut policy, &io);
    assert!(policy.state().pending_registration.is_empty());
    assert_eq!(policy.state().paths.len(), 1);
    assert_eq!(policy.state().watches.len(), 1);
    assert!(foreground(&policy).is_none());
    assert!(io.0.borrow().writes.is_empty());
    assert!(register(&mut policy, &io, WATCHED));
    maintenance(&mut policy, &io);

    untrack(&mut policy, &io, WATCHED);
    io.remove_directory(WATCHED);
    assert!(!register(&mut policy, &io, WATCHED));
    assert!(pending_registration(&policy, WATCHED));
    io.create(WATCHED);
    maintenance(&mut policy, &io);
    assert_eq!(policy.state().paths.len(), 1);
    assert!(policy.state().pending_registration.is_empty());

    untrack(&mut policy, &io, WATCHED);
    io.0.borrow_mut().unwritable.insert(low(WATCHED));
    assert!(!register(&mut policy, &io, WATCHED));
    untrack(&mut policy, &io, WATCHED);
    maintenance(&mut policy, &io);
    assert!(policy.state().pending_registration.is_empty());
}

#[test]
fn registration_retry_drops_deleted_unwatched_cgroup() {
    let (mut policy, io) = watched_setup();
    io.create(WATCHED);
    assert!(!register(&mut policy, &io, WATCHED));
    assert!(pending_registration(&policy, WATCHED));

    io.remove(WATCHED);
    maintenance(&mut policy, &io);
    assert!(policy.state().pending_registration.is_empty());

    io.create(WATCHED);
    io.file(&low(WATCHED), &[("0", DmemValue::Finite(10))]);
    assert!(register(&mut policy, &io, WATCHED));
    assert!(policy.state().paths.contains(&path(WATCHED)));
}

#[test]
fn real_inotify_registration_retries_late_dmem_low() {
    let (mut policy, io) = watched_setup();
    io.create(WATCHED);
    io.xattr(WATCHED, FOCUS, b"-1");
    assert!(!register(&mut policy, &io, WATCHED));
    for _ in 0..2 {
        process_events(&mut policy, &io);
        maintenance(&mut policy, &io);
        assert!(!policy.state().paths.contains(&path(WATCHED)));
        assert!(foreground(&policy).is_none());
    }
    io.file(&low(WATCHED), &[("0", DmemValue::Finite(10))]);
    for _ in 0..2 {
        process_events(&mut policy, &io);
        maintenance(&mut policy, &io);
        assert_eq!(policy.state().paths.len(), 1);
        assert_eq!(foreground(&policy).as_deref(), Some(WATCHED));
        assert_eq!(io.value(&low(WATCHED), "0"), DmemValue::Finite(100));
    }
    io.xattr(WATCHED, FOCUS, b"1");
    process_events(&mut policy, &io);
    assert!(foreground(&policy).is_none());
    assert_eq!(io.value(&low(WATCHED), "0"), DmemValue::Finite(10));
}

#[test]
fn full_reconcile_revalidates_replaced_foreground_at_same_path() {
    let (mut policy, io) = watched_setup();
    io.create(WATCHED);
    io.file(&low(WATCHED), &[("0", DmemValue::Finite(10))]);
    io.xattr(WATCHED, FOCUS, b"-1");
    register(&mut policy, &io, WATCHED);
    process_events(&mut policy, &io);
    assert_eq!(foreground(&policy).as_deref(), Some(WATCHED));

    io.remove(WATCHED);
    io.create(WATCHED);
    io.file(&low(WATCHED), &[("0", DmemValue::Finite(20))]);
    io.xattr(WATCHED, FOCUS, b"-1");
    // Overflow recovery replaces the watches without processing DELETE_SELF first.
    policy.rebuild_watches();
    drive(&mut policy, &io);
    reconcile(&mut policy, &io);
    assert!(foreground(&policy).is_none());
    assert!(pending_apply(&policy, WATCHED));
    maintenance(&mut policy, &io);
    assert_eq!(foreground(&policy).as_deref(), Some(WATCHED));
    assert_eq!(io.value(&low(WATCHED), "0"), DmemValue::Finite(100));
    shutdown(&mut policy, &io);
    assert_eq!(io.value(&low(WATCHED), "0"), DmemValue::Finite(20));
}

#[test]
fn full_reconcile_keeps_cleanup_when_foreground_watch_is_lost() {
    let (mut policy, io) = setup();
    activate(&mut policy, &io, APP);
    reconcile(&mut policy, &io);
    assert!(foreground(&policy).is_none());
    assert!(pending_restore(&policy, APP));
    shutdown(&mut policy, &io);
    assert_eq!(io.value(&low(APP), "0"), DmemValue::Finite(10));
    assert!(!io.has_xattr(APP, STATE));
}

#[test]
fn full_reconcile_keeps_cleanup_when_focus_read_fails() {
    let io = FakeIo::default();
    io.create(WATCHED);
    io.file("/test/dmem.capacity", &[("0", DmemValue::Finite(100))]);
    io.file(&low(WATCHED), &[("0", DmemValue::Finite(10))]);
    io.xattr(WATCHED, FOCUS, b"-1");
    let mut policy = ForegroundPolicy::new(path(ROOT), true);
    register(&mut policy, &io, WATCHED);
    process_events(&mut policy, &io);
    assert_eq!(foreground(&policy).as_deref(), Some(WATCHED));
    io.0.borrow_mut().unreadable_focus.insert(WATCHED.to_owned());
    reconcile(&mut policy, &io);
    maintenance(&mut policy, &io);
    assert!(foreground(&policy).is_none());
    assert!(pending_apply(&policy, WATCHED));
    assert_eq!(io.0.borrow().write_calls, 1);
    shutdown(&mut policy, &io);
    assert_eq!(io.value(&low(WATCHED), "0"), DmemValue::Finite(10));
    assert!(!io.has_xattr(WATCHED, STATE));
}

#[test]
fn real_inotify_deleted_cgroup_drops_pending_restore_and_can_be_retracked() {
    let (mut policy, io) = watched_setup();
    io.create(WATCHED);
    io.file(&low(WATCHED), &[("0", DmemValue::Finite(10))]);
    io.xattr(WATCHED, FOCUS, b"-1");
    register(&mut policy, &io, WATCHED);
    maintenance(&mut policy, &io);
    assert_eq!(foreground(&policy).as_deref(), Some(WATCHED));
    io.0.borrow_mut().files.remove(&low(WATCHED));
    restore(&mut policy, &io, WATCHED);
    assert!(pending_restore(&policy, WATCHED));
    io.remove(WATCHED);
    process_events(&mut policy, &io);
    assert_eq!(policy.state().paths.len(), 0);
    assert_eq!(policy.state().watches.len(), 0);
    assert_eq!(policy.state().focus_values.len(), 0);
    assert!(policy.state().pending_restore.is_empty());
    assert!(policy.state().pending_apply.is_empty());
    maintenance(&mut policy, &io);
    assert!(policy.state().pending_restore.is_empty());

    io.create(WATCHED);
    io.file(&low(WATCHED), &[("0", DmemValue::Finite(20))]);
    io.xattr(WATCHED, FOCUS, b"-1");
    process_events(&mut policy, &io);
    register(&mut policy, &io, WATCHED);
    maintenance(&mut policy, &io);
    assert_eq!(foreground(&policy).as_deref(), Some(WATCHED));
    assert_eq!(io.value(&low(WATCHED), "0"), DmemValue::Finite(100));
    io.xattr(WATCHED, FOCUS, b"1");
    process_events(&mut policy, &io);
    assert!(foreground(&policy).is_none());
    assert_eq!(io.value(&low(WATCHED), "0"), DmemValue::Finite(20));
    assert!(!io.has_xattr(WATCHED, STATE));
}

#[test]
fn untracking_ambiguous_peer_applies_remaining_active_on_maintenance() {
    let (mut policy, io) = setup();
    io.file(&low(OTHER), &[("0", DmemValue::Finite(5))]);
    io.xattr(OTHER, FOCUS, b"-1");
    reconcile_paths(&mut policy, &io, &[APP, OTHER]);
    untrack(&mut policy, &io, OTHER);
    assert!(!policy.state().focus_values.contains(&path(OTHER)));
    maintenance(&mut policy, &io);
    assert!(foreground(&policy).is_none());
    assert!(pending_apply(&policy, APP));
    maintenance(&mut policy, &io);
    assert_eq!(foreground(&policy).as_deref(), Some(APP));
    assert_eq!(io.value(&low(APP), "0"), DmemValue::Finite(100));
}

#[test]
fn real_inotify_self_attrib_and_multiple_active_paths_settle() {
    let (mut policy, io) = watched_setup();
    let apps = ["/test/app0", "/test/app1", "/test/app2"];
    for app in apps {
        io.create(app);
        io.file(&low(app), &[("0", DmemValue::Finite(10))]);
        io.xattr(app, FOCUS, b"-1");
    }
    register(&mut policy, &io, apps[0]);
    process_events(&mut policy, &io);
    assert_eq!(foreground(&policy).as_deref(), Some(apps[0]));
    process_events(&mut policy, &io);
    assert_eq!(foreground(&policy).as_deref(), Some(apps[0]));
    // One active path has recovery state; the newly discovered ones do not.
    register(&mut policy, &io, apps[1]);
    register(&mut policy, &io, apps[2]);
    for _ in 0..5 {
        process_events(&mut policy, &io);
    }
    assert!(foreground(&policy).is_none());
    assert_eq!(policy.state().ambiguous_active.len(), 3);
    io.xattr(apps[0], FOCUS, b"1");
    process_events(&mut policy, &io);
    assert!(foreground(&policy).is_none());
    assert_eq!(policy.state().ambiguous_active.len(), 2);
    io.xattr(apps[1], FOCUS, b"1");
    process_events(&mut policy, &io);
    assert_eq!(foreground(&policy).as_deref(), Some(apps[2]));
    process_events(&mut policy, &io);
    assert!(io.0.borrow().events.is_empty());
    shutdown(&mut policy, &io);
    for app in apps {
        assert_eq!(io.value(&low(app), "0"), DmemValue::Finite(10));
        assert!(!io.has_xattr(app, STATE));
    }
}

#[test]
fn a_crash_at_any_moment_leaves_the_originals_recoverable() {
    let mut steps = 0;
    loop {
        let (mut policy, io) = two_regions();
        policy.activate(&path(APP));
        let ended = drive_some(&mut policy, &io, steps);
        drop(policy);
        let mut successor = ForegroundPolicy::new(path(ROOT), false);
        restore(&mut successor, &io, APP);
        assert_eq!(io.value(&low(APP), "0"), DmemValue::Finite(10));
        assert_eq!(io.value(&low(APP), "1"), DmemValue::Finite(20));
        assert!(!io.has_xattr(APP, STATE));
        assert!(successor.state().pending_restore.is_empty());
        if ended {
            break;
        }
        steps += 1;
    }
    assert!(steps > 4);
}

#[test]
fn a_crash_while_restoring_leaves_the_originals_recoverable() {
    let mut steps = 0;
    loop {
        let (mut policy, io) = two_regions();
        activate(&mut policy, &io, APP);
        policy.restore(&path(APP));
        let ended = drive_some(&mut policy, &io, steps);
        drop(policy);
        let mut successor = ForegroundPolicy::new(path(ROOT), false);
        restore(&mut successor, &io, APP);
        assert_eq!(io.value(&low(APP), "0"), DmemValue::Finite(10));
        assert_eq!(io.value(&low(APP), "1"), DmemValue::Finite(20));
        assert!(!io.has_xattr(APP, STATE));
        if ended {
            break;
        }
        steps += 1;
    }
}

#[test]
fn the_record_is_stored_before_the_first_write() {
    let (mut policy, io) = two_regions();
    policy.activate(&path(APP));
    while let Some(request) = policy.request() {
        if matches!(request, Request::WriteDmem { .. }) {
            assert!(io.has_xattr(APP, STATE));
        }
        let reply = io.0.borrow_mut().answer(request);
        policy.resume(reply);
    }
    assert_eq!(
        io.0.borrow().xattrs[&(APP.to_owned(), STATE.name())],
        b"v1\n0 10 100\n1 20 100\n"
    );
}

#[test]
fn a_partial_restoration_keeps_the_record_of_the_rest() {
    let (mut policy, io) = two_regions();
    activate(&mut policy, &io, APP);
    io.fail_writes(&[4]);
    restore(&mut policy, &io, APP);
    assert_eq!(io.value(&low(APP), "0"), DmemValue::Finite(10));
    assert_eq!(io.value(&low(APP), "1"), DmemValue::Finite(100));
    assert_eq!(
        io.0.borrow().xattrs[&(APP.to_owned(), STATE.name())],
        b"v1\n1 20 100\n"
    );
    assert!(pending_restore(&policy, APP));
    maintenance(&mut policy, &io);
    assert_eq!(io.value(&low(APP), "1"), DmemValue::Finite(20));
    assert!(!io.has_xattr(APP, STATE));
    assert!(policy.state().pending_restore.is_empty());
}

#[test]
fn the_boost_follows_the_focus() {
    let (mut policy, io) = setup();
    io.file(&low(OTHER), &[("0", DmemValue::Finite(5))]);
    io.xattr(OTHER, FOCUS, b"7");
    assert!(reconcile_paths(&mut policy, &io, &[APP, OTHER]));
    assert_eq!(foreground(&policy).as_deref(), Some(APP));
    assert_eq!(io.value(&low(APP), "0"), DmemValue::Finite(100));
    assert_eq!(io.value(&low(OTHER), "0"), DmemValue::Finite(5));

    io.xattr(APP, FOCUS, b"8");
    io.xattr(OTHER, FOCUS, b"-1");
    assert!(reconcile_paths(&mut policy, &io, &[APP, OTHER]));
    assert_eq!(foreground(&policy).as_deref(), Some(OTHER));
    assert_eq!(io.value(&low(APP), "0"), DmemValue::Finite(10));
    assert_eq!(io.value(&low(OTHER), "0"), DmemValue::Finite(100));
    assert!(!io.has_xattr(APP, STATE));

    let asked = io.0.borrow().requests;
    assert!(reconcile_paths(&mut policy, &io, &[APP, OTHER]));
    assert_eq!(io.0.borrow().requests, asked + 2);
}

#[test]
fn a_missing_or_unreadable_focus_boosts_nothing() {
    for focus in [&b""[..], b"x", b"-2", b"\xff"] {
        let (mut policy, io) = setup();
        io.xattr(APP, FOCUS, focus);
        assert!(reconcile_paths(&mut policy, &io, &[APP]));
        assert!(foreground(&policy).is_none());
        assert!(io.0.borrow().writes.is_empty());
    }
    let (mut policy, io) = setup();
    io.0.borrow_mut().xattrs.clear();
    assert!(reconcile_paths(&mut policy, &io, &[APP]));
    assert!(foreground(&policy).is_none());
    assert!(io.0.borrow().writes.is_empty());
}

#[test]
fn an_overflow_makes_the_watches_anew() {
    let (mut policy, io) = watched_setup();
    io.create(WATCHED);
    io.file(&low(WATCHED), &[("0", DmemValue::Finite(10))]);
    io.xattr(WATCHED, FOCUS, b"-1");
    assert!(register(&mut policy, &io, WATCHED));
    io.0.borrow_mut().events.push(WatchEvent {
        watch: -1,
        mask: Q_OVERFLOW,
    });
    process_events(&mut policy, &io);
    assert_eq!(policy.state().paths.len(), 1);
    assert_eq!(policy.state().watches.len(), 1);
    assert!(policy.state().watches.get(2).is_some());
    assert_eq!(foreground(&policy).as_deref(), Some(WATCHED));

    io.0.borrow_mut().no_watches = true;
    io.0.borrow_mut().events.push(WatchEvent {
        watch: -1,
        mask: Q_OVERFLOW,
    });
    process_events(&mut policy, &io);
    assert!(!policy.state().watching);
    assert_eq!(policy.state().paths.len(), 0);
    assert_eq!(policy.state().watches.len(), 0);
    assert!(foreground(&policy).is_none());
    assert!(pending_restore(&policy, WATCHED));
    maintenance(&mut policy, &io);
    assert_eq!(io.value(&low(WATCHED), "0"), DmemValue::Finite(10));
}

#[test]
fn other_events_are_ignored() {
    let (mut policy, io) = watched_setup();
    io.create(WATCHED);
    io.file(&low(WATCHED), &[("0", DmemValue::Finite(10))]);
    io.xattr(WATCHED, FOCUS, b"-1");
    assert!(register(&mut policy, &io, WATCHED));
    process_events(&mut policy, &io);
    io.0.borrow_mut().events.clear();
    io.xattr(WATCHED, FOCUS, b"1");
    io.0.borrow_mut().events = vec![
        // Another watch, and another kind of event.
        WatchEvent {
            watch: 99,
            mask: ATTRIB,
        },
        WatchEvent {
            watch: 1,
            mask: 0x2,
        },
    ];
    process_events(&mut policy, &io);
    assert_eq!(foreground(&policy).as_deref(), Some(WATCHED));
    io.0.borrow_mut().events = vec![WatchEvent {
        watch: 1,
        mask: ATTRIB | 0x4000_0000,
    }];
    process_events(&mut policy, &io);
    assert!(foreground(&policy).is_none());
}

#[test]
fn maintenance_puts_everything_back() {
    let (mut policy, io) = setup();
    for cgroup in [OTHER, OTHER_SCOPE] {
        io.file(&low(cgroup), &[("0", DmemValue::Finite(100))]);
        io.xattr(cgroup, STATE, b"v1\n0 5 100\n");
        policy.state_mut().pending_restore.insert(path(cgroup));
    }
    maintenance(&mut policy, &io);
    assert!(policy.state().pending_restore.is_empty());
    assert_eq!(io.value(&low(OTHER), "0"), DmemValue::Finite(5));
    assert_eq!(io.value(&low(OTHER_SCOPE), "0"), DmemValue::Finite(5));
}

#[test]
fn maintenance_leaves_an_unreadable_record_outstanding() {
    let (mut policy, io) = setup();
    for (cgroup, record) in [(OTHER, "v1\n0 5 100\n"), (OTHER_SCOPE, "v2\n")] {
        io.file(&low(cgroup), &[("0", DmemValue::Finite(100))]);
        io.xattr(cgroup, STATE, record.as_bytes());
        policy.state_mut().pending_restore.insert(path(cgroup));
    }
    maintenance(&mut policy, &io);
    assert!(!pending_restore(&policy, OTHER));
    assert!(pending_restore(&policy, OTHER_SCOPE));
    assert_eq!(io.value(&low(OTHER), "0"), DmemValue::Finite(5));
    assert_eq!(io.value(&low(OTHER_SCOPE), "0"), DmemValue::Finite(100));
    assert!(io.has_xattr(OTHER_SCOPE, STATE));
}

#[test]
fn of_several_outstanding_boosts_the_last_stays() {
    let (mut policy, io) = setup();
    for cgroup in [OTHER, OTHER_SCOPE] {
        io.file(&low(cgroup), &[("0", DmemValue::Finite(5))]);
    }
    io.xattr(OTHER, STATE, b"v1\n0 4 5\n");
    policy.state_mut().pending_restore.insert(path(OTHER));
    policy.state_mut().pending_apply.insert(path(OTHER_SCOPE));
    policy.state_mut().pending_apply.insert(path(APP));
    maintenance(&mut policy, &io);
    assert_eq!(foreground(&policy).as_deref(), Some(APP));
    assert_eq!(io.value(&low(APP), "0"), DmemValue::Finite(100));
    assert_eq!(io.value(&low(OTHER_SCOPE), "0"), DmemValue::Finite(5));
    assert_eq!(io.value(&low(OTHER), "0"), DmemValue::Finite(4));
    assert!(policy.state().pending_apply.is_empty());
    assert!(policy.state().pending_restore.is_empty());
}

#[test]
fn a_boost_that_is_not_wanted_any_more_is_not_tried() {
    let (mut policy, io) = setup();
    io.file(&low(OTHER_SCOPE), &[("0", DmemValue::Finite(5))]);
    io.xattr(APP, FOCUS, b"1");
    io.xattr(OTHER_SCOPE, FOCUS, b"2");
    reconcile_paths(&mut policy, &io, &[APP, OTHER_SCOPE]);
    io.xattr(APP, FOCUS, b"-1");
    policy.state_mut().pending_apply.insert(path(APP));
    policy.state_mut().pending_apply.insert(path(OTHER_SCOPE));
    maintenance(&mut policy, &io);
    assert_eq!(foreground(&policy).as_deref(), Some(APP));
    assert_eq!(io.value(&low(APP), "0"), DmemValue::Finite(100));
    assert_eq!(io.value(&low(OTHER_SCOPE), "0"), DmemValue::Finite(5));
    assert_eq!(io.0.borrow().writes.len(), 1);
    assert!(policy.state().pending_apply.is_empty());
}

#[test]
fn maintenance_without_a_clear_focus_boosts_nothing() {
    for claims in [0, 2] {
        let (mut policy, io) = setup();
        io.file(&low(OTHER), &[("0", DmemValue::Finite(5))]);
        io.xattr(OTHER, FOCUS, b"3");
        reconcile_paths(&mut policy, &io, &[APP, OTHER]);
        assert_eq!(foreground(&policy).as_deref(), Some(APP));
        io.xattr(APP, FOCUS, if claims == 2 { b"-1" } else { b"10" });
        io.xattr(OTHER, FOCUS, if claims == 2 { b"-1" } else { b"11" });
        policy.state_mut().pending_apply.insert(path(OTHER));
        maintenance(&mut policy, &io);
        assert!(foreground(&policy).is_none());
        assert!(policy.state().pending_apply.is_empty());
        assert_eq!(io.value(&low(APP), "0"), DmemValue::Finite(10));
        assert_eq!(io.value(&low(OTHER), "0"), DmemValue::Finite(5));
        assert_eq!(policy.state().ambiguous_active.len(), claims);
    }
}

#[test]
fn a_run_with_failures_and_a_shutdown_leave_nothing_behind() {
    let all = [APP, OTHER, OTHER_SCOPE];
    for failing in 0..8 {
        let (mut policy, io) = setup();
        for cgroup in [OTHER, OTHER_SCOPE] {
            io.file(&low(cgroup), &[("0", DmemValue::Finite(5))]);
        }
        io.fail_writes(&[failing, failing + 1, failing + 3]);
        for focused in [APP, OTHER, OTHER_SCOPE, APP, OTHER] {
            for cgroup in all {
                io.xattr(cgroup, FOCUS, if cgroup == focused { b"-1" } else { b"1" });
            }
            reconcile_paths(&mut policy, &io, &all);
            if focused == OTHER {
                maintenance(&mut policy, &io);
            }
            if focused == OTHER_SCOPE {
                untrack(&mut policy, &io, OTHER_SCOPE);
            }
            for cgroup in all {
                assert!(
                    !io.has_xattr(cgroup, STATE)
                        || foreground(&policy).as_deref() == Some(cgroup)
                        || pending_apply(&policy, cgroup)
                        || pending_restore(&policy, cgroup)
                );
            }
        }
        io.fail_writes(&[]);
        shutdown(&mut policy, &io);
        assert!(foreground(&policy).is_none());
        assert!(policy.state().pending_apply.is_empty());
        assert!(policy.state().pending_restore.is_empty());
        for cgroup in all {
            assert!(!io.has_xattr(cgroup, STATE));
        }
        assert_eq!(io.value(&low(APP), "0"), DmemValue::Finite(10));
        assert_eq!(io.value(&low(OTHER), "0"), DmemValue::Finite(5));
        assert_eq!(io.value(&low(OTHER_SCOPE), "0"), DmemValue::Finite(5));
    }
}

#[test]
fn an_application_may_exit_while_it_is_boosted() {
    let all = [APP, OTHER, OTHER_SCOPE];
    let (mut policy, io) = setup();
    for cgroup in [OTHER, OTHER_SCOPE] {
        io.file(&low(cgroup), &[("0", DmemValue::Finite(5))]);
        io.xattr(cgroup, FOCUS, b"1");
    }
    reconcile_paths(&mut policy, &io, &all);
    assert!(io.has_xattr(APP, STATE));
    io.remove(APP);
    io.xattr(OTHER, FOCUS, b"-1");
    reconcile_paths(&mut policy, &io, &all);
    assert_eq!(foreground(&policy).as_deref(), Some(OTHER));
    assert_eq!(io.value(&low(OTHER), "0"), DmemValue::Finite(100));
    shutdown(&mut policy, &io);
    assert!(policy.state().pending_restore.is_empty());
    for cgroup in all {
        assert!(!io.has_xattr(cgroup, STATE));
    }
    assert_eq!(io.value(&low(OTHER), "0"), DmemValue::Finite(5));
    assert_eq!(io.value(&low(OTHER_SCOPE), "0"), DmemValue::Finite(5));
}

#[test]
fn rivals_are_the_claimants_whatever_else_is_remembered() {
    let (mut policy, io) = setup();
    for cgroup in [OTHER, OTHER_SCOPE] {
        io.file(&low(cgroup), &[("0", DmemValue::Finite(5))]);
        io.xattr(cgroup, FOCUS, b"-1");
    }
    policy.state_mut().foreground = Some(path(APP));
    policy.state_mut().pending_restore.insert(path(APP));
    policy.state_mut().pending_apply.insert(path(APP));
    reconcile_paths(&mut policy, &io, &[APP, OTHER, OTHER_SCOPE]);
    for cgroup in [APP, OTHER, OTHER_SCOPE] {
        assert!(policy.state().ambiguous_active.contains(&path(cgroup)));
    }
    untrack(&mut policy, &io, OTHER);
    assert_eq!(policy.state().ambiguous_active.len(), 2);
    untrack(&mut policy, &io, OTHER_SCOPE);
    assert!(policy.state().ambiguous_active.is_empty());
}

#[test]
fn a_restriction_keeps_applications_beneath_the_root() {
    let (mut policy, io) = setup();
    io.xattr(OTHER, FOCUS, b"3");
    reconcile_paths(&mut policy, &io, &[APP, OTHER]);
    policy.restrict_to(&path("/test/app.slice"));
    drive(&mut policy, &io);
    assert_eq!(foreground(&policy).as_deref(), Some(APP));
    assert!(policy.state().focus_values.contains(&path(APP)));
    assert!(!policy.state().focus_values.contains(&path(OTHER)));
}

#[test]
fn without_an_operation_there_is_nothing_to_ask_or_answer() {
    let (mut policy, _) = setup();
    assert!(policy.request().is_none());
    assert_eq!(policy.result(), Some(true));
    policy.resume(Reply::Done(Err(IoFailure::Other)));
    assert_eq!(policy.result(), Some(true));
    policy.restore(&path(APP));
    assert_eq!(policy.result(), None);
    match policy.request() {
        Some(Request::GetXattr { path, name }) => {
            assert_eq!(key(&path), APP);
            assert_eq!(name, STATE);
        }
        _ => panic!("not what was expected"),
    }
}

/// What holds of everything that a policy remembers.
fn assert_consistent(policy: &ForegroundPolicy) {
    let state = policy.state();
    if let Some(path) = &state.foreground {
        assert!(!state.pending_apply.contains(path));
        assert!(!state.pending_restore.contains(path));
    }
    assert_ne!(state.ambiguous_active.len(), 1);
    for i in 0..state.pending_registration.len() {
        assert!(!state.paths.contains(state.pending_registration.at(i)));
    }
    for i in 0..state.paths.len() {
        let watched = state.watches.get(*state.paths.value(i)).unwrap();
        assert!(watched.same(state.paths.key(i)));
    }
}

#[test]
fn any_course_of_events_stays_consistent_and_loses_nothing() {
    for seed in 0..60u64 {
        let mut random = seed.wrapping_mul(0x9e37_79b9_7f4a_7c15) | 1;
        let mut pick = |bound: u64| {
            random = random
                .wrapping_mul(6364136223846793005)
                .wrapping_add(1442695040888963407);
            (random >> 33) % bound
        };
        let (mut policy, io) = watched_setup();
        let apps = ["/test/a.scope", "/test/b.scope", "/test/c.service"];
        for (index, app) in apps.iter().enumerate() {
            io.create(app);
            io.file(
                &low(app),
                &[
                    ("0", DmemValue::Finite(10 + index as u64)),
                    ("1", DmemValue::Finite(200)),
                ],
            );
            io.xattr(app, FOCUS, b"1");
        }
        for _ in 0..60 {
            let app = apps[pick(3) as usize];
            if pick(3) == 0 {
                let operation = ["read", "write", "get_xattr", "set_xattr", "remove_xattr"]
                    [pick(5) as usize];
                io.fail(operation, IoFailure::Other);
            }
            match pick(9) {
                0 => {
                    register(&mut policy, &io, app);
                }
                1 => untrack(&mut policy, &io, app),
                2 => reconcile(&mut policy, &io),
                3 => maintenance(&mut policy, &io),
                4 => shutdown(&mut policy, &io),
                5 => {
                    io.0.borrow_mut().events.push(WatchEvent {
                        watch: -1,
                        mask: Q_OVERFLOW,
                    });
                    process_events(&mut policy, &io);
                }
                6 => {
                    // The service ends in the middle and starts anew.
                    policy.maintenance();
                    drive_some(&mut policy, &io, pick(12) as usize);
                    policy = ForegroundPolicy::new(path(ROOT), true);
                    io.0.borrow_mut().watches.clear();
                    io.0.borrow_mut().events.clear();
                }
                _ => {
                    let focus: &[u8] = if pick(2) == 0 { b"-1" } else { b"5" };
                    io.xattr(app, FOCUS, focus);
                    process_events(&mut policy, &io);
                }
            }
            assert_consistent(&policy);
        }
        io.0.borrow_mut().failures.clear();
        let mut successor = ForegroundPolicy::new(path(ROOT), true);
        for (index, app) in apps.iter().enumerate() {
            restore(&mut successor, &io, app);
            assert_eq!(
                io.value(&low(app), "0"),
                DmemValue::Finite(10 + index as u64)
            );
            assert_eq!(io.value(&low(app), "1"), DmemValue::Finite(200));
            assert!(!io.has_xattr(app, STATE));
        }
    }
}

use gnome_foreground_booster::cgroup::{
    dmem_assignment, parse_dmem_values, valid_region, DmemValue, DmemValues,
};
use gnome_foreground_booster::diagnostics::{inotify_error, Diagnostics, EMFILE, ENFILE, QUIET};
use gnome_foreground_booster::discovery::Discovery;
use gnome_foreground_booster::focus::focus_is_active;
use gnome_foreground_booster::path::{is_application_cgroup, CgroupPath};
use gnome_foreground_booster::recovery::{parse_state, serialize_state};
use gnome_foreground_booster::request::Xattr;
use gnome_foreground_booster::session::{Report, Session, Step, INTERVAL};
use gnome_foreground_booster::units::{
    cgroup_interface, control_group_path, UnitAction, UnitEvent, UnitQuery, Units, RETRIES,
};
use gnome_foreground_booster::watch::{ATTRIB, DELETE_SELF, IGNORED, Q_OVERFLOW, REMOVED};
use inotify::EventMask;

fn value(values: &DmemValues, region: &str) -> DmemValue {
    values.get(&region.to_owned()).unwrap()
}

fn text(path: &CgroupPath) -> String {
    let parts: Vec<&str> = path
        .components()
        .iter()
        .map(|part| std::str::from_utf8(part).unwrap())
        .collect();
    parts.join("/")
}

#[test]
fn parses_regions_without_conflating_max_and_u64_max() {
    let values =
        parse_dmem_values(&format!("0\t42\n0000:03:00.0/1 max\n2 {}\n", u64::MAX)).unwrap();
    assert_eq!(value(&values, "0"), DmemValue::Finite(42));
    assert_eq!(value(&values, "0000:03:00.0/1"), DmemValue::Max);
    assert_eq!(value(&values, "2"), DmemValue::Finite(u64::MAX));
    assert!(value(&values, "2") < value(&values, "0000:03:00.0/1"));
    assert!(parse_dmem_values("").unwrap().is_empty());
}

#[test]
fn rejects_malformed_dmem_values() {
    for input in [
        "\n",
        "0",
        "0 1 extra",
        "0 1\n0 max",
        "0 -1",
        "0 18446744073709551616",
        "0 nope",
        "bad\u{a0}region 1",
    ] {
        assert!(parse_dmem_values(input).is_err(), "{input:?}");
    }
}

#[test]
fn malformed_dmem_values_are_named() {
    for (input, error) in [
        ("\n", "missing dmem region"),
        ("0", "missing dmem value"),
        ("0 1 extra", "invalid dmem line"),
        ("bad\u{a0}region 1", "invalid dmem line"),
        ("0 nope", "invalid dmem value"),
        ("0 1\n0 max", "duplicate dmem region"),
    ] {
        assert_eq!(parse_dmem_values(input).err(), Some(error));
    }
}

#[test]
fn dmem_lines_may_end_with_a_return_and_hold_any_blanks() {
    let values = parse_dmem_values("  a \t +7 \r\nb\x0cmax").unwrap();
    assert_eq!(value(&values, "a"), DmemValue::Finite(7));
    assert_eq!(value(&values, "b"), DmemValue::Max);
    assert_eq!(values.len(), 2);
    assert!(parse_dmem_values("a 1\n\n").is_err());
}

#[test]
fn limits_are_written_as_they_are_read() {
    for limit in [
        DmemValue::Finite(0),
        DmemValue::Finite(1234567890),
        DmemValue::Finite(u64::MAX),
        DmemValue::Max,
    ] {
        assert_eq!(DmemValue::parse(&limit.text()), Ok(limit));
        let line = dmem_assignment("drm/card0", limit);
        assert_eq!(value(&parse_dmem_values(&line).unwrap(), "drm/card0"), limit);
    }
    assert_eq!(DmemValue::Finite(u64::MAX).text(), "18446744073709551615");
    assert_eq!(dmem_assignment("0", DmemValue::Max), "0 max");
    assert_eq!(DmemValue::parse("MAX"), Err("invalid dmem value"));
    assert_eq!(DmemValue::parse(""), Err("invalid dmem value"));
    assert_eq!(DmemValue::parse("+"), Err("invalid dmem value"));
    assert_eq!(DmemValue::parse("007"), Ok(DmemValue::Finite(7)));
}

#[test]
fn regions_have_no_white_space() {
    assert!(valid_region("drm/0000:03:00.0/vram0"));
    for region in ["", " ", "a b", "a\u{85}", "\u{2003}", "\u{3000}x", "a\u{b}"] {
        assert!(!valid_region(region), "{region:?}");
    }
    assert!(valid_region("\u{200b}"));
}

#[test]
fn parses_versioned_state() {
    let state = parse_state(b"v1\n0 4 42\n1 max max\n").unwrap();
    assert_eq!(
        state.get(&"0".to_owned()).unwrap().baseline,
        DmemValue::Finite(4)
    );
    assert!(parse_state(b"v1\n0  4 42\n").is_err());
    assert!(parse_state(b"v2\n0 4 42\n").is_err());
    assert!(parse_state(b"v1\n").is_err());
}

#[test]
fn malformed_records_are_named() {
    for (input, error) in [
        (&b"\xff"[..], "state is not UTF-8"),
        (b"", "unsupported state version"),
        (b"v1 \n0 1 2\n", "unsupported state version"),
        (b"v1\n\n", "invalid whitespace in state"),
        (b"v1\n0\t1 2\n", "invalid whitespace in state"),
        (b"v1\n 0 1 2\n", "invalid whitespace in state"),
        (b"v1\n0 1 2 \n", "invalid whitespace in state"),
        (b"v1\n0 1\n", "invalid state line"),
        (b"v1\n0  1 2\n", "invalid state line"),
        ("v1\na\u{a0} 1 2\n".as_bytes(), "invalid state line"),
        (b"v1\n0 x 2\n", "invalid dmem value"),
        (b"v1\n0 1 x\n", "invalid dmem value"),
        (b"v1\n0 1 2\n0 1 2\n", "duplicate state region"),
        (b"v1\n", "state has no regions"),
    ] {
        assert_eq!(parse_state(input).err(), Some(error), "{input:?}");
    }
}

#[test]
fn records_are_written_as_they_are_read() {
    let state = parse_state("v1\nzö max 7\na 1 max\r\nb +2 03".as_bytes()).unwrap();
    let bytes = serialize_state(&state);
    assert_eq!(bytes, "v1\na 1 max\nb 2 3\nzö max 7\n".as_bytes());
    assert_eq!(serialize_state(&parse_state(&bytes).unwrap()), bytes);
}

#[test]
fn only_canonical_records_are_rewritten_unchanged() {
    let rewritten = |bytes: &str| {
        String::from_utf8(serialize_state(&parse_state(bytes.as_bytes()).unwrap())).unwrap()
    };
    for canonical in ["v1\na 0 10\n", "v1\na 1 max\nb 20 3\nz\u{f6} max 7\n"] {
        assert_eq!(rewritten(canonical), canonical);
    }
    for (other, bytes) in [
        ("v1\na 0 10", "v1\na 0 10\n"),
        ("v1\r\na 0 10\n", "v1\na 0 10\n"),
        ("v1\na 0 10\r\n", "v1\na 0 10\n"),
        ("v1\na +0 10\n", "v1\na 0 10\n"),
        ("v1\na 00 10\n", "v1\na 0 10\n"),
        ("v1\na 0 010\n", "v1\na 0 10\n"),
        ("v1\nb 0 1\na 0 10\n", "v1\na 0 10\nb 0 1\n"),
    ] {
        assert_ne!(other, bytes);
        assert_eq!(rewritten(other), bytes);
    }
}

#[test]
fn joined_files_list_what_both_list() {
    let both = parse_dmem_values(&format!("{}{}", "a 1\n", "b max")).unwrap();
    assert_eq!(both.len(), 2);
    assert_eq!(value(&both, "a"), DmemValue::Finite(1));
    assert_eq!(value(&both, "b"), DmemValue::Max);
    assert!(parse_dmem_values(&format!("{}{}", "a 1\n", "a 2")).is_err());
    assert!(parse_dmem_values(&format!("{}{}", "a\n", "b 2")).is_err());
}

#[test]
fn a_focus_attribute_is_minus_one_or_a_time() {
    assert_eq!(focus_is_active(b"-1"), Ok(true));
    assert_eq!(focus_is_active(b"0"), Ok(false));
    assert_eq!(focus_is_active(b"18446744073709551615"), Ok(false));
    assert_eq!(
        focus_is_active(b"18446744073709551616"),
        Err("invalid focus xattr")
    );
    assert_eq!(focus_is_active(b"-1\n"), Err("invalid focus xattr"));
    assert_eq!(focus_is_active(b"-2"), Err("invalid focus xattr"));
    assert_eq!(focus_is_active(b""), Err("invalid focus xattr"));
    assert_eq!(
        focus_is_active(b"-1\xff"),
        Err("focus xattr is not UTF-8")
    );
}

#[test]
fn attributes_keep_their_names() {
    assert_eq!(Xattr::Focus.name(), "user.xdg.inactive-since");
    assert_eq!(Xattr::State.name(), "user.dmemcg-booster.dmem-low-state");
}

#[test]
fn application_paths_stay_under_the_resolved_root() {
    let root = CgroupPath::new(
        "/sys/fs/cgroup/user.slice/user-1000.slice/user@1000.service/app.slice",
    );
    assert!(is_application_cgroup(&root, &root.join("app.scope")));
    assert!(is_application_cgroup(
        &root,
        &root.join("nested.slice/app.service")
    ));
    assert!(!is_application_cgroup(&root, &root));
    assert!(!is_application_cgroup(&root, &root.join("nested.slice")));
    assert!(!is_application_cgroup(
        &root,
        &root.join("../background.slice/app.scope")
    ));
    assert!(!is_application_cgroup(
        &root,
        &CgroupPath::new(
            "/sys/fs/cgroup/user.slice/user-1001.slice/user@1001.service/app.slice/app.scope"
        )
    ));
    assert!(!is_application_cgroup(
        &root,
        &CgroupPath::new(
            "/sys/fs/cgroup/user.slice/user-1000.slice/user@1000.service/app.slice-other"
        )
        .join("app.scope")
    ));
}

#[test]
fn paths_are_compared_by_their_components() {
    let plain = CgroupPath::new("/a/b");
    assert!(plain.same(&CgroupPath::new("//a/./b/")));
    assert!(!plain.same(&CgroupPath::new("a/b")));
    assert!(!plain.same(&CgroupPath::new("/a/../a/b")));
    assert!(plain.join("/c").same(&CgroupPath::new("/c")));
    assert!(plain.join("").same(&plain));
    assert!(plain.join("c.scope").starts_with(&plain));
    assert!(!CgroupPath::new("/a/bc").starts_with(&plain));
    let odd = plain.join_bytes(b"x\xff.scope");
    assert!(!is_application_cgroup(&plain, &odd));
}

/// Walks through a tree of directories, given by their texts.
fn walk(root: &str, tree: &[&str]) -> Vec<String> {
    let mut discovery = Discovery::new(&CgroupPath::new(root));
    while let Some(directory) = discovery.next_directory() {
        let names: Vec<Vec<u8>> = tree
            .iter()
            .map(|entry| CgroupPath::new(entry))
            .filter(|entry| {
                entry.components().len() == directory.components().len() + 1
                    && entry.starts_with(&directory)
            })
            .map(|entry| entry.components().last().unwrap().clone())
            .collect();
        discovery.add_entries(&directory, &names);
    }
    let mut found: Vec<String> = discovery.into_found().iter().map(text).collect();
    found.sort();
    found
}

#[test]
fn discovery_recurses_without_following_symlinks() {
    // A symbolic link is no directory, so it is not among the directories.
    let tree = [
        "/d/app.slice",
        "/d/app.slice/nested.slice",
        "/d/app.slice/nested.slice/app.service",
        "/d/app.slice/app.scope",
        "/d/outside.scope",
    ];
    assert_eq!(
        walk("/d/app.slice", &tree),
        vec![
            text(&CgroupPath::new("/d/app.slice/app.scope")),
            text(&CgroupPath::new("/d/app.slice/nested.slice/app.service")),
        ]
    );
    assert!(walk("/d/missing", &tree).is_empty());
}

#[test]
fn a_walk_lists_each_directory_once() {
    let root = CgroupPath::new("/d");
    let mut discovery = Discovery::new(&root);
    let mut listed = Vec::new();
    while let Some(directory) = discovery.next_directory() {
        let depth = directory.components().len() - root.components().len();
        let names: Vec<Vec<u8>> = if depth < 2 {
            vec![b"a.slice".to_vec(), b"b.scope".to_vec()]
        } else {
            Vec::new()
        };
        discovery.add_entries(&directory, &names);
        listed.push(text(&directory));
    }
    let mut found: Vec<String> = discovery.into_found().iter().map(text).collect();
    found.sort();
    assert_eq!(
        found,
        vec!["//d/a.slice/b.scope", "//d/b.scope", "//d/b.scope/b.scope"]
    );
    listed.sort();
    assert_eq!(listed.len(), 7);
    listed.dedup();
    assert_eq!(listed.len(), 7);
}

#[test]
fn warnings_are_bounded_per_category_without_delaying_new_categories() {
    let second = 1_000_000_000;
    let mut diagnostics = Diagnostics::default();
    let start = 12345;
    assert!(diagnostics.should_warn("registration", start));
    for seconds in 1..60 {
        assert!(!diagnostics.should_warn("registration", start + seconds * second));
    }
    assert!(diagnostics.should_warn("focus", start + second));
    assert!(diagnostics.should_warn("registration", start + 60 * second));
    assert!(!diagnostics.should_warn("registration", start + 61 * second));
}

#[test]
fn time_that_runs_backwards_warns_of_nothing() {
    let mut diagnostics = Diagnostics::default();
    assert!(diagnostics.should_warn("focus", QUIET));
    assert!(!diagnostics.should_warn("focus", 0));
    assert!(!diagnostics.should_warn("focus", 2 * QUIET - 1));
    assert!(diagnostics.should_warn("focus", 2 * QUIET));
}

#[test]
fn errors_of_the_watches_come_with_a_hint() {
    assert_eq!(EMFILE, libc::EMFILE);
    assert_eq!(ENFILE, libc::ENFILE);
    let start = "could not initialize inotify for application focus watches: ";
    assert_eq!(
        inotify_error("Too many open files", Some(libc::EMFILE)),
        format!("{start}Too many open files; check fs.inotify.max_user_instances and the process open-file limit")
    );
    assert_eq!(
        inotify_error("full", Some(libc::ENFILE)),
        format!("{start}full; the system-wide open-file limit has been reached")
    );
    assert_eq!(inotify_error("no", Some(1)), format!("{start}no"));
    assert_eq!(inotify_error("no", None), format!("{start}no"));
}

#[test]
fn event_bits_are_those_of_the_system() {
    assert_eq!(ATTRIB, EventMask::ATTRIB.bits());
    assert_eq!(DELETE_SELF, EventMask::DELETE_SELF.bits());
    assert_eq!(Q_OVERFLOW, EventMask::Q_OVERFLOW.bits());
    assert_eq!(IGNORED, EventMask::IGNORED.bits());
    assert_eq!(
        REMOVED,
        (EventMask::DELETE_SELF | EventMask::IGNORED).bits()
    );
}

#[test]
fn maps_cgroup_unit_types_to_their_dbus_interfaces() {
    assert_eq!(
        cgroup_interface("example.service"),
        Some("org.freedesktop.systemd1.Service")
    );
    assert_eq!(
        cgroup_interface("example.scope"),
        Some("org.freedesktop.systemd1.Scope")
    );
    assert_eq!(cgroup_interface("example.timer"), None);
}

#[test]
fn the_last_dot_tells_the_kind_of_a_unit() {
    assert_eq!(
        cgroup_interface("a.timer.slice"),
        Some("org.freedesktop.systemd1.Slice")
    );
    assert_eq!(
        cgroup_interface(".socket"),
        Some("org.freedesktop.systemd1.Socket")
    );
    assert_eq!(cgroup_interface("service"), None);
    assert_eq!(cgroup_interface("a.service."), None);
    assert_eq!(cgroup_interface(""), None);
}

#[test]
fn units_name_their_cgroups() {
    assert!(control_group_path("").is_none());
    for content in ["/user.slice/a.scope", "user.slice/a.scope", "///user.slice/a.scope/"] {
        assert!(control_group_path(content)
            .unwrap()
            .same(&CgroupPath::new("/sys/fs/cgroup/user.slice/a.scope")));
    }
    assert!(control_group_path("/")
        .unwrap()
        .same(&CgroupPath::new("/sys/fs/cgroup")));
}

fn new_unit(name: &str, object_path: &str, attempts: u8) -> UnitEvent {
    UnitEvent::New {
        name: name.to_owned(),
        object_path: object_path.to_owned(),
        attempts,
    }
}

fn query(action: UnitAction) -> UnitQuery {
    match action {
        UnitAction::Ask(query) => query,
        _ => panic!("no question"),
    }
}

#[test]
fn units_are_followed_from_their_start_to_their_end() {
    let root = CgroupPath::new("/sys/fs/cgroup/app.slice");
    let mut units = Units::new();
    let asked = query(units.on_event(new_unit("a.scope", "/a", 0)));
    assert_eq!(asked.interface, "org.freedesktop.systemd1.Scope");
    assert!(matches!(
        units.on_event(new_unit("a.scope", "/a", 0)),
        UnitAction::Nothing
    ));
    let cgroup = units
        .on_answer(asked, Some("/app.slice/a.scope".to_owned()), Some(&root))
        .unwrap();
    assert_eq!(text(&cgroup), "//sys/fs/cgroup/app.slice/a.scope");
    assert_eq!(units.len(), 1);
    assert!(units.end_round().is_empty());
    assert!(matches!(
        units.on_event(new_unit("a.scope", "/a", 0)),
        UnitAction::Nothing
    ));
    match units.on_event(UnitEvent::Removed("/a".to_owned())) {
        UnitAction::Untrack(gone) => assert!(gone.same(&cgroup)),
        _ => panic!("not let go"),
    }
    assert_eq!(units.len(), 0);
    assert!(matches!(
        units.on_event(UnitEvent::Removed("/a".to_owned())),
        UnitAction::Nothing
    ));
}

#[test]
fn units_without_a_cgroup_are_tried_again_for_a_while() {
    let mut units = Units::new();
    let mut event = new_unit("a.service", "/a", 0);
    for _ in 0..RETRIES {
        let asked = query(units.on_event(event));
        assert!(units.on_answer(asked, Some(String::new()), None).is_none());
        let mut retries = units.end_round();
        assert_eq!(retries.len(), 1);
        event = retries.pop().unwrap();
    }
    let asked = query(units.on_event(event));
    assert_eq!(asked.attempts, 10);
    assert!(units.on_answer(asked, None, None).is_none());
    assert!(units.end_round().is_empty());
}

#[test]
fn a_removed_unit_is_not_tried_again() {
    let mut units = Units::new();
    for object in ["/a", "/b"] {
        let asked = query(units.on_event(new_unit("a.service", object, 3)));
        assert!(units.on_answer(asked, None, None).is_none());
    }
    units.on_event(UnitEvent::Removed("/a".to_owned()));
    assert!(matches!(
        units.on_event(new_unit("a.service", "/a", 0)),
        UnitAction::Ask(_)
    ));
    let retries = units.end_round();
    assert_eq!(retries.len(), 1);
    match &retries[0] {
        UnitEvent::New {
            object_path,
            attempts,
            ..
        } => {
            assert_eq!(object_path, "/b");
            assert_eq!(*attempts, 4);
        }
        UnitEvent::Removed(_) => panic!("not removed"),
    }
}

#[test]
fn a_round_retries_each_unresolved_unit_once() {
    let root = CgroupPath::new("/sys/fs/cgroup/app.slice");
    let mut units = Units::new();
    for (name, object, attempts, answer) in [
        ("a.service", "/a", 2, None),
        ("a.service", "/a", 5, None),
        ("b.scope", "/b", 0, Some("/app.slice/b.scope")),
        ("c.scope", "/c", 9, None),
        ("d.scope", "/d", 10, None),
    ] {
        if let UnitAction::Ask(asked) = units.on_event(new_unit(name, object, attempts)) {
            units.on_answer(asked, answer.map(str::to_owned), Some(&root));
        }
    }
    let retries: Vec<(String, u8)> = units
        .end_round()
        .into_iter()
        .map(|retry| match retry {
            UnitEvent::New {
                object_path,
                attempts,
                ..
            } => (object_path, attempts),
            UnitEvent::Removed(_) => panic!("not removed"),
        })
        .collect();
    assert_eq!(retries, vec![("/a".to_owned(), 3), ("/c".to_owned(), 10)]);
    assert!(units.end_round().is_empty());
}

#[test]
fn only_units_beneath_the_root_are_kept() {
    let root = CgroupPath::new("/sys/fs/cgroup/app.slice");
    let mut units = Units::new();
    let asked = query(units.on_event(new_unit("a.service", "/a", 0)));
    assert!(units
        .on_answer(asked, Some("/other.slice/a.service".to_owned()), Some(&root))
        .is_none());
    assert_eq!(units.len(), 0);
    assert!(matches!(
        units.on_event(new_unit("a.timer", "/t", 0)),
        UnitAction::Nothing
    ));
    units.insert("/x".to_owned(), root.join("x.scope"));
    units.insert("/y".to_owned(), CgroupPath::new("/elsewhere/y.scope"));
    units.retain(Some(&root));
    assert_eq!(units.len(), 1);
    assert!(units
        .cgroup(&"/x".to_owned())
        .unwrap()
        .same(&root.join("x.scope")));
    units.retain(None);
    assert_eq!(units.len(), 0);
}

fn report(now: u64) -> Report {
    Report {
        terminated: false,
        failed: false,
        rooted: true,
        now,
    }
}

#[test]
fn a_session_runs_in_order() {
    let mut session = Session::new(true, 0);
    let mut steps = Vec::new();
    for _ in 0..7 {
        steps.push(session.step);
        session.advance(report(5));
    }
    assert_eq!(
        steps,
        vec![
            Step::Discover,
            Step::LoadUnits,
            Step::Reconcile,
            Step::Dispatch,
            Step::Units,
            Step::Watches,
            Step::Wait,
        ]
    );
    assert_eq!(session.last, 5);
    steps.clear();
    for _ in 0..9 {
        steps.push(session.step);
        session.advance(report(5 + INTERVAL));
    }
    assert_eq!(
        steps,
        vec![
            Step::Dispatch,
            Step::Units,
            Step::Watches,
            Step::FindRoot,
            Step::Restrict,
            Step::Rediscover,
            Step::Maintain,
            Step::Wait,
            Step::Dispatch,
        ]
    );
    assert_eq!(session.last, 5 + INTERVAL);
}

#[test]
fn a_session_without_a_root_still_maintains() {
    let unrooted = Report {
        rooted: false,
        ..report(INTERVAL)
    };
    let mut session = Session::new(false, 0);
    assert_eq!(session.step, Step::LoadUnits);
    session.step = Step::Watches;
    session.advance(report(INTERVAL - 1));
    assert_eq!(session.step, Step::Wait);
    session.step = Step::Watches;
    session.advance(unrooted);
    assert_eq!(session.step, Step::FindRoot);
    session.advance(unrooted);
    assert_eq!(session.step, Step::Maintain);
}

#[test]
fn a_session_ends_with_a_shutdown() {
    let terminated = Report {
        terminated: true,
        ..report(0)
    };
    let failed = Report {
        failed: true,
        ..report(0)
    };
    for ending in [terminated, failed] {
        let mut session = Session::new(true, 0);
        session.step = Step::Dispatch;
        session.advance(ending);
        assert_eq!(session.step, Step::Shutdown);
        session.advance(ending);
        assert_eq!(session.step, Step::Finished);
        session.advance(ending);
        assert_eq!(session.step, Step::Finished);
    }
    let mut session = Session::new(true, 0);
    session.step = Step::Wait;
    session.advance(terminated);
    assert_eq!(session.step, Step::Shutdown);
}

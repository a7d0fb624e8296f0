use abi_watch::abi::AbiRecord;
use abi_watch::artifact::ArtifactFile;
use abi_watch::path::WatchPath;
use abi_watch::reconcile::{IncompleteContract, PassOutcome, PersistPass, Step};
use abi_watch::roots::PathSet;
use abi_watch::watcher::{
    route_internal, targets, Effect, Event, FileEvent, InternalMsg, Msg, Watcher, DEBOUNCE_MILLIS, MAILBOX_CAPACITY,
    POLL_INTERVAL_SECS,
};

fn path(text: &str) -> WatchPath {
    WatchPath::new(
        text.split('/')
            .filter(|part| !part.is_empty())
            .map(|part| part.as_bytes().to_vec())
            .collect(),
    )
}

fn shown(p: &WatchPath) -> String {
    p.components
        .iter()
        .map(|c| String::from_utf8_lossy(c).into_owned())
        .collect::<Vec<_>>()
        .join("/")
}

fn listed(set: &PathSet) -> Vec<String> {
    (0..set.len()).map(|i| shown(set.path_at(i))).collect()
}

fn artifact(code: &[u8]) -> Option<ArtifactFile> {
    Some(ArtifactFile { abi: "[]".to_string(), code: code.to_vec() })
}

fn event(at: &str, decoded: Option<ArtifactFile>) -> FileEvent {
    FileEvent { paths: vec![path(at)], decoded }
}

#[test]
fn timing_constants() {
    assert_eq!(DEBOUNCE_MILLIS, 200);
    assert_eq!(POLL_INTERVAL_SECS, 60);
    assert_eq!(MAILBOX_CAPACITY, 100);
}

#[test]
fn new_watcher_is_empty() {
    let watcher = Watcher::new();
    assert!(watcher.roots().is_empty());
    assert!(watcher.foundry_roots().is_empty());
    assert_eq!(watcher.abis().len(), 0);
    assert!(!watcher.wake_pending());
}

#[test]
fn update_roots_reports_the_difference() {
    let mut watcher = Watcher::new();
    let diff = watcher.update_roots(&vec![path("w/a"), path("w/b")]);
    assert_eq!(diff.effect, Effect::Rescan);
    assert!(diff.removed.is_empty());
    assert_eq!(listed(&diff.added), vec!["w/a", "w/b"]);
    let diff = watcher.update_roots(&vec![path("w/b"), path("w/c"), path("w/c")]);
    assert_eq!(listed(&diff.removed), vec!["w/a"]);
    assert_eq!(listed(&diff.added), vec!["w/c"]);
    assert_eq!(listed(watcher.roots()), vec!["w/b", "w/c"]);
    let diff = watcher.update_roots(&Vec::new());
    assert_eq!(listed(&diff.removed), vec!["w/b", "w/c"]);
    assert!(diff.added.is_empty());
    assert!(watcher.roots().is_empty());
}

#[test]
fn update_roots_twice_changes_nothing_the_second_time() {
    let roots = vec![path("w")];
    let manifests = vec![path("w/a/foundry.toml"), path("w/a/lib/dep/foundry.toml"), path("w/b/foundry.toml")];
    let mut watcher = Watcher::new();

    let diff = watcher.update_roots(&roots);
    assert_eq!(listed(&diff.added), vec!["w"]);
    let plan = watcher.update_foundry_roots(&manifests);
    assert!(plan.unwatch_targets().is_empty());
    let watched: Vec<String> = plan.watch_targets().iter().map(shown).collect();
    assert_eq!(watched, vec!["w/a/out", "w/b/out"]);
    let after_first = watcher.clone();

    let diff = watcher.update_roots(&roots);
    assert!(diff.removed.is_empty());
    assert!(diff.added.is_empty());
    assert_eq!(diff.effect, Effect::Rescan);
    let plan = watcher.update_foundry_roots(&manifests);
    assert!(plan.is_empty());
    assert!(plan.unwatch_targets().is_empty());
    assert!(plan.watch_targets().is_empty());
    assert_eq!(watcher, after_first);
}

#[test]
fn project_roots_follow_the_disk() {
    let mut watcher = Watcher::new();
    watcher.update_roots(&vec![path("w")]);
    watcher.update_foundry_roots(&vec![path("w/a/foundry.toml"), path("w/b/foundry.toml")]);
    // "w/b" loses its manifest, "w/c" gains one, and "w" itself becomes a project
    let plan = watcher.update_foundry_roots(&vec![path("w/a/foundry.toml"), path("w/c/foundry.toml")]);
    assert_eq!(listed(&plan.dropped), vec!["w/b"]);
    assert_eq!(listed(&plan.found), vec!["w/c"]);
    assert_eq!(listed(watcher.foundry_roots()), vec!["w/a", "w/c"]);
    let plan = watcher.update_foundry_roots(&vec![path("w/a/foundry.toml"), path("w/foundry.toml")]);
    assert_eq!(listed(&plan.dropped), vec!["w/a", "w/c"]);
    assert_eq!(listed(&plan.found), vec!["w"]);
    let unwatch: Vec<String> = plan.unwatch_targets().iter().map(shown).collect();
    assert_eq!(unwatch, vec!["w/a/out", "w/c/out"]);
    let watch: Vec<String> = targets(&plan.found).iter().map(shown).collect();
    assert_eq!(watch, vec!["w/out"]);
}

#[test]
fn add_and_remove_single_roots() {
    let mut watcher = Watcher::new();
    assert!(watcher.add_path(path("w/a")));
    assert!(!watcher.add_path(path("w/a")));
    assert!(watcher.add_path(path("w/b")));
    assert_eq!(listed(watcher.roots()), vec!["w/a", "w/b"]);
    assert!(watcher.remove_path(&path("w/a")));
    assert!(!watcher.remove_path(&path("w/a")));
    assert_eq!(listed(watcher.roots()), vec!["w/b"]);
}

#[test]
fn messages_and_their_effects() {
    let mut watcher = Watcher::new();
    assert_eq!(watcher.process_msg(Msg::UpdateRoots(vec![path("w/a")])), Effect::Rescan);
    assert_eq!(listed(watcher.roots()), vec!["w/a"]);
    assert_eq!(watcher.process_msg(Msg::PollFoundryRoots), Effect::Rescan);
    assert!(!watcher.wake_pending());
    assert_eq!(watcher.process_msg(Msg::NewContract), Effect::Nothing);
    assert!(watcher.wake_pending());
}

#[test]
fn wake_signal_holds_no_count() {
    let mut watcher = Watcher::new();
    assert_eq!(watcher.handle_event(Event::Wake), Effect::Nothing);
    assert_eq!(watcher.handle_event(Event::Message(Msg::NewContract)), Effect::Nothing);
    assert_eq!(watcher.handle_event(Event::Message(Msg::NewContract)), Effect::Nothing);
    assert_eq!(watcher.handle_event(Event::Message(Msg::NewContract)), Effect::Nothing);
    assert_eq!(watcher.handle_event(Event::Wake), Effect::Reconcile);
    assert_eq!(watcher.handle_event(Event::Wake), Effect::Nothing);
    assert_eq!(watcher.handle_event(Event::Tick), Effect::Rescan);
    watcher.process_msg(Msg::NewContract);
    assert!(watcher.take_wake());
    assert!(!watcher.take_wake());
}

#[test]
fn file_events_file_and_unfile_records() {
    let at = "w/a/out/Contract.json";
    let mut watcher = Watcher::new();

    watcher.process_debounced_events(&vec![event(at, artifact(&[1, 2, 3]))]);
    assert_eq!(watcher.abis().len(), 1);
    assert_eq!(
        watcher.abis().find(&path(at)),
        Some(&AbiRecord { path: path(at), name: "Contract".to_string(), abi: "[]".to_string(), code: vec![1, 2, 3] })
    );
    assert!(watcher.take_wake());

    // the file is deleted or no longer parses
    watcher.process_debounced_events(&vec![event(at, None)]);
    assert_eq!(watcher.abis().len(), 0);
    assert_eq!(watcher.abis().find(&path(at)), None);
    assert!(watcher.take_wake());

    // a removal of what is not there changes nothing and raises no signal
    watcher.process_debounced_events(&vec![event(at, None)]);
    assert_eq!(watcher.abis().len(), 0);
    assert!(!watcher.wake_pending());

    // it comes back, and is then rebuilt: one record, the later one
    watcher.process_debounced_events(&vec![event(at, artifact(&[4, 5])), event(at, artifact(&[6]))]);
    assert_eq!(watcher.abis().len(), 1);
    assert_eq!(watcher.abis().find(&path(at)).unwrap().code, vec![6]);
    assert!(watcher.wake_pending());
}

#[test]
fn only_the_first_path_of_an_event_counts() {
    let mut watcher = Watcher::new();
    let both = FileEvent { paths: vec![path("w/out/A.json"), path("w/out/B.json")], decoded: artifact(&[1]) };
    assert_eq!(Watcher::subject(&both.paths), Some(&path("w/out/A.json")));
    assert_eq!(Watcher::subject(&Vec::new()), None);
    assert_eq!(watcher.handle_event(Event::Debounced(vec![both])), Effect::Nothing);
    assert_eq!(watcher.abis().len(), 1);
    assert_eq!(watcher.abis().get(0).name, "A");
    assert_eq!(watcher.abis().find(&path("w/out/B.json")), None);
}

#[test]
fn files_that_are_no_artifacts_are_not_filed() {
    let mut watcher = Watcher::new();
    watcher.process_debounced_events(&vec![
        event("w/out/build-info/cache", artifact(&[1])),
        event("w/out/B.json", artifact(&[2])),
        event("w/out/B.json", None),
        event("w/out/A.json", artifact(&[3])),
    ]);
    assert_eq!(watcher.abis().len(), 1);
    assert_eq!(watcher.abis().get(0).name, "A");
}

#[test]
fn insert_remove_and_lookup_by_code() {
    let code: Vec<u8> = (0..50u8).collect();
    let mut watcher = Watcher::new();
    let record = AbiRecord { path: path("w/out/T.json"), name: "T".to_string(), abi: "[]".to_string(), code: code.clone() };
    watcher.insert_abi(record.clone());
    assert!(watcher.take_wake());
    let mut deployed = code.clone();
    deployed[49] = 0xff;
    assert_eq!(watcher.get_abi_for(&deployed), Some(record));
    assert_eq!(watcher.get_abi_for(&[9, 9, 9]), None);
    watcher.remove_abi(&path("w/out/T.json"));
    assert!(watcher.take_wake());
    assert_eq!(watcher.get_abi_for(&deployed), None);
    watcher.remove_abi(&path("w/out/T.json"));
    assert!(!watcher.take_wake());
}

#[test]
fn internal_notices_become_messages() {
    assert_eq!(
        route_internal(InternalMsg::SettingsUpdated, Some(path("w/a"))),
        Some(Msg::UpdateRoots(vec![path("w/a")]))
    );
    assert_eq!(route_internal(InternalMsg::SettingsUpdated, None), None);
    assert_eq!(route_internal(InternalMsg::ContractFound, Some(path("w/a"))), Some(Msg::NewContract));
    assert_eq!(route_internal(InternalMsg::ContractFound, None), Some(Msg::NewContract));
    assert_eq!(route_internal(InternalMsg::Other, Some(path("w/a"))), None);
}

#[test]
fn artifact_appears_and_contract_is_completed() {
    let mut address = [0u8; 20];
    address[19] = 1;
    let mut watcher = Watcher::new();

    // the root is configured and holds a manifest
    assert_eq!(watcher.handle_event(Event::Message(Msg::UpdateRoots(vec![path("R")]))), Effect::Rescan);
    let patterns: Vec<String> = watcher.scan_patterns().iter().map(shown).collect();
    assert_eq!(patterns, vec!["R/**/foundry.toml"]);
    let plan = watcher.update_foundry_roots(&vec![path("R/foundry.toml")]);
    let watched: Vec<String> = plan.watch_targets().iter().map(shown).collect();
    assert_eq!(watched, vec!["R/out"]);

    // the artifact appears
    let appeared = FileEvent { paths: vec![path("R/out/Contract.json")], decoded: artifact(&[0xaa]) };
    assert_eq!(watcher.handle_event(Event::Debounced(vec![appeared])), Effect::Nothing);
    // and the store reports a new contract
    assert_eq!(watcher.handle_event(Event::Message(Msg::NewContract)), Effect::Nothing);
    assert_eq!(watcher.handle_event(Event::Wake), Effect::Reconcile);

    let store = vec![IncompleteContract { chain_id: 1, address, code: Some(vec![0xaa]) }];
    let mut pass = watcher.update_incomplete_contracts(store);
    assert_eq!(pass.next_step(), Step::Done);
    let matches = pass.matches(watcher.abis());
    assert_eq!(matches.len(), 1);
    assert_eq!(matches[0].chain_id, 1);
    assert_eq!(matches[0].address, address);
    assert_eq!(matches[0].code, vec![0xaa]);
    assert_eq!(matches[0].abi.name, "Contract");
    assert_eq!(matches[0].abi.abi, "[]");

    let mut writes = PersistPass::new(matches);
    let mut notifications = 0;
    while writes.next_write().is_some() {
        writes.write_completed(true);
    }
    if writes.outcome().notify {
        notifications += 1;
    }
    assert_eq!(writes.outcome(), PassOutcome { written: 1, failed: false, notify: true });

    // nothing else wakes the reconciler
    if watcher.handle_event(Event::Wake) == Effect::Reconcile {
        notifications += 1;
    }
    assert_eq!(notifications, 1);
}

#[test]
fn failed_registration_is_tried_again() {
    let manifests = vec![path("w/a/foundry.toml"), path("w/b/foundry.toml")];
    let mut watcher = Watcher::new();
    watcher.update_roots(&vec![path("w")]);
    let plan = watcher.update_foundry_roots(&manifests);
    assert_eq!(listed(&plan.found), vec!["w/a", "w/b"]);
    // "w/b/out" could not be watched
    assert!(watcher.watch_failed(&path("w/b")));
    assert!(!watcher.watch_failed(&path("w/b")));
    assert!(!watcher.watch_failed(&path("w/zzz")));
    assert_eq!(listed(watcher.foundry_roots()), vec!["w/a"]);
    let plan = watcher.update_foundry_roots(&manifests);
    assert!(plan.dropped.is_empty());
    assert_eq!(listed(&plan.found), vec!["w/b"]);
    assert_eq!(listed(watcher.foundry_roots()), vec!["w/a", "w/b"]);
}

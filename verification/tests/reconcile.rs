use abi_watch::abi::{AbiRecord, AbiRepository};
use abi_watch::path::WatchPath;
use abi_watch::reconcile::{IncompleteContract, MatchResult, PassOutcome, PersistPass, Reconciler, Step, MAX_IN_FLIGHT};

fn path(text: &str) -> WatchPath {
    WatchPath::new(
        text.split('/')
            .filter(|part| !part.is_empty())
            .map(|part| part.as_bytes().to_vec())
            .collect(),
    )
}

fn address(n: u8) -> [u8; 20] {
    let mut a = [0u8; 20];
    a[19] = n;
    a
}

fn code(seed: u8) -> Vec<u8> {
    (0..40u8).map(|i| i.wrapping_mul(7).wrapping_add(seed)).collect()
}

fn record(at: &str, name: &str, code: &[u8]) -> AbiRecord {
    AbiRecord { path: path(at), name: name.to_string(), abi: "[]".to_string(), code: code.to_vec() }
}

fn contract(n: u8, code: Option<Vec<u8>>) -> IncompleteContract {
    IncompleteContract { chain_id: 1, address: address(n), code }
}

fn repository() -> AbiRepository {
    let mut repo = AbiRepository::new();
    repo.insert(record("p/out/A.json", "A", &code(1)));
    repo.insert(record("p/out/B.json", "B", &code(2)));
    repo
}

/// Drives a pass to its end, answering each fetch with what `fetch` gives.
fn drive(pass: &mut Reconciler, fetch: &dyn Fn(u32, [u8; 20]) -> Option<Vec<u8>>) -> usize {
    let mut outstanding: Vec<(usize, u32, [u8; 20])> = Vec::new();
    let mut fetches = 0;
    loop {
        match pass.next_step() {
            Step::Fetch { ticket, chain_id, address } => {
                fetches += 1;
                outstanding.push((ticket, chain_id, address));
                assert!(outstanding.len() <= MAX_IN_FLIGHT);
                assert_eq!(pass.in_flight(), outstanding.len());
            }
            Step::Wait => {
                assert!(!outstanding.is_empty());
                let (ticket, chain_id, address) = outstanding.remove(0);
                assert!(pass.fetch_completed(ticket, fetch(chain_id, address)));
            }
            Step::Done => {
                assert!(outstanding.is_empty());
                return fetches;
            }
        }
    }
}

#[test]
fn cached_code_needs_no_fetch() {
    let mut pass = Reconciler::new(vec![contract(1, Some(code(1))), contract(2, Some(code(2)))]);
    assert_eq!(pass.next_step(), Step::Done);
    assert_eq!(pass.in_flight(), 0);
    let found = pass.matches(&repository());
    assert_eq!(found.len(), 2);
    assert_eq!(found[0].abi.name, "A");
    assert_eq!(found[0].address, address(1));
    assert_eq!(found[1].abi.name, "B");
}

#[test]
fn missing_or_empty_code_is_fetched() {
    let mut pass = Reconciler::new(vec![contract(1, None), contract(2, Some(Vec::new())), contract(3, Some(code(2)))]);
    assert_eq!(pass.next_step(), Step::Fetch { ticket: 0, chain_id: 1, address: address(1) });
    assert_eq!(pass.next_step(), Step::Fetch { ticket: 1, chain_id: 1, address: address(2) });
    assert_eq!(pass.in_flight(), 2);
    assert_eq!(pass.next_step(), Step::Wait);
    assert!(pass.fetch_completed(1, Some(code(1))));
    assert_eq!(pass.in_flight(), 1);
    assert_eq!(pass.next_step(), Step::Wait);
    assert!(pass.fetch_completed(0, None));
    assert_eq!(pass.next_step(), Step::Done);
    let found = pass.matches(&repository());
    assert_eq!(
        found,
        vec![
            MatchResult { chain_id: 1, address: address(2), code: code(1), abi: record("p/out/A.json", "A", &code(1)) },
            MatchResult { chain_id: 1, address: address(3), code: code(2), abi: record("p/out/B.json", "B", &code(2)) },
        ]
    );
}

#[test]
fn unknown_tickets_change_nothing() {
    let mut pass = Reconciler::new(vec![contract(1, None), contract(2, Some(code(1)))]);
    assert!(!pass.fetch_completed(0, Some(code(1))));
    assert!(!pass.fetch_completed(7, Some(code(1))));
    assert_eq!(pass.next_step(), Step::Fetch { ticket: 0, chain_id: 1, address: address(1) });
    assert!(!pass.fetch_completed(1, Some(code(1))));
    assert!(pass.fetch_completed(0, Some(code(2))));
    assert!(!pass.fetch_completed(0, Some(code(2))));
    assert_eq!(pass.in_flight(), 0);
    assert_eq!(pass.next_step(), Step::Done);
    let names: Vec<String> = pass.matches(&repository()).into_iter().map(|m| m.abi.name).collect();
    assert_eq!(names, vec!["B", "A"]);
}

#[test]
fn never_more_than_ten_fetches_at_once() {
    assert_eq!(MAX_IN_FLIGHT, 10);
    let contracts: Vec<IncompleteContract> = (0..25u8).map(|n| contract(n, None)).collect();
    let mut pass = Reconciler::new(contracts);
    let mut started = Vec::new();
    loop {
        match pass.next_step() {
            Step::Fetch { ticket, .. } => started.push(ticket),
            Step::Wait => break,
            Step::Done => panic!("nothing was fetched"),
        }
    }
    assert_eq!(started, (0..10).collect::<Vec<usize>>());
    assert_eq!(pass.in_flight(), 10);
    assert_eq!(pass.next_step(), Step::Wait);
    assert!(pass.fetch_completed(4, Some(code(1))));
    assert_eq!(pass.in_flight(), 9);
    assert_eq!(pass.next_step(), Step::Fetch { ticket: 10, chain_id: 1, address: address(10) });
    assert_eq!(pass.in_flight(), 10);
    assert_eq!(pass.next_step(), Step::Wait);

    let contracts: Vec<IncompleteContract> = (0..25u8).map(|n| contract(n, None)).collect();
    let mut pass = Reconciler::new(contracts);
    let fetches = drive(&mut pass, &|_, a| if a[19] % 2 == 0 { Some(code(1)) } else { None });
    assert_eq!(fetches, 25);
    assert_eq!(pass.matches(&repository()).len(), 13);
}

#[test]
fn empty_pass_is_done_at_once() {
    let mut pass = Reconciler::new(Vec::new());
    assert_eq!(pass.next_step(), Step::Done);
    assert!(pass.matches(&repository()).is_empty());
}

#[test]
fn fetched_empty_code_matches_nothing() {
    let mut pass = Reconciler::new(vec![contract(1, None)]);
    assert_eq!(drive(&mut pass, &|_, _| Some(Vec::new())), 1);
    assert!(pass.matches(&repository()).is_empty());
}

#[test]
fn writes_go_one_by_one_and_stop_at_a_failure() {
    let mut pass = Reconciler::new(vec![contract(1, Some(code(1))), contract(2, Some(code(2))), contract(3, Some(code(1)))]);
    assert_eq!(pass.next_step(), Step::Done);
    let mut writes = PersistPass::new(pass.matches(&repository()));
    assert_eq!(writes.outcome(), PassOutcome { written: 0, failed: false, notify: false });
    assert_eq!(writes.next_write().unwrap().address, address(1));
    writes.write_completed(true);
    assert_eq!(writes.next_write().unwrap().address, address(2));
    writes.write_completed(false);
    assert_eq!(writes.next_write(), None);
    writes.write_completed(true);
    assert_eq!(writes.outcome(), PassOutcome { written: 1, failed: true, notify: true });
}

#[test]
fn all_writes_done_asks_for_a_notification() {
    let mut pass = Reconciler::new(vec![contract(1, Some(code(1))), contract(2, Some(code(2)))]);
    assert_eq!(pass.next_step(), Step::Done);
    let mut writes = PersistPass::new(pass.matches(&repository()));
    while writes.next_write().is_some() {
        writes.write_completed(true);
    }
    writes.write_completed(true);
    assert_eq!(writes.outcome(), PassOutcome { written: 2, failed: false, notify: true });
}

#[test]
fn failed_first_write_asks_for_no_notification() {
    let mut pass = Reconciler::new(vec![contract(1, Some(code(1)))]);
    assert_eq!(pass.next_step(), Step::Done);
    let mut writes = PersistPass::new(pass.matches(&repository()));
    writes.write_completed(false);
    assert_eq!(writes.outcome(), PassOutcome { written: 0, failed: true, notify: false });
}

#[test]
fn second_pass_with_nothing_new_writes_nothing() {
    let store = vec![contract(1, Some(code(1))), contract(2, None), contract(3, Some(code(50))), contract(4, None)];
    let fetch = |_: u32, a: [u8; 20]| if a[19] == 2 { Some(code(2)) } else { None };
    let repo = repository();

    let mut first = Reconciler::new(store.clone());
    drive(&mut first, &fetch);
    let matched = first.matches(&repo);
    assert_eq!(matched.len(), 2);
    let mut writes = PersistPass::new(matched.clone());
    while writes.next_write().is_some() {
        writes.write_completed(true);
    }
    assert!(writes.outcome().notify);

    // the store no longer lists what was written
    let left: Vec<IncompleteContract> =
        store.into_iter().filter(|c| !matched.iter().any(|m| m.address == c.address)).collect();
    assert_eq!(left.len(), 2);
    let mut second = Reconciler::new(left);
    drive(&mut second, &fetch);
    let matched = second.matches(&repo);
    assert!(matched.is_empty());
    let writes = PersistPass::new(matched);
    assert_eq!(writes.next_write(), None);
    assert_eq!(writes.outcome(), PassOutcome { written: 0, failed: false, notify: false });
}

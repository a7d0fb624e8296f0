use abi_watch::abi::{AbiRecord, AbiRepository};
use abi_watch::artifact::{classify, name_of, stem_of, ArtifactFile, Change};
use abi_watch::path::WatchPath;

fn path(text: &str) -> WatchPath {
    WatchPath::new(
        text.split('/')
            .filter(|part| !part.is_empty())
            .map(|part| part.as_bytes().to_vec())
            .collect(),
    )
}

fn record(at: &str, name: &str, code: &[u8]) -> AbiRecord {
    AbiRecord { path: path(at), name: name.to_string(), abi: "[]".to_string(), code: code.to_vec() }
}

fn code(seed: u8) -> Vec<u8> {
    (0..40u8).map(|i| i.wrapping_mul(7).wrapping_add(seed)).collect()
}

#[test]
fn records_stand_in_path_order() {
    let mut repo = AbiRepository::new();
    assert_eq!(repo.len(), 0);
    assert!(!repo.insert(record("p/out/C.json", "C", &code(3))));
    assert!(!repo.insert(record("p/out/A.json", "A", &code(1))));
    assert!(!repo.insert(record("p/out/B.json", "B", &code(2))));
    assert_eq!(repo.len(), 3);
    assert_eq!(repo.get(0).name, "A");
    assert_eq!(repo.get(1).name, "B");
    assert_eq!(repo.get(2).name, "C");
}

#[test]
fn insert_replaces_the_record_of_the_same_path() {
    let mut repo = AbiRepository::new();
    repo.insert(record("p/out/A.json", "A", &code(1)));
    repo.insert(record("p/out/B.json", "B", &code(2)));
    assert!(repo.insert(record("p/out/A.json", "A2", &code(9))));
    assert_eq!(repo.len(), 2);
    assert_eq!(repo.find(&path("p/out/A.json")), Some(&record("p/out/A.json", "A2", &code(9))));
    assert_eq!(repo.find(&path("p/out/B.json")), Some(&record("p/out/B.json", "B", &code(2))));
    assert_eq!(repo.find(&path("p/out/Z.json")), None);
}

#[test]
fn remove_takes_out_one_record() {
    let mut repo = AbiRepository::new();
    repo.insert(record("p/out/A.json", "A", &code(1)));
    repo.insert(record("p/out/B.json", "B", &code(2)));
    assert!(repo.remove(&path("p/out/A.json")));
    assert!(!repo.remove(&path("p/out/A.json")));
    assert_eq!(repo.len(), 1);
    assert_eq!(repo.get(0).name, "B");
    assert_eq!(repo.find(&path("p/out/A.json")), None);
}

#[test]
fn first_match_in_path_order_wins() {
    let deployed = code(1);
    let mut close = deployed.clone();
    close[39] ^= 0xff;
    close[38] ^= 0xff;
    let mut repo = AbiRepository::new();
    // the exact copy lies later in path order than the close one
    repo.insert(record("p/out/Exact.json", "Exact", &deployed));
    repo.insert(record("p/out/Close.json", "Close", &close));
    repo.insert(record("p/out/Aaa.json", "Aaa", &code(100)));
    let found = repo.find_best_match(&deployed).unwrap();
    assert_eq!(found.name, "Close");
    assert_eq!(found, record("p/out/Close.json", "Close", &close));
}

#[test]
fn no_match_gives_none() {
    let mut repo = AbiRepository::new();
    assert_eq!(repo.find_best_match(&code(1)), None);
    repo.insert(record("p/out/A.json", "A", &code(1)));
    assert_eq!(repo.find_best_match(&code(77)), None);
    assert_eq!(repo.find_best_match(&[]), None);
    assert!(repo.find_best_match(&code(1)).is_some());
}

#[test]
fn record_duplicate_is_equal() {
    let r = record("p/out/A.json", "A", &code(1));
    assert_eq!(r.duplicate(), r);
}

#[test]
fn artifact_name_is_the_file_stem() {
    assert_eq!(stem_of(&path("R/out/Contract.json")), Some(b"Contract".to_vec()));
    assert_eq!(name_of(&path("R/out/Contract.json")), Some("Contract".to_string()));
    assert_eq!(name_of(&path("R/out/Token.sol/Token.json")), Some("Token".to_string()));
    assert_eq!(name_of(&path("R/out/a.b.json")), Some("a.b".to_string()));
    assert_eq!(name_of(&path("R/out/Contract.txt")), None);
    assert_eq!(name_of(&path("R/out/Contract")), None);
    assert_eq!(name_of(&path("R/out/.json")), None);
    assert_eq!(name_of(&path("R/out/json")), None);
    assert_eq!(name_of(&path("R/out/Contract.JSON")), None);
    assert_eq!(name_of(&path("")), None);
}

#[test]
fn artifact_name_must_be_text() {
    let mut file = vec![0xff, 0xfe];
    file.extend_from_slice(b".json");
    let p = WatchPath::new(vec![b"out".to_vec(), file]);
    assert_eq!(stem_of(&p), Some(vec![0xff, 0xfe]));
    assert_eq!(name_of(&p), None);
    let mut file = "Größe".as_bytes().to_vec();
    file.extend_from_slice(b".json");
    let p = WatchPath::new(vec![b"out".to_vec(), file]);
    assert_eq!(name_of(&p), Some("Größe".to_string()));
}

#[test]
fn classify_tells_artifacts_from_the_rest() {
    let file = ArtifactFile { abi: "[{\"type\":\"fallback\"}]".to_string(), code: vec![0xaa, 0xbb] };
    assert_eq!(
        classify(path("R/out/Contract.json"), Some(file.clone())),
        Change::Upsert(AbiRecord {
            path: path("R/out/Contract.json"),
            name: "Contract".to_string(),
            abi: "[{\"type\":\"fallback\"}]".to_string(),
            code: vec![0xaa, 0xbb],
        })
    );
    assert_eq!(classify(path("R/out/Contract.json"), None), Change::Remove(path("R/out/Contract.json")));
    assert_eq!(classify(path("R/out/notes.txt"), Some(file)), Change::Remove(path("R/out/notes.txt")));
}

use oscar_io::doc::Document;
use oscar_io::error::Error;
use oscar_io::folder::{FolderOpenOutcome, FolderPull, SplitFolderFileIter};
use oscar_io::shard::{OpenOutcome, ShardPull, SplitFileIter};

fn record(content: &str) -> String {
    format!(
        r#"{{"content":"{content}","warc_headers":{{}},"metadata":{{"identification":{{"label":"en","prob":1.0}},"annotation":null,"sentence_identifications":[{{"label":"en","prob":1.0}}]}}}}"#
    )
}

fn shard_bytes(contents: &[&str]) -> Vec<u8> {
    let lines: Vec<String> = contents.iter().map(|c| record(c)).collect();
    lines.join("\n").into_bytes()
}

/// Drive a shard run where the files of `shards` exist in order and the
/// next index is absent; collect every yielded item.
fn run_shards(start: u64, shards: Vec<Vec<u8>>) -> (Vec<Document>, Vec<Error>, bool) {
    let mut it = SplitFileIter::new(String::new(), "shard_", "", ".jsonl", start);
    let mut docs = Vec::new();
    let mut errors = Vec::new();
    let mut clean;
    clean = false;
    loop {
        match it.next() {
            ShardPull::Item(Ok(d)) => docs.push(d),
            ShardPull::Item(Err(e)) => errors.push(e),
            ShardPull::NeedOpen(n) => {
                let idx = (n - start) as usize;
                let outcome = if idx < shards.len() {
                    OpenOutcome::Opened(shards[idx].clone())
                } else {
                    OpenOutcome::NotFound
                };
                match it.rotate_file(outcome) {
                    Ok(()) => {}
                    Err(e) => errors.push(e),
                }
            }
            ShardPull::Done => {
                clean = true;
                break;
            }
        }
        if docs.len() + errors.len() > 100 {
            panic!("runaway sequence");
        }
    }
    (docs, errors, clean)
}

#[test]
fn test_shard_concatenation() {
    let shards = vec![
        shard_bytes(&["a1", "a2"]),
        shard_bytes(&["b1"]),
        shard_bytes(&["c1", "c2", "c3"]),
    ];
    let (docs, errors, clean) = run_shards(0, shards);
    assert!(clean);
    assert!(errors.is_empty());
    let contents: Vec<&str> = docs.iter().map(|d| d.content().as_str()).collect();
    assert_eq!(contents, vec!["a1", "a2", "b1", "c1", "c2", "c3"]);
}

#[test]
fn test_shard_concatenation_nonzero_start() {
    let shards = vec![shard_bytes(&["x"]), shard_bytes(&["y"])];
    let (docs, errors, clean) = run_shards(7, shards);
    assert!(clean);
    assert!(errors.is_empty());
    assert_eq!(docs.len(), 2);
}

#[test]
fn test_first_shard_missing_is_fatal() {
    let mut it = SplitFileIter::new(String::new(), "shard_", "", ".jsonl", 0);
    match it.next() {
        ShardPull::NeedOpen(0) => {}
        _ => panic!("expected a request for shard 0"),
    }
    match it.rotate_file(OpenOutcome::NotFound) {
        Err(Error::ShardNotFound(_)) => {}
        x => panic!("wrong return: {:?}", x),
    }
    // the sequence ends after the fatal error, never a silent empty run
    match it.next() {
        ShardPull::Done => {}
        _ => panic!("expected the sequence to be over"),
    }
}

#[test]
fn test_shard_open_failure_is_fatal() {
    let mut it = SplitFileIter::new(String::new(), "shard_", "", ".jsonl", 0);
    it.next();
    match it.rotate_file(OpenOutcome::OtherError("permission denied".to_string())) {
        Err(Error::IoFailure(_)) => {}
        x => panic!("wrong return: {:?}", x),
    }
}

#[test]
fn test_shard_filename() {
    let it = SplitFileIter::new("corpus".to_string(), "part_", "_of_many", ".jsonl", 42);
    assert_eq!(it.shard_filename().as_str(), "part_42_of_many.jsonl");
}

#[test]
fn test_folder_empty_input() {
    let entries = vec![("corpus/sub".to_string(), false)];
    match SplitFolderFileIter::new(&entries) {
        Err(Error::EmptyInput(_)) => {}
        Err(e) => panic!("wrong error: {:?}", e),
        Ok(_) => panic!("an empty-input error was expected"),
    }
}

#[test]
fn test_folder_sorted_deterministically() {
    let entries = vec![
        ("corpus/b.jsonl".to_string(), true),
        ("corpus/a.jsonl".to_string(), true),
        ("corpus/c.jsonl".to_string(), true),
    ];
    let mut it = SplitFolderFileIter::new(&entries).unwrap();
    match it.next() {
        FolderPull::NeedOpen(p) => assert_eq!(p.as_str(), "corpus/a.jsonl"),
        _ => panic!("expected a request for the first file"),
    }
    assert_eq!(it.progress(), (0, 3));
}

#[test]
fn test_folder_unreadable_middle_file() {
    let entries = vec![
        ("corpus/1.jsonl".to_string(), true),
        ("corpus/2.jsonl".to_string(), true),
        ("corpus/3.jsonl".to_string(), true),
    ];
    let mut it = SplitFolderFileIter::new(&entries).unwrap();
    let mut docs = Vec::new();
    let mut errors = Vec::new();
    loop {
        match it.next() {
            FolderPull::Item(Ok(d)) => docs.push(d),
            FolderPull::Item(Err(e)) => errors.push(e),
            FolderPull::NeedOpen(p) => {
                let outcome = if p.as_str() == "corpus/2.jsonl" {
                    FolderOpenOutcome::Failed("unreadable".to_string())
                } else if p.as_str() == "corpus/1.jsonl" {
                    FolderOpenOutcome::Opened(shard_bytes(&["f1a", "f1b"]))
                } else {
                    FolderOpenOutcome::Opened(shard_bytes(&["f3a"]))
                };
                match it.open_next_file(outcome) {
                    Some(Ok(())) => {}
                    Some(Err(e)) => errors.push(e),
                    None => panic!("a queued file was expected"),
                }
            }
            FolderPull::Done => break,
        }
        if docs.len() + errors.len() > 100 {
            panic!("runaway sequence");
        }
    }
    // documents from file 1, one error item, then documents from
    // file 3: file 3's content is never silently dropped
    let contents: Vec<&str> = docs.iter().map(|d| d.content().as_str()).collect();
    assert_eq!(contents, vec!["f1a", "f1b", "f3a"]);
    assert_eq!(errors.len(), 1);
    assert!(matches!(errors[0], Error::IoFailure(_)));
    assert_eq!(it.progress(), (2, 3));
}

#[test]
fn test_folder_single_file() {
    let entries = vec![("corpus/only.jsonl".to_string(), true)];
    let mut it = SplitFolderFileIter::new(&entries).unwrap();
    match it.next() {
        FolderPull::NeedOpen(p) => assert_eq!(p.as_str(), "corpus/only.jsonl"),
        _ => panic!("expected a request for the single file"),
    }
    it.open_next_file(FolderOpenOutcome::Opened(shard_bytes(&["solo"]))).unwrap().unwrap();
    match it.next() {
        FolderPull::Item(Ok(d)) => assert_eq!(d.content().as_str(), "solo"),
        _ => panic!("expected the single document"),
    }
    match it.next() {
        FolderPull::Done => {}
        _ => panic!("expected the clean end"),
    }
}

use chrommydoggymommy::checkpoint::{Checkpoint, CheckpointEntry};
use chrommydoggymommy::digest::{algorithm_tag, program_digest};
use chrommydoggymommy::planning::{plan_program, Batch, ProgramPlan};
use std::collections::HashMap;

fn freq(pairs: &[(usize, usize)]) -> HashMap<usize, usize> {
    pairs.iter().cloned().collect()
}

fn entry(name: &str, runs: &[(usize, &[(usize, usize)])]) -> CheckpointEntry {
    CheckpointEntry {
        name: name.to_string(),
        frequency_map: runs.iter().map(|(p, f)| (*p, freq(f))).collect(),
    }
}

fn find<'a>(c: &'a Checkpoint, key: [u8; 32]) -> Option<&'a CheckpointEntry> {
    c.algorithms.iter().find(|(k, _)| *k == key).map(|(_, e)| e)
}

#[test]
fn digest_of_known_source() {
    let key = program_digest(b"abc");
    assert_eq!(algorithm_tag(&key), "ba7816bf");
    assert_eq!(key[31], 0xad);
}

#[test]
fn merge_adds_counts_of_shared_programs() {
    let a = Checkpoint {
        time: 5,
        algorithms: vec![([1; 32], entry("alg", &[(10, &[(3, 2)]), (20, &[(7, 1)])]))],
    };
    let b = Checkpoint {
        time: 9,
        algorithms: vec![
            ([1; 32], entry("renamed", &[(10, &[(3, 1), (4, 5)]), (30, &[(8, 2)])])),
            ([2; 32], entry("other", &[(10, &[(1, 1)])])),
        ],
    };
    let merged = chrommydoggymommy::checkpoint::merge_checkpoints(a, b, 77).unwrap();
    assert_eq!(merged.time, 77);
    assert_eq!(merged.algorithms.len(), 2);
    let shared = find(&merged, [1; 32]).unwrap();
    assert_eq!(shared.name, "alg");
    assert_eq!(shared.frequency_map[&10], freq(&[(3, 3), (4, 5)]));
    assert_eq!(shared.frequency_map[&20], freq(&[(7, 1)]));
    assert_eq!(shared.frequency_map[&30], freq(&[(8, 2)]));
    let other = find(&merged, [2; 32]).unwrap();
    assert_eq!(other.name, "other");
    assert_eq!(other.frequency_map[&10], freq(&[(1, 1)]));
}

#[test]
fn merge_with_empty_keeps_everything() {
    let a = Checkpoint { time: 1, algorithms: vec![([3; 32], entry("x", &[(5, &[(2, 2)])]))] };
    let merged = chrommydoggymommy::checkpoint::merge_checkpoints(a, Checkpoint::new(0), 4).unwrap();
    assert_eq!(merged.algorithms.len(), 1);
    assert_eq!(find(&merged, [3; 32]).unwrap().frequency_map[&5], freq(&[(2, 2)]));
}

#[test]
fn merge_that_overflows() {
    let a = Checkpoint { time: 1, algorithms: vec![([3; 32], entry("x", &[(5, &[(2, usize::MAX)])]))] };
    let b = Checkpoint { time: 1, algorithms: vec![([3; 32], entry("x", &[(5, &[(2, 1)])]))] };
    assert!(chrommydoggymommy::checkpoint::merge_checkpoints(a, b, 4).is_none());
}

#[test]
fn recording_runs_of_a_new_program() {
    let mut c = Checkpoint::new(3);
    assert!(c.record_runs([4; 32], "new".to_string(), 17, &freq(&[(9, 2), (11, 1)])));
    let e = find(&c, [4; 32]).unwrap();
    assert_eq!(e.name, "new");
    assert_eq!(e.frequency_map[&17], freq(&[(9, 2), (11, 1)]));
    assert_eq!(c.already_computed(&[4; 32], 17), Some(3));
    assert_eq!(c.already_computed(&[4; 32], 18), Some(0));
    assert_eq!(c.already_computed(&[5; 32], 17), Some(0));
}

#[test]
fn recording_runs_adds_to_what_is_there() {
    let mut c = Checkpoint { time: 0, algorithms: vec![([4; 32], entry("old", &[(17, &[(9, 1)])]))] };
    assert!(c.record_runs([4; 32], "ignored".to_string(), 17, &freq(&[(9, 2), (11, 1)])));
    let e = find(&c, [4; 32]).unwrap();
    assert_eq!(e.name, "old");
    assert_eq!(e.frequency_map[&17], freq(&[(9, 3), (11, 1)]));
    assert_eq!(c.already_computed(&[4; 32], 17), Some(4));
}

#[test]
fn recording_that_overflows_changes_nothing() {
    let mut c = Checkpoint { time: 0, algorithms: vec![([4; 32], entry("old", &[(17, &[(9, usize::MAX)])]))] };
    assert!(!c.record_runs([4; 32], "x".to_string(), 17, &freq(&[(9, 1)])));
    assert_eq!(find(&c, [4; 32]).unwrap().frequency_map[&17], freq(&[(9, usize::MAX)]));
}

#[test]
fn plan_skips_what_is_on_record() {
    let source = b"def sort(n): pass";
    let key = program_digest(source);
    let c = Checkpoint { time: 0, algorithms: vec![(key, entry("p", &[(100, &[(5, 60), (6, 40)])]))] };
    match plan_program(&c, source, 100, 100, 7) {
        Some(ProgramPlan::Skip { already }) => assert_eq!(already, 100),
        other => panic!("unexpected {other:?}"),
    }
}

#[test]
fn plan_runs_what_is_missing_in_batches() {
    let source = b"def sort(n): pass";
    let key = program_digest(source);
    let c = Checkpoint { time: 0, algorithms: vec![(key, entry("p", &[(100, &[(5, 60), (6, 15)])]))] };
    match plan_program(&c, source, 100, 100, 10) {
        Some(ProgramPlan::Run { key: k, remaining, batches, jobs }) => {
            assert_eq!(k, key);
            assert_eq!(remaining, 25);
            assert_eq!(jobs, 3);
            assert_eq!(
                batches,
                vec![
                    Batch { id: 0, iterations: 10 },
                    Batch { id: 1, iterations: 10 },
                    Batch { id: 2, iterations: 5 }
                ]
            );
        }
        other => panic!("unexpected {other:?}"),
    }
}

fn counts_of(c: &Checkpoint) -> Vec<([u8; 32], Vec<(usize, Vec<(usize, usize)>)>)> {
    let mut out: Vec<_> = c
        .algorithms
        .iter()
        .map(|(k, e)| {
            let mut runs: Vec<_> = e
                .frequency_map
                .iter()
                .map(|(p, f)| {
                    let mut f: Vec<_> = f.iter().map(|(a, b)| (*a, *b)).collect();
                    f.sort();
                    (*p, f)
                })
                .collect();
            runs.sort();
            (*k, runs)
        })
        .collect();
    out.sort();
    out
}

fn sample_pair() -> (Checkpoint, Checkpoint) {
    let a = Checkpoint {
        time: 5,
        algorithms: vec![([1; 32], entry("alg", &[(10, &[(3, 2)]), (20, &[(7, 1)])]))],
    };
    let b = Checkpoint {
        time: 9,
        algorithms: vec![
            ([1; 32], entry("renamed", &[(10, &[(3, 1), (4, 5)])])),
            ([2; 32], entry("other", &[(10, &[(1, 1)])])),
        ],
    };
    (a, b)
}

#[test]
fn merge_counts_do_not_depend_on_order() {
    let (a, b) = sample_pair();
    let ab = chrommydoggymommy::checkpoint::merge_checkpoints(a, b, 1).unwrap();
    let (a, b) = sample_pair();
    let ba = chrommydoggymommy::checkpoint::merge_checkpoints(b, a, 1).unwrap();
    assert_eq!(counts_of(&ab), counts_of(&ba));
    assert_eq!(find(&ab, [1; 32]).unwrap().name, "alg");
    assert_eq!(find(&ba, [1; 32]).unwrap().name, "renamed");
}

#[test]
fn checkpoint_with_a_program_filed_twice() {
    let c = Checkpoint { time: 0, algorithms: vec![([1; 32], entry("a", &[])), ([1; 32], entry("b", &[]))] };
    assert!(!c.is_wf());
    let (a, _) = sample_pair();
    assert!(a.is_wf());
    assert!(Checkpoint::new(0).is_wf());
}

use cordis::artifact::{ArtifactCache, ArtifactHash, CompiledArtifact, HostIdentity};
use cordis::digest::{hash_filename, hash_text};
use cordis::order::{TextMap, TextSet};
use cordis::policy::{ArtifactPolicy, WasmLimits};
use cordis::reload::{
    affected_targets, watch_roots, HmrError, ReloadPhase, ReloadReport, ReloadStatus,
    ReloadTracker, ReloadTransaction, WatchTarget,
};

fn hash(byte: u8) -> ArtifactHash {
    ArtifactHash([byte; 32])
}

fn artifact(byte: u8) -> CompiledArtifact<u8> {
    CompiledArtifact {
        hash: hash(byte),
        factory: None,
    }
}

/// Applies a batch of candidates and records the steps.
#[derive(Default)]
struct Runtime {
    events: Vec<String>,
    fail_replace: Option<String>,
    fail_restore: Option<String>,
}

impl Runtime {
    fn commit(
        &mut self,
        tracker: &mut ReloadTracker,
        candidates: &[(&str, u8)],
    ) -> ReloadReport {
        let mut map = TextMap::new();
        for (entry, byte) in candidates {
            map.insert((*entry).to_owned(), hash(*byte));
        }
        let mut transaction = ReloadTransaction::new(&tracker.current, &map);
        loop {
            match transaction.phase {
                ReloadPhase::Replacing(at) => {
                    let entry = transaction.items[at].entry.clone();
                    self.events.push(format!("replace:{entry}"));
                    let result = if self.fail_replace.as_deref() == Some(&entry) {
                        Err(HmrError::Apply(format!("{entry} trapped")).message())
                    } else {
                        Ok(())
                    };
                    transaction.replaced(result);
                }
                ReloadPhase::Restoring { at, .. } => {
                    let entry = transaction.items[at].entry.clone();
                    self.events.push(format!("restore:{entry}"));
                    let result = if self.fail_restore.as_deref() == Some(&entry) {
                        Err(HmrError::Apply(format!("{entry} restore failed")).message())
                    } else {
                        Ok(())
                    };
                    transaction.restored(result);
                }
                ReloadPhase::Finished { .. } => break,
            }
        }
        tracker.apply(&transaction);
        transaction.report()
    }
}

fn tracker(entries: &[(&str, u8)]) -> ReloadTracker {
    let mut tracker = ReloadTracker::new();
    for (entry, byte) in entries {
        tracker.track((*entry).to_owned(), format!("/{entry}.wasm"), hash(*byte));
    }
    tracker
}

#[test]
fn apply_failure_rolls_back_failed_and_prior_entries_in_reverse_order() {
    let mut runtime = Runtime {
        fail_replace: Some("b".to_owned()),
        ..Runtime::default()
    };
    let mut tracker = tracker(&[("a", 1), ("b", 1)]);
    let report = runtime.commit(&mut tracker, &[("a", 2), ("b", 2)]);
    assert!(!report.committed);
    assert_eq!(
        runtime.events,
        ["replace:a", "replace:b", "restore:b", "restore:a"]
    );
    assert_eq!(tracker.current.get("a"), Some(&ArtifactHash([1; 32])));
}

#[test]
fn rollback_failure_is_reported_without_touching_unaffected_entry() {
    let mut runtime = Runtime {
        fail_replace: Some("b".to_owned()),
        fail_restore: Some("a".to_owned()),
        ..Runtime::default()
    };
    let mut tracker = tracker(&[("a", 1), ("b", 1), ("z", 9)]);
    let report = runtime.commit(&mut tracker, &[("a", 2), ("b", 2)]);
    assert!(report
        .entries
        .iter()
        .any(|entry| matches!(entry.status, ReloadStatus::RollbackFailed(_))));
    assert!(!runtime.events.iter().any(|event| event.contains('z')));
}

#[test]
fn cache_is_bounded_lru_and_reports_hits() {
    let mut cache = ArtifactCache::new(2);
    cache.insert(artifact(1));
    cache.insert(artifact(2));
    assert!(cache.get(ArtifactHash([1; 32])).is_some());
    cache.insert(artifact(3));
    assert!(cache.get(ArtifactHash([2; 32])).is_none());
    assert_eq!(cache.metrics().hits, 1);
    assert_eq!(cache.metrics().evictions, 1);
    assert_eq!(cache.metrics().misses, 1);
}

#[test]
fn unchanged_hash_is_deduplicated_without_runtime_call() {
    let mut runtime = Runtime::default();
    let mut tracker = tracker(&[("a", 1)]);
    let report = runtime.commit(&mut tracker, &[("a", 1)]);
    assert!(report.committed);
    assert!(matches!(report.entries[0].status, ReloadStatus::Unchanged));
    assert!(runtime.events.is_empty());
}

#[test]
fn a_committed_batch_becomes_current() {
    let mut runtime = Runtime::default();
    let mut tracker = tracker(&[("a", 1), ("b", 1)]);
    let report = runtime.commit(&mut tracker, &[("b", 3)]);
    assert!(report.committed);
    assert_eq!(report.entries[0].previous, hash(1));
    assert_eq!(report.entries[0].candidate, Some(hash(3)));
    assert_eq!(report.entries[0].status, ReloadStatus::Updated);
    assert_eq!(tracker.current.get("a"), Some(&hash(1)));
    assert_eq!(tracker.current.get("b"), Some(&hash(3)));
}

#[test]
fn half_written_or_bad_component_fails_before_apply() {
    let mut tracker = ReloadTracker::new();
    tracker.track("a".to_owned(), "/plugin.wasm".to_owned(), hash(1));
    let mut changed = TextSet::new();
    changed.insert("/plugin.wasm".to_owned());
    let mut failures = TextMap::new();
    failures.insert("/plugin.wasm".to_owned(), "half-written".to_owned());
    let report = tracker.preflight_failure_report(&changed, &failures);
    assert!(!report.committed);
    assert!(matches!(report.entries[0].status, ReloadStatus::Failed(_)));
    assert_eq!(tracker.current.get("a"), Some(&hash(1)));
}

#[test]
fn prepared_paths_become_candidates_of_their_entries() {
    let mut tracker = ReloadTracker::new();
    tracker.track("a".to_owned(), "/x.wasm".to_owned(), hash(1));
    tracker.track("b".to_owned(), "/x.wasm".to_owned(), hash(1));
    tracker.track("c".to_owned(), "/y.wasm".to_owned(), hash(1));
    assert_eq!(tracker.tracked_paths().len(), 2);
    let mut prepared = TextMap::new();
    prepared.insert("/x.wasm".to_owned(), hash(5));
    let candidates = tracker.candidates(&prepared);
    assert_eq!(candidates.len(), 2);
    assert_eq!(candidates.get("b"), Some(&hash(5)));
    assert_eq!(tracker.untrack("c"), Some(hash(1)));
    assert_eq!(tracker.untrack("c"), None);
    assert_eq!(tracker.tracked_paths().len(), 1);
}

#[test]
fn watcher_targets_parent_rename_events_and_deduplicates_paths() {
    let target = "/plugins/plugin.wasm".to_owned();
    let parent = "/plugins".to_owned();
    let paths = affected_targets(
        &vec![target.clone(), target.clone(), parent.clone()],
        &vec![WatchTarget {
            path: target.clone(),
            parent: Some(parent),
        }],
    );
    assert_eq!(paths.items, [target]);
    let none = affected_targets(
        &vec!["/elsewhere".to_owned()],
        &vec![WatchTarget {
            path: "/plugins/plugin.wasm".to_owned(),
            parent: Some("/plugins".to_owned()),
        }],
    );
    assert_eq!(none.len(), 0);
}

#[test]
fn fingerprints_are_blake3_digests_of_everything_that_matters() {
    assert_eq!(
        ArtifactHash(hash_text("abc")).text(),
        "6437b3ac38465133ffb63b75273a8db548c558465d79db03fd359c6cd5bd9d85"
    );
    assert_eq!(hash_text("abc"), *blake3::hash(b"abc").as_bytes());
    assert_eq!(
        hash_filename(&hash_text("")),
        "af1349b9f5f9a1a6a0404dea36dcc9499bcb25c9adc112b7cc9a93cae41f3262.cwasm"
    );
    let host = HostIdentity {
        version: "0.1.0".to_owned(),
        arch: "x86_64".to_owned(),
        os: "linux".to_owned(),
    };
    let other = HostIdentity {
        version: "0.2.0".to_owned(),
        ..host.clone()
    };
    let policy = ArtifactPolicy::default();
    let limits = WasmLimits::default();
    let tight = WasmLimits {
        max_tables: 1,
        ..WasmLimits::default()
    };
    let first = ArtifactHash::from_bytes(b"module", &host, &policy, &limits);
    assert_eq!(
        first,
        ArtifactHash::from_bytes(b"module", &host, &policy, &limits)
    );
    assert_ne!(
        first,
        ArtifactHash::from_bytes(b"module2", &host, &policy, &limits)
    );
    assert_ne!(
        first,
        ArtifactHash::from_bytes(b"module", &other, &policy, &limits)
    );
    assert_ne!(
        first,
        ArtifactHash::from_bytes(b"module", &host, &policy, &tight)
    );
}

#[test]
fn reload_errors_say_which_stage_failed() {
    assert_eq!(
        HmrError::Preflight("x".to_owned()).message(),
        "artifact preflight failed: x"
    );
    assert_ne!(
        HmrError::Apply("x".to_owned()).message(),
        HmrError::Watch("x".to_owned()).message()
    );
}

#[test]
fn only_tracked_changes_are_prepared() {
    let mut tracker = ReloadTracker::new();
    tracker.track("a".to_owned(), "/a.wasm".to_owned(), hash(1));
    tracker.track("b".to_owned(), "/b.wasm".to_owned(), hash(1));
    let mut changed = TextSet::new();
    for path in ["/b.wasm", "/other.wasm", "/a.wasm"] {
        changed.insert(path.to_owned());
    }
    assert_eq!(tracker.to_prepare(&changed), ["/a.wasm", "/b.wasm"]);

    let mut outcomes = TextMap::new();
    outcomes.insert("/a.wasm".to_owned(), Ok(hash(2)));
    outcomes.insert("/b.wasm".to_owned(), Ok(hash(3)));
    let Ok(candidates) = tracker.preflight(&changed, outcomes) else {
        panic!("everything was prepared");
    };
    assert_eq!(candidates.len(), 2);
    assert_eq!(candidates.get("a"), Some(&hash(2)));
    assert_eq!(candidates.get("b"), Some(&hash(3)));

    let mut outcomes = TextMap::new();
    outcomes.insert("/a.wasm".to_owned(), Ok(hash(2)));
    outcomes.insert("/b.wasm".to_owned(), Err("broken".to_owned()));
    let Err(report) = tracker.preflight(&changed, outcomes) else {
        panic!("one artifact is broken");
    };
    assert!(!report.committed);
    assert_eq!(report.entries.len(), 2);
    assert_eq!(report.entries[0].status, ReloadStatus::Unchanged);
    assert_eq!(
        report.entries[1].status,
        ReloadStatus::Failed("broken".to_owned())
    );
}

#[test]
fn directories_are_watched_once() {
    let target = |path: &str, parent: Option<&str>| WatchTarget {
        path: path.to_owned(),
        parent: parent.map(str::to_owned),
    };
    let roots = watch_roots(&vec![
        target("/x/a", Some("/x")),
        target("/y/c", Some("/y")),
        target("/x/b", Some("/x")),
        target("/", None),
    ]);
    assert_eq!(roots.items, ["/x", "/y"]);
}

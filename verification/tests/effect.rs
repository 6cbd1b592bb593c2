use cordis::effect::{child_result, panic_error, DisposeAction, DisposeReport, Disposer, EffectTree, Inverse};
use cordis::error::CordisError;
use cordis::id::{EffectId, IdSource};
use cordis::tracking::{TrackedList, TrackedMap};

fn tree(label: &str) -> (IdSource, EffectTree<u32>, EffectId) {
    let mut ids = IdSource::new();
    let tree = EffectTree::new(&mut ids, label.to_owned());
    let root = tree.nodes[0].id;
    (ids, tree, root)
}

fn run(
    tree: &mut EffectTree<u32>,
    effect: EffectId,
    step: &mut dyn FnMut(u32) -> Result<(), CordisError>,
) -> DisposeReport {
    while let Some(inverse) = tree.next_inverse(effect) {
        let result = match inverse {
            Inverse::Step(disposer) => step(disposer.run()),
            Inverse::Child(child) => child_result(child, dispose(tree, child, step)),
        };
        tree.record_result(effect, result);
    }
    tree.finish(effect)
}

fn dispose(
    tree: &mut EffectTree<u32>,
    effect: EffectId,
    step: &mut dyn FnMut(u32) -> Result<(), CordisError>,
) -> DisposeReport {
    match tree.dispose(effect) {
        DisposeAction::Run => run(tree, effect, step),
        DisposeAction::Complete(report) => report,
        DisposeAction::Wait => panic!("nobody else disposes"),
    }
}

#[test]
fn dispose_is_idempotent() {
    let (_, mut tree, root) = tree("test");
    let mut calls = 0;
    tree.defer(root, Disposer::new(1)).unwrap();

    let mut step = |_| {
        calls += 1;
        Ok(())
    };
    assert!(dispose(&mut tree, root, &mut step).is_ok());
    assert!(dispose(&mut tree, root, &mut step).is_ok());
    assert_eq!(calls, 1);
}

#[test]
fn disposers_run_in_lifo_order() {
    let (_, mut tree, root) = tree("test");
    let mut sequence = Vec::new();
    for value in 1..=3 {
        tree.defer(root, Disposer::new(value)).unwrap();
    }

    dispose(&mut tree, root, &mut |value| {
        sequence.push(value);
        Ok(())
    })
    .unwrap();
    assert_eq!(sequence, vec![3, 2, 1]);
}

#[test]
fn concurrent_dispose_waits_for_the_same_cleanup() {
    let (_, mut tree, root) = tree("test");
    tree.defer(root, Disposer::new(1)).unwrap();
    assert!(matches!(tree.dispose(root), DisposeAction::Run));
    assert!(matches!(tree.next_inverse(root), Some(Inverse::Step(_))));

    assert!(matches!(tree.dispose(root), DisposeAction::Wait));
    tree.record_result(root, Ok(()));
    assert!(tree.next_inverse(root).is_none());
    assert_eq!(tree.finish(root), Ok(()));
    assert!(matches!(tree.dispose(root), DisposeAction::Complete(Ok(()))));
    assert!(tree.is_disposed(root));
}

#[test]
fn failures_do_not_skip_remaining_disposers() {
    let (_, mut tree, root) = tree("test");
    let mut sequence = Vec::new();
    for value in 1..=3 {
        tree.defer(root, Disposer::new(value)).unwrap();
    }
    let mut step = |value| match value {
        1 => {
            sequence.push("first");
            Ok(())
        }
        2 => Err(CordisError::DisposerFailed {
            message: "expected".to_owned(),
        }),
        _ => {
            sequence.push("last");
            Ok(())
        }
    };

    let report = dispose(&mut tree, root, &mut step).unwrap_err();
    assert_eq!(report.errors().len(), 1);
    assert_eq!(report.message(), "1 disposer(s) failed");
    assert_eq!(dispose(&mut tree, root, &mut step), Err(report));
    assert_eq!(sequence, vec!["last", "first"]);
}

#[test]
fn disposer_panics_are_reported_and_cleanup_continues() {
    let (_, mut tree, root) = tree("test");
    let mut calls = 0;
    tree.defer(root, Disposer::new(1)).unwrap();
    tree.defer(root, Disposer::new(2)).unwrap();

    let report = dispose(&mut tree, root, &mut |value| {
        if value == 2 {
            return Err(panic_error(Some("expected panic".to_owned())));
        }
        calls += 1;
        Ok(())
    })
    .unwrap_err();
    assert_eq!(report.errors().len(), 1);
    assert!(matches!(
        &report.errors()[0],
        CordisError::DisposerPanic { message } if message == "expected panic"
    ));
    assert_eq!(calls, 1);
    assert_eq!(
        panic_error(None).message(),
        "effect disposer panicked: non-string panic payload"
    );
}

#[test]
fn inactive_effect_rejects_new_disposers() {
    let (mut ids, mut tree, root) = tree("test");
    dispose(&mut tree, root, &mut |_| Ok(())).unwrap();
    assert_eq!(
        tree.defer(root, Disposer::new(1)),
        Err(CordisError::InactiveEffect { effect: root })
    );
    assert_eq!(
        tree.child(&mut ids, root, "late".to_owned()),
        Err(CordisError::InactiveEffect { effect: root })
    );
}

#[test]
fn stream_disposal_waits_for_the_in_flight_item() {
    let (_, mut tree, root) = tree("stream");
    tree.begin_runner(root);
    assert!(matches!(tree.dispose(root), DisposeAction::Wait));
    assert!(!tree.runner_should_continue(root));
    assert!(!tree.is_disposed(root));

    assert!(!tree.defer_from_runner(root, Disposer::new(1)));
    tree.end_runner(root);
    let mut calls = 0;
    dispose(&mut tree, root, &mut |_| {
        calls += 1;
        Ok(())
    })
    .unwrap();
    assert_eq!(calls, 1);
}

#[test]
fn stream_disposers_keep_lifo_order() {
    let (_, mut tree, root) = tree("stream");
    let mut sequence = Vec::new();
    tree.begin_runner(root);
    for value in 1..=3 {
        assert!(tree.runner_should_continue(root));
        assert!(tree.defer_from_runner(root, Disposer::new(value)));
    }
    tree.end_runner(root);

    dispose(&mut tree, root, &mut |value| {
        sequence.push(value);
        Ok(())
    })
    .unwrap();
    assert_eq!(sequence, vec![3, 2, 1]);
}

#[test]
fn stream_error_triggers_disposal() {
    let error = CordisError::DisposerFailed {
        message: "stream failed".to_owned(),
    };
    let (_, mut tree, root) = tree("stream");
    tree.begin_runner(root);
    tree.record_runner_error(root, error.duplicate());
    tree.end_runner(root);

    let report = dispose(&mut tree, root, &mut |_| Ok(())).unwrap_err();
    assert_eq!(report.errors(), &vec![error]);
}

#[test]
fn nested_effects_are_visible_and_disposed() {
    let (mut ids, mut tree, parent) = tree("parent");
    let child = tree.child(&mut ids, parent, "child".to_owned()).unwrap();
    tree.defer(child, Disposer::new(1)).unwrap();
    let metadata = tree.metadata(parent);
    assert_eq!(metadata.label, "parent");
    assert_eq!(metadata.children.len(), 1);
    assert_eq!(metadata.children[0].label, "child");

    let mut calls = 0;
    dispose(&mut tree, parent, &mut |_| {
        calls += 1;
        Ok(())
    })
    .unwrap();
    assert_eq!(calls, 1);
    assert!(!tree.is_armed(child));
}

#[test]
fn effect_set_owns_top_level_effects() {
    let (mut ids, mut tree, set) = tree("fiber");
    let first = tree.child(&mut ids, set, "first".to_owned()).unwrap();
    let second = tree.child(&mut ids, set, "second".to_owned()).unwrap();
    tree.defer(first, Disposer::new(1)).unwrap();
    tree.defer(second, Disposer::new(2)).unwrap();
    let mut sequence = Vec::new();
    let mut step = |value| {
        sequence.push(value);
        Ok(())
    };

    assert_eq!(tree.metadata(set).children.len(), 2);
    dispose(&mut tree, first, &mut step).unwrap();
    assert_eq!(tree.metadata(set).children.len(), 1);

    dispose(&mut tree, set, &mut step).unwrap();
    assert_eq!(sequence, vec![1, 2]);
    assert!(matches!(
        tree.child(&mut ids, set, "late".to_owned()),
        Err(CordisError::InactiveEffect { .. })
    ));
}

#[test]
fn a_failing_child_fails_its_parent_with_all_errors() {
    let (mut ids, mut tree, parent) = tree("parent");
    let child = tree.child(&mut ids, parent, "child".to_owned()).unwrap();
    tree.defer(child, Disposer::new(1)).unwrap();
    let report = dispose(&mut tree, parent, &mut |_| {
        Err(CordisError::RuntimeClosed)
    })
    .unwrap_err();
    assert_eq!(
        report.errors(),
        &vec![CordisError::ChildEffectFailed {
            effect: child,
            errors: vec![CordisError::RuntimeClosed],
        }]
    );
}

#[test]
fn equal_values_are_removed_by_registration_identity() {
    let mut ids = IdSource::new();
    let first = EffectId(1);
    let second = EffectId(2);
    let mut list = TrackedList::new();
    let first_id = list.insert(&mut ids, first, true, "same").unwrap();
    let second_id = list.insert(&mut ids, second, true, "same").unwrap();
    assert_ne!(first_id, second_id);
    list.remove(first_id);
    assert_eq!(list.snapshot(), &vec![(second_id, "same")]);
    assert_eq!(list.len(), 1);
    list.remove(second_id);
    assert!(list.is_empty());
    assert_eq!(
        list.insert(&mut ids, second, false, "late"),
        Err(CordisError::InactiveEffect { effect: second })
    );
}

#[test]
fn equal_map_keys_keep_independent_registrations() {
    let mut ids = IdSource::new();
    let mut map = TrackedMap::new();
    let first = map
        .insert(&mut ids, EffectId(1), true, 5u64, 1)
        .unwrap();
    let remaining = map
        .insert(&mut ids, EffectId(2), true, 5u64, 2)
        .unwrap();
    map.insert(&mut ids, EffectId(2), true, 6u64, 3).unwrap();
    map.remove(first);
    assert_eq!(map.snapshot(&5u64), vec![(remaining, &2)]);
}

use vlur::lazy::FireAction;
use vlur::lazy::LazyRegistry;
use vlur::lazy::event::AutoCommand;
use vlur::lazy::event::Event;
use vlur::lazy::event::replay_candidates;

// Lazy dedup: two triggers of different kinds for one package id; firing
// either one loads exactly once, and the other trigger's cancel handle
// comes back so it can be stopped.
#[test]
fn fire_loads_once_and_cancels_siblings() {
    let mut reg = LazyRegistry::new();
    let id = "pkg".to_string();
    reg.register(&id, 1); // an event-class trigger
    reg.register(&id, 2); // a trigger of a second kind
    assert!(matches!(reg.fire(&id), FireAction::Load));
    // A near-simultaneous second fire is a no-op.
    assert!(matches!(reg.fire(&id), FireAction::Ignore));
    let stops = reg.complete(&id);
    assert_eq!(stops, vec![1, 2]);
    // The entry is gone: firing the now-cancelled sibling stays inert.
    assert!(matches!(reg.fire(&id), FireAction::Ignore));
}

#[test]
fn fire_unknown_id_is_ignored() {
    let mut reg = LazyRegistry::new();
    let id = "nobody".to_string();
    assert!(matches!(reg.fire(&id), FireAction::Ignore));
    assert_eq!(reg.complete(&id), Vec::<u64>::new());
}

// Event replay: with one pre-existing callback and one callback the
// loader registered for the same event, only the new callback is
// replayed, exactly once.
#[test]
fn replay_fires_only_the_new_callback() {
    let existing = AutoCommand {
        id: Some(1),
        group: None,
        callback: 10,
    };
    let before = vec![existing];
    let new = AutoCommand {
        id: Some(2),
        group: None,
        callback: 20,
    };
    let after = vec![
        AutoCommand {
            id: Some(1),
            group: None,
            callback: 10,
        },
        new,
    ];
    let r = replay_candidates(&before, &after);
    assert_eq!(r.len(), 1);
    assert_eq!(r[0].id, Some(2));
    assert_eq!(r[0].callback, 20);
}

#[test]
fn replay_skips_duplicates_and_groups() {
    let before = vec![
        AutoCommand {
            id: None,
            group: Some(5),
            callback: 1,
        },
        AutoCommand {
            id: Some(3),
            group: None,
            callback: 2,
        },
    ];
    let after = vec![
        // Structurally identical to a pre-existing callback: skipped.
        AutoCommand {
            id: None,
            group: Some(5),
            callback: 1,
        },
        // Pre-existing id: skipped.
        AutoCommand {
            id: Some(3),
            group: None,
            callback: 9,
        },
        // Fresh group: replayed, and its group is taken.
        AutoCommand {
            id: None,
            group: Some(8),
            callback: 30,
        },
        // Same fresh group again: one representative only.
        AutoCommand {
            id: None,
            group: Some(8),
            callback: 31,
        },
        // Group seen before the load: skipped.
        AutoCommand {
            id: None,
            group: Some(5),
            callback: 32,
        },
    ];
    let r = replay_candidates(&before, &after);
    assert_eq!(r.len(), 1);
    assert_eq!(r[0].callback, 30);
}

#[test]
fn event_new_defaults_pattern() {
    let e = Event::new(vec!["BufRead".to_string()], None);
    assert_eq!(e.pattern.len(), 1);
    assert_eq!(e.pattern[0].as_str(), "*");
    let e2 = Event::new(
        vec!["BufRead".to_string()],
        Some(vec!["*.rs".to_string()]),
    );
    assert_eq!(e2.pattern[0].as_str(), "*.rs");
}

#[test]
fn event_start_and_stop() {
    let mut e = Event::new(vec!["User".to_string()], None);
    let req = e.start();
    assert!(req.once);
    assert_eq!(req.event[0].as_str(), "User");
    e.started(42);
    e.started(43);
    let ids = e.stop();
    assert_eq!(ids, vec![42, 43]);
    assert_eq!(e.stop(), Vec::<i64>::new());
}

use activity_notifier::activity::{ActivityKind, ProcessInfo};
use activity_notifier::tracker::{ActivityTracker, CompletionNotice};

fn proc(name: &str, pid: u64, args: &[&str]) -> ProcessInfo {
    ProcessInfo {
        name: name.to_string(),
        pid,
        args: args.iter().map(|s| s.to_string()).collect(),
    }
}

fn build_proc(pid: u64) -> ProcessInfo {
    proc("qtcreator_ctrlc_stub.exe", pid, &["--build", "C:/proj/x"])
}

fn deploy_proc(pid: u64) -> ProcessInfo {
    proc("jinnee-utility.exe", pid, &["--deploy_stand"])
}

const TAIL: &str = "\nWhen action have been completed you will be notified";

#[test]
fn subscribe_then_observe_completions() {
    let mut tracker = ActivityTracker::new();
    let snap1 = vec![build_proc(1), deploy_proc(2)];
    let msg = tracker.subscribe(7, &snap1);
    assert_eq!(
        msg,
        Some(format!("There are several running actions{}", TAIL))
    );
    assert_eq!(tracker.subscriber_count(), 1);

    let snap2 = vec![deploy_proc(2)];
    let notices = tracker.poll(&snap2);
    assert_eq!(notices.len(), 1);
    assert_eq!(notices[0].chat, 7);
    assert_eq!(notices[0].pid, 1);
    assert_eq!(notices[0].kind, ActivityKind::Build);
    assert_eq!(notices[0].description, Some("C:/proj/x".to_string()));

    let stored = tracker.stored_actions(7).unwrap();
    assert_eq!(stored.len(), 1);
    assert_eq!(stored[0].pid, 2);
    assert_eq!(stored[0].kind, ActivityKind::Deploy);

    let notices = tracker.poll(&Vec::new());
    assert_eq!(notices.len(), 1);
    assert_eq!(notices[0].chat, 7);
    assert_eq!(notices[0].pid, 2);
    assert_eq!(notices[0].kind, ActivityKind::Deploy);
    assert!(tracker.stored_actions(7).is_none());
    assert_eq!(tracker.subscriber_count(), 0);
}

#[test]
fn subscribe_names_a_single_activity() {
    let mut tracker = ActivityTracker::new();
    let msg = tracker.subscribe(3, &vec![deploy_proc(2)]);
    assert_eq!(msg, Some(format!("Current action: Deploy{}", TAIL)));
}

#[test]
fn subscribe_without_activity_stores_nothing() {
    let mut tracker = ActivityTracker::new();
    let msg = tracker.subscribe(3, &vec![proc("bash", 1, &[])]);
    assert_eq!(msg, None);
    assert_eq!(tracker.subscriber_count(), 0);
}

#[test]
fn resubscribing_replaces_the_snapshot() {
    let mut tracker = ActivityTracker::new();
    tracker.subscribe(3, &vec![build_proc(1)]);
    tracker.subscribe(3, &vec![deploy_proc(2)]);
    assert_eq!(tracker.subscriber_count(), 1);
    let stored = tracker.stored_actions(3).unwrap();
    assert_eq!(stored.len(), 1);
    assert_eq!(stored[0].pid, 2);
}

#[test]
fn duplicate_pids_keep_the_last_observation() {
    let mut tracker = ActivityTracker::new();
    let snap = vec![
        proc("qtcreator_ctrlc_stub.exe", 5, &["--build", "C:/a"]),
        proc("qtcreator_ctrlc_stub.exe", 5, &["--build", "C:/b"]),
    ];
    tracker.subscribe(3, &snap);
    let stored = tracker.stored_actions(3).unwrap();
    assert_eq!(stored.len(), 1);
    assert_eq!(stored[0].description, Some("C:/b".to_string()));
}

#[test]
fn completion_message_texts() {
    let with_path = CompletionNotice {
        chat: 1,
        pid: 2,
        kind: ActivityKind::Build,
        description: Some("C:/x".to_string()),
    };
    assert_eq!(with_path.message(), "Build completed, path = `\"C:/x\"`");

    let bare = CompletionNotice {
        chat: 1,
        pid: 2,
        kind: ActivityKind::Deploy,
        description: None,
    };
    assert_eq!(bare.message(), "Deploy completed");
}

#[test]
fn auto_notify_announces_new_activities() {
    let mut tracker = ActivityTracker::new();
    let snap = vec![build_proc(1)];
    let msgs = tracker.auto_notify(9, &snap);
    assert_eq!(msgs, vec!["New action: Build\nPath: C:/proj/x".to_string()]);
    // The owner's snapshot was refreshed as a subscription would be.
    let stored = tracker.stored_actions(9).unwrap();
    assert_eq!(stored.len(), 1);
    assert_eq!(stored[0].pid, 1);

    // A known activity is not announced again.
    let msgs = tracker.auto_notify(9, &snap);
    assert_eq!(msgs.len(), 0);
}

#[test]
fn auto_notify_without_description() {
    let mut tracker = ActivityTracker::new();
    let msgs = tracker.auto_notify(9, &vec![deploy_proc(4)]);
    assert_eq!(msgs, vec!["New action: Deploy\nPath: ".to_string()]);
}

#[test]
fn new_activity_is_not_completed_in_the_same_tick() {
    let mut tracker = ActivityTracker::new();
    let snap = vec![build_proc(1)];
    let (new_msgs, completions) = tracker.process_check_timer(9, true, &snap);
    assert_eq!(new_msgs.len(), 1);
    assert_eq!(completions.len(), 0);

    // Only once the activity disappears is it reported completed.
    let (new_msgs, completions) = tracker.process_check_timer(9, true, &Vec::new());
    assert_eq!(new_msgs.len(), 0);
    assert_eq!(completions.len(), 1);
    assert_eq!(completions[0].chat, 9);
    assert_eq!(completions[0].pid, 1);
}

#[test]
fn tick_without_auto_notify_only_diffs() {
    let mut tracker = ActivityTracker::new();
    tracker.subscribe(7, &vec![build_proc(1)]);
    let (new_msgs, completions) = tracker.process_check_timer(9, false, &Vec::new());
    assert_eq!(new_msgs.len(), 0);
    assert_eq!(completions.len(), 1);
    assert_eq!(completions[0].chat, 7);
}

#[test]
fn process_message_replies() {
    let mut tracker = ActivityTracker::new();
    let help = tracker.process_message(5, "/help", &Vec::new());
    assert!(help.starts_with("This is a simple bot"));

    let idle = tracker.process_message(5, "/subscribe", &Vec::new());
    assert_eq!(idle, "There is no current action");
    assert_eq!(tracker.subscriber_count(), 0);

    let busy = tracker.process_message(5, "/subscribe", &vec![deploy_proc(2)]);
    assert_eq!(busy, format!("Current action: Deploy{}", TAIL));
    assert_eq!(tracker.subscriber_count(), 1);

    let unknown = tracker.process_message(5, "hi", &Vec::new());
    assert_eq!(unknown, format!("Unknown command: hi. \n{}", help));
}

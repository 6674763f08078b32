use activity_notifier::activity::{
    classify, get_activity_list, get_deploy_path, lcp, pop_char, ActivityKind, ObservedActivity,
    ProcessInfo,
};
use activity_notifier::process_messages::{get_string_help, Request};

fn proc(name: &str, pid: u64, args: &[&str]) -> ProcessInfo {
    ProcessInfo {
        name: name.to_string(),
        pid,
        args: args.iter().map(|s| s.to_string()).collect(),
    }
}

fn strings(args: &[&str]) -> Vec<String> {
    args.iter().map(|s| s.to_string()).collect()
}

fn same_activity(a: &ObservedActivity, b: &ObservedActivity) -> bool {
    a.pid == b.pid && a.kind == b.kind && a.description == b.description
}

#[test]
fn test_lcp() {
    assert_eq!(lcp("abcdef", "abcxyz"), "abc");
    assert_eq!(lcp("abcdef", "abcdef"), "abcdef");
    assert_eq!(lcp("abc", "abcdef"), "abc");
    assert_eq!(lcp("abc", "xyz"), "");
    assert_eq!(lcp("", ""), "");
    assert_eq!(lcp("abc", ""), "");
    assert_eq!(lcp("abc", "ab"), "ab");
}

#[test]
fn test_pop_char() {
    assert_eq!(pop_char("abc"), "ab");
    assert_eq!(pop_char("a"), "");
    assert_eq!(pop_char(""), "");
}

#[test]
fn deploy_descriptor_from_both_paths() {
    let args = strings(&[
        "--deploy_stand",
        "C:/root/deploy2\\config\\test.s3deploy",
        "--logs_dir",
        "C:/root/deploy2\\logs",
    ]);
    assert_eq!(get_deploy_path(&args), Some("C:/root/deploy2".to_string()));
}

#[test]
fn deploy_descriptor_from_single_paths() {
    let only_logs = strings(&["--logs_dir", "C:/x/logs"]);
    assert_eq!(get_deploy_path(&only_logs), Some("C:/x".to_string()));

    let only_stand = strings(&["--deploy_stand", "C:/r/config\\test.s3deploy"]);
    assert_eq!(get_deploy_path(&only_stand), Some("C:/r".to_string()));

    let forward = strings(&["--deploy_stand", "C:/r/config/test.s3deploy"]);
    assert_eq!(get_deploy_path(&forward), Some("C:/r".to_string()));

    let odd = strings(&["--deploy_stand", "C:/r/elsewhere"]);
    assert_eq!(get_deploy_path(&odd), None);

    let neither = strings(&["--other"]);
    assert_eq!(get_deploy_path(&neither), None);
}

#[test]
fn deploy_descriptor_takes_last_flag_occurrence() {
    let args = strings(&["--logs_dir", "C:/a/logs", "--logs_dir", "C:/b/logs"]);
    assert_eq!(get_deploy_path(&args), Some("C:/b".to_string()));
}

#[test]
fn classify_build_needs_build_value() {
    let with_value = vec![proc("qtcreator_ctrlc_stub.exe", 10, &["--build", "C:/proj/x.s3proj"])];
    let acts = classify(&with_value);
    assert_eq!(acts.len(), 1);
    assert_eq!(acts[0].pid, 10);
    assert_eq!(acts[0].kind, ActivityKind::Build);
    assert_eq!(acts[0].description, Some("C:/proj/x.s3proj".to_string()));

    let value_missing = vec![proc("qtcreator_ctrlc_stub.exe", 10, &["--build"])];
    assert_eq!(classify(&value_missing).len(), 0);

    let flag_missing = vec![proc("qtcreator_ctrlc_stub.exe", 10, &["--other"])];
    assert_eq!(classify(&flag_missing).len(), 0);
}

#[test]
fn classify_update_to_revision() {
    let full = vec![proc(
        "python.exe",
        11,
        &["C:/scripts/online-inside\\update_to_revisions.py"],
    )];
    let acts = classify(&full);
    assert_eq!(acts.len(), 1);
    assert_eq!(acts[0].kind, ActivityKind::UpdateToRevision);
    assert_eq!(acts[0].description, Some("C:/scripts/".to_string()));

    let partial = vec![proc("python", 11, &["update_to_revisions.py"])];
    let acts = classify(&partial);
    assert_eq!(acts.len(), 1);
    assert_eq!(acts[0].kind, ActivityKind::UpdateToRevision);
    assert_eq!(acts[0].description, None);

    let wrong_name = vec![proc("perl", 11, &["update_to_revisions.py"])];
    assert_eq!(classify(&wrong_name).len(), 0);
}

#[test]
fn classify_deploy() {
    let deploying = vec![proc(
        "jinnee-utility.exe",
        12,
        &["--deploy_stand", "C:/r/config/test.s3deploy"],
    )];
    let acts = classify(&deploying);
    assert_eq!(acts.len(), 1);
    assert_eq!(acts[0].kind, ActivityKind::Deploy);
    assert_eq!(acts[0].description, Some("C:/r".to_string()));

    let flag_missing = vec![proc("jinnee-utility.exe", 12, &["--other"])];
    assert_eq!(classify(&flag_missing).len(), 0);
}

#[test]
fn classify_module_manager() {
    let with_store = vec![proc("module-manager.exe", 14, &["--store", "S:/store"])];
    let acts = classify(&with_store);
    assert_eq!(acts.len(), 1);
    assert_eq!(acts[0].kind, ActivityKind::UpdateModuleManager);
    assert_eq!(acts[0].description, Some("S:/store".to_string()));

    let store_value_missing = vec![proc("module-manager.exe", 14, &["--store"])];
    let acts = classify(&store_value_missing);
    assert_eq!(acts.len(), 1);
    assert_eq!(acts[0].description, None);

    let no_store = vec![proc("module-manager.exe", 14, &[])];
    let acts = classify(&no_store);
    assert_eq!(acts.len(), 1);
    assert_eq!(acts[0].kind, ActivityKind::UpdateModuleManager);
    assert_eq!(acts[0].description, None);
}

#[test]
fn classify_ignores_unrelated_processes() {
    let procs = vec![proc("bash", 1, &["-c", "sleep 1"]), proc("init", 2, &[])];
    assert_eq!(classify(&procs).len(), 0);
}

#[test]
fn classify_is_pure() {
    let procs = vec![
        proc("qtcreator_ctrlc_stub.exe", 10, &["--build", "C:/p"]),
        proc("module-manager", 14, &["--store", "S:/s"]),
        proc("bash", 1, &[]),
    ];
    let r1 = classify(&procs);
    let r2 = classify(&procs);
    assert_eq!(r1.len(), r2.len());
    for k in 0..r1.len() {
        assert!(same_activity(&r1[k], &r2[k]));
    }
}

#[test]
fn activity_labels() {
    assert_eq!(ActivityKind::Build.label(), "Build");
    assert_eq!(ActivityKind::Deploy.label(), "Deploy");
    assert_eq!(ActivityKind::UpdateToRevision.label(), "Update to revisions");
    assert_eq!(
        ActivityKind::UpdateModuleManager.label(),
        "Update with module manager"
    );
}

#[test]
fn activity_list_from_this_host() {
    // The snapshot provider runs against whatever is on this machine;
    // the call must just return some classification.
    let _ = get_activity_list();
}

#[test]
fn request_parsing() {
    assert!(matches!(Request::new("/help"), Request::Help));
    assert!(matches!(Request::new("help"), Request::Help));
    assert!(matches!(Request::new("  /HELP please"), Request::Help));
    assert!(matches!(Request::new("///help"), Request::Help));
    assert!(matches!(Request::new("/check"), Request::Check));
    assert!(matches!(Request::new("ChEcK"), Request::Check));
    match Request::new("foo bar") {
        Request::UnknownRequest(c) => assert_eq!(c, "foo bar"),
        _ => panic!("expected an unrecognized request"),
    }
    match Request::new("") {
        Request::UnknownRequest(c) => assert_eq!(c, ""),
        _ => panic!("expected an unrecognized request"),
    }
    match Request::new("   ") {
        Request::UnknownRequest(c) => assert_eq!(c, "   "),
        _ => panic!("expected an unrecognized request"),
    }
}

#[test]
fn help_text() {
    assert_eq!(
        get_string_help(),
        "This is a simple bot for sbis build/deploy progress notification. List of supported commands:\n\t/help: prints help message.\n\t/subscribe: sends a notification when the build/deploy process completes.\n\t"
    );
}

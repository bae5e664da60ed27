use ksnotify::ci::CIKind;
use ksnotify::ci::MergeRequest;
use ksnotify::ci::CI;
use ksnotify::config::Config;
use ksnotify::notifier::reconcile;
use ksnotify::notifier::GitlabNotifier;
use ksnotify::notifier::LocalNotifier;
use ksnotify::notifier::Notifiable;
use ksnotify::notifier::Note;
use ksnotify::notifier::NotifyAction;
use ksnotify::template::Template;
use ksnotify::Error;

fn report_with_target(target: &str) -> Template {
    Template {
        target: Some(target.to_string()),
        created_kinds: Vec::new(),
        pruned_kinds: Vec::new(),
        configured_kinds: Vec::new(),
        details: String::new(),
        link: "https://example.com".to_string(),
        is_no_changes: true,
    }
}

#[test]
fn reconcile_without_thread_skips() {
    let report = report_with_target("T");
    let comments = vec![Note {
        id: 7,
        body: "## Plan result (T)\nolder".to_string(),
    }];
    assert_eq!(reconcile(None, &report, &comments, true), NotifyAction::Skip);
    assert_eq!(reconcile(None, &report, &comments, false), NotifyAction::Skip);
}

#[test]
fn reconcile_without_patch_always_creates() {
    let report = report_with_target("T");
    let comments = vec![Note {
        id: 7,
        body: "## Plan result (T)\nolder".to_string(),
    }];
    assert_eq!(
        reconcile(Some(5), &report, &comments, false),
        NotifyAction::Create
    );
}

#[test]
fn reconcile_with_patch_updates_the_first_match() {
    let report = report_with_target("T");
    let comments = vec![
        Note {
            id: 3,
            body: "unrelated".to_string(),
        },
        Note {
            id: 7,
            body: "## Plan result (T)\nolder".to_string(),
        },
        Note {
            id: 9,
            body: "## Plan result (T)\neven older".to_string(),
        },
    ];
    assert_eq!(
        reconcile(Some(5), &report, &comments, true),
        NotifyAction::Update(7)
    );
}

#[test]
fn reconcile_with_patch_creates_when_nothing_matches() {
    let report = report_with_target("T");
    let comments = vec![Note {
        id: 3,
        body: "## Plan result (other)".to_string(),
    }];
    assert_eq!(
        reconcile(Some(5), &report, &comments, true),
        NotifyAction::Create
    );
}

#[test]
fn fallback_uses_the_explicit_number_first() {
    let notifier = GitlabNotifier::new(
        42,
        MergeRequest {
            number: Some(12),
            commit_sha: "abcdef".to_string(),
        },
        "https://example.com/job".to_string(),
    );
    let found = vec![99, 100];
    let mr = notifier.merge_request().clone();
    assert_eq!(
        notifier.retrieve_merge_request_iid_with_fallback(&mr, &found),
        Ok(12)
    );
}

#[test]
fn fallback_takes_the_first_search_result() {
    let notifier = GitlabNotifier::new(
        42,
        MergeRequest {
            number: None,
            commit_sha: "abcdef".to_string(),
        },
        "https://example.com/job".to_string(),
    );
    let found = vec![99, 100];
    let mr = notifier.merge_request().clone();
    assert_eq!(
        notifier.retrieve_merge_request_iid_with_fallback(&mr, &found),
        Ok(99)
    );
}

#[test]
fn fallback_with_no_result_is_fatal() {
    let notifier = GitlabNotifier::new(
        42,
        MergeRequest {
            number: None,
            commit_sha: "abcdef".to_string(),
        },
        "https://example.com/job".to_string(),
    );
    let found: Vec<u64> = Vec::new();
    let mr = notifier.merge_request().clone();
    assert_eq!(
        notifier.retrieve_merge_request_iid_with_fallback(&mr, &found),
        Err(Error::NoMergeRequestFound)
    );
}

#[test]
fn same_build_comment_is_the_first_matching_one() {
    let notifier = GitlabNotifier::new(
        42,
        MergeRequest {
            number: Some(12),
            commit_sha: "abcdef".to_string(),
        },
        "https://example.com/job".to_string(),
    );
    let report = report_with_target("T");
    let comments = vec![
        Note {
            id: 3,
            body: "unrelated".to_string(),
        },
        Note {
            id: 7,
            body: "## Plan result (T)\nolder".to_string(),
        },
    ];
    let found = notifier
        .retrieve_same_build_comment(&report, &comments)
        .unwrap();
    assert_eq!(found.id, 7);
    assert_eq!(found.body, "## Plan result (T)\nolder".to_string());

    let none = notifier.retrieve_same_build_comment(&report, &Vec::new());
    assert!(none.is_none());
}

#[test]
fn local_notifier_posts_nothing() {
    let report = report_with_target("T");
    let local = LocalNotifier {};
    assert!(local.notify(&report, true).is_ok());
    assert_eq!(local.job_url(), String::new());
}

#[test]
fn ci_kind_parses_the_known_platform_names() {
    assert_eq!(CIKind::parse("gitlab"), Ok(CIKind::GitLab));
    assert_eq!(CIKind::parse("github"), Ok(CIKind::GitHub));
    assert_eq!(CIKind::parse("local"), Ok(CIKind::Local));
    assert_eq!(CIKind::parse("travis"), Err(Error::UnknownCIKind));
    assert_eq!(CIKind::parse("GitLab"), Err(Error::UnknownCIKind));
    assert_eq!("github".parse::<CIKind>(), Ok(CIKind::GitHub));
}

#[test]
fn ci_carries_its_job_url() {
    let ci = CI::new(CIKind::GitLab, "https://example.com/job/1".to_string()).unwrap();
    assert_eq!(ci.job_url(), "https://example.com/job/1".to_string());
}

#[test]
fn config_carries_the_run_settings() {
    let config = Config {
        ci: CIKind::GitHub,
        suppress_skaffold: true,
        ignore_tag_images: vec!["image1".to_string(), "image2".to_string()],
        patch: true,
    };
    assert_eq!(config.ci, CIKind::GitHub);
    assert!(config.suppress_skaffold);
    assert_eq!(config.ignore_tag_images.len(), 2);
    assert!(config.patch);
}

#[test]
fn error_messages_name_the_failure() {
    assert_eq!(
        Error::MalformedDiff.message(),
        "diff keys and diff bodies do not pair up".to_string()
    );
    assert_eq!(
        Error::NoMergeRequestFound.message(),
        "no merge request found".to_string()
    );
    assert_eq!(Error::UnknownCIKind.message(), "unknown CI kind".to_string());
    assert_eq!(Error::NotifyFailed.message(), "failed to notify".to_string());
}

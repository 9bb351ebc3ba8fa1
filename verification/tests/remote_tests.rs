use jj_ryu::repo::select_remote;
use jj_ryu::types::GitRemote;
use jj_ryu::Error;

fn make_remote(name: &str) -> GitRemote {
    GitRemote { name: name.to_string(), url: format!("https://github.com/test/{name}.git") }
}

#[test]
fn test_select_remote_single_remote() {
    let remotes = vec![make_remote("upstream")];
    let result = select_remote(&remotes, None).unwrap();
    assert_eq!(result, "upstream");
}

#[test]
fn test_select_remote_prefers_origin() {
    let remotes = vec![make_remote("upstream"), make_remote("origin"), make_remote("fork")];
    let result = select_remote(&remotes, None).unwrap();
    assert_eq!(result, "origin");
}

#[test]
fn test_select_remote_no_origin_uses_first() {
    let remotes = vec![make_remote("upstream"), make_remote("fork")];
    let result = select_remote(&remotes, None).unwrap();
    assert_eq!(result, "upstream");
}

#[test]
fn test_select_remote_specified_exists() {
    let remotes = vec![make_remote("origin"), make_remote("fork")];
    let result = select_remote(&remotes, Some("fork")).unwrap();
    assert_eq!(result, "fork");
}

#[test]
fn test_select_remote_specified_not_found() {
    let remotes = vec![make_remote("origin")];
    let result = select_remote(&remotes, Some("nonexistent"));
    match result {
        Err(Error::RemoteNotFound(name)) => assert_eq!(name, "nonexistent"),
        other => panic!("Expected RemoteNotFound error, got: {other:?}"),
    }
}

#[test]
fn test_select_remote_none_available() {
    let remotes: Vec<GitRemote> = vec![];
    let result = select_remote(&remotes, None);
    match result {
        Err(Error::NoSupportedRemotes) => {}
        other => panic!("Expected NoSupportedRemotes error, got: {other:?}"),
    }
    assert!(matches!(select_remote(&remotes, Some("origin")), Err(Error::NoSupportedRemotes)));
}

#[test]
fn test_scheduler_cycle_error_format() {
    let error = Error::SchedulerCycle {
        message: "test cycle".to_string(),
        cycle_nodes: vec!["push feat-a".to_string(), "update feat-b".to_string()],
    };

    let display = error.message();
    assert!(display.contains("scheduler cycle detected"));
    assert!(display.contains("test cycle"));

    match error {
        Error::SchedulerCycle { cycle_nodes, .. } => {
            assert_eq!(cycle_nodes.len(), 2);
            assert!(cycle_nodes.contains(&"push feat-a".to_string()));
        }
        _ => panic!("wrong error variant"),
    }
}

#[test]
fn test_error_messages() {
    assert_eq!(Error::BookmarkNotFound("x".to_string()).message(), "bookmark 'x' not found");
    assert_eq!(Error::NoStack("nothing".to_string()).message(), "nothing");
    assert_eq!(
        Error::NoSupportedRemotes.message(),
        "no supported remotes found (GitHub/GitLab)"
    );
    assert_eq!(Error::RemoteNotFound("up".to_string()).message(), "remote 'up' not found");
    assert_eq!(
        Error::MergeCommitDetected("b".to_string()).message(),
        "merge commit detected in bookmark 'b' history - rebasing required"
    );
    assert_eq!(Error::InvalidArgument("a".to_string()).message(), "invalid argument: a");
    assert_eq!(Error::Tracking("t".to_string()).message(), "tracking error: t");
    assert_eq!(Error::Platform("p".to_string()).message(), "platform error: p");
    assert_eq!(Error::Internal("i".to_string()).message(), "internal error: i");
    assert_eq!(Error::Workspace("w".to_string()).message(), "workspace error: w");
    assert_eq!(Error::Parse("w".to_string()).message(), "parse error: w");
    assert_eq!(Error::Auth("w".to_string()).message(), "authentication failed: w");
    assert_eq!(Error::GitHubApi("w".to_string()).message(), "GitHub API error: w");
    assert_eq!(Error::GitLabApi("w".to_string()).message(), "GitLab API error: w");
    assert_eq!(Error::Revset("w".to_string()).message(), "revset error: w");
    assert_eq!(Error::Git("w".to_string()).message(), "git operation failed: w");
    assert_eq!(Error::Config("w".to_string()).message(), "invalid configuration: w");
}

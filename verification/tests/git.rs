use cfind::git::{
    current_branch_name, git_path, last_fetch_at, origin_branch, remote_branch_file_url,
    remote_file_url, tracked_branch, tracked_files, GitError, Repository,
};

fn repository(root: &str) -> Repository {
    Repository::from_git(root, Some("abc123\n"), false, None, None, None, None, None).unwrap()
}

#[test]
fn builds_github_url_from_ssh_remote() {
    assert_eq!(
        remote_file_url(
            Some("git@github.com:acme/example.git"),
            "abc123",
            "src/a file.rs",
            3,
            8
        ),
        Some("https://github.com/acme/example/blob/abc123/src/a%20file.rs#L3-L8".to_owned())
    );
}

#[test]
fn builds_gitlab_url_from_https_remote() {
    assert_eq!(
        remote_file_url(
            Some("https://gitlab.com/acme/example.git"),
            "abc123",
            "src/lib.rs",
            4,
            4
        ),
        Some("https://gitlab.com/acme/example/-/blob/abc123/src/lib.rs#L4".to_owned())
    );
}

#[test]
fn rejects_non_utf8_git_paths() {
    let error = git_path(b"src/invalid-\xff.rs", "/work/example").unwrap_err();
    assert!(error
        .message()
        .contains("tracked source path is not valid UTF-8"));
    assert!(error.message().contains("/work/example"));
    assert_eq!(
        git_path(b"assets/invalid-\xff.png", "/work/example").unwrap(),
        None
    );
}

#[test]
fn branch_urls_have_no_line_fragment_and_unknown_hosts_have_no_url() {
    assert_eq!(
        remote_branch_file_url(Some("git@github.com:acme/example.git"), "main", "src/lib.rs"),
        Some("https://github.com/acme/example/blob/main/src/lib.rs".to_owned())
    );
    assert_eq!(
        remote_branch_file_url(Some("git@example.com:acme/example.git"), "main", "src/lib.rs"),
        None
    );
    assert_eq!(remote_branch_file_url(None, "main", "src/lib.rs"), None);
    assert_eq!(
        remote_file_url(Some("git@github.com:acme/example.git"), "", "src/lib.rs", 1, 1),
        None
    );
}

#[test]
fn tracked_files_skip_deleted_unmerged_and_unsupported_entries() {
    let repository = repository("/work/example");
    let deleted = b"src/gone.rs\0";
    let staged = b"100644 aaa 0\tsrc/lib.rs\0100644 bbb 0\tsrc/gone.rs\0100644 ccc 2\tsrc/conflict.rs\0100644 ddd 0\tREADME.md\0";
    let files = tracked_files(&repository, deleted, staged).unwrap();
    let paths: Vec<&str> = files.iter().map(|file| file.path.as_str()).collect();
    assert_eq!(paths, ["src/lib.rs", "README.md"]);

    let error = tracked_files(&repository, b"", b"100644 aaa 0\tsrc/bad-\xff.rs\0").unwrap_err();
    assert_eq!(error, GitError::NonUtf8SourcePath("/work/example".to_owned()));
}

#[test]
fn branches_come_from_origin_then_upstream_then_head() {
    assert_eq!(
        origin_branch(Some("origin/main\n"), None),
        Some("main".to_owned())
    );
    assert_eq!(tracked_branch(Some("origin/develop\n")), Some("develop".to_owned()));
    assert_eq!(current_branch_name(Some("feature/x\n")), Some("feature/x".to_owned()));
    assert_eq!(last_fetch_at(Some(10), Some(20)), Some(10));
    assert_eq!(last_fetch_at(None, Some(20)), Some(20));
    let repository = Repository::from_git(
        "/work/example",
        Some("abc123\n"),
        false,
        Some(" git@github.com:acme/example.git \n"),
        None,
        Some("develop".to_owned()),
        Some("feature".to_owned()),
        None,
    )
    .unwrap();
    assert_eq!(repository.revision, "abc123");
    assert_eq!(repository.remote.as_deref(), Some("git@github.com:acme/example.git"));
    assert_eq!(repository.branch.as_deref(), Some("develop"));
    assert_eq!(
        Repository::from_git("/work/none", None, false, None, None, None, None, None).unwrap_err(),
        GitError::UnreadableHead("/work/none".to_owned())
    );
}

use git_rs::repo::GitRepository;
use git_rs::staging::StagingArea;
use git_rs::strmap::StrMap;
use git_rs::commit::{Commit, CommitMeta};
use git_rs::digest::{crypto_string, put_blob_id};
use git_rs::error::GitError;

fn map_of(pairs: &[(&str, &str)]) -> StrMap {
    let mut m = StrMap::new();
    for (k, v) in pairs {
        m.insert(k.to_string(), v.to_string());
    }
    m
}

#[test]
fn generate_commit_blobs_ut1() {
    let old = StrMap::new();
    let mut staging_area = StagingArea::new();
    staging_area.add("file1".to_string(), "hash1".to_string());
    staging_area.add("file2".to_string(), "hash2".to_string());
    let new_blobs = GitRepository::generate_commit_blobs(&old, &staging_area).unwrap();
    assert_eq!(map_of(&[("file1", "hash1"), ("file2", "hash2")]), new_blobs);
}

#[test]
fn generate_commit_blobs_ut2() {
    let old = map_of(&[("file1", "hash1"), ("file2", "hash2")]);
    let mut staging_area = StagingArea::new();
    staging_area.add("file3".to_string(), "hash3".to_string());
    staging_area.add("file4".to_string(), "hash4".to_string());
    let new_blobs = GitRepository::generate_commit_blobs(&old, &staging_area).unwrap();
    assert_eq!(
        map_of(&[
            ("file1", "hash1"),
            ("file2", "hash2"),
            ("file3", "hash3"),
            ("file4", "hash4"),
        ]),
        new_blobs
    );
}

#[test]
fn commit_display_ut() {
    let commit = Commit {
        meta: CommitMeta {
            message: "commit display ut message".to_string(),
            date_time: 1234567890,
        },
        blobs: map_of(&[("file1", "hash1"), ("file2", "hash2")]),
        parent: "mock_parent".to_string(),
    };
    assert_eq!(
        r#"===
commit 2c10e93442709d04bc3c048a5e7b6d4f459ab76c
Date: Fri Feb 13 23:31:30 2009 +0000
commit display ut message
"#,
        commit.to_text()
    );
}

#[test]
fn committed_file_modified_not_stage_ut() {
    let file_sha1_map = map_of(&[
        ("f1", "hash1"),
        ("f2", "hash2_new"),
        ("f3", "hash3"),
        ("d1/f1", "hash4"),
        ("d2/f2", "hash5_new"),
    ]);
    let commit = map_of(&[("f1", "hash1"), ("f2", "hash2"), ("f4", "hash2")]);
    let staged = map_of(&[("f3", "hash3"), ("d2/f2", "hash5"), ("d2/f3", "hash5")]);
    let deleted = map_of(&[("d1/f1", "")]);
    assert_eq!(
        vec!["f2 (modified)"],
        GitRepository::committed_file_modified_not_stage(&file_sha1_map, &commit, &staged)
    );
    assert_eq!(
        vec!["d2/f2 (modified)"],
        GitRepository::staged_for_addition_but_with_different_contents(&file_sha1_map, &staged)
    );
    assert_eq!(
        vec!["d2/f3 (deleted)"],
        GitRepository::staged_for_addition_but_deleted(&file_sha1_map, &staged)
    );
    assert_eq!(
        vec!["f4 (deleted)"],
        GitRepository::not_staged_for_removal_but_deleted(&file_sha1_map, &commit, &deleted)
    );
}

#[test]
fn untracked_file_ut() {
    let file_sha1_map = map_of(&[
        ("f1", "hash1"),
        ("f2", "hash2_new"),
        ("f3", "hash3"),
        ("d1/f1", "hash4"),
        ("d2/f2", "hash5_new"),
    ]);
    let commit = map_of(&[("f1", "hash1"), ("f2", "hash2"), ("f4", "hash2")]);
    let staged = map_of(&[("d2/f2", "hash5"), ("d2/f3", "hash5")]);
    assert_eq!(
        vec!["d1/f1", "f3"],
        GitRepository::untracked_file(&file_sha1_map, &commit, &staged)
    );
}

#[test]
fn content_addressing_is_deterministic() {
    let first = put_blob_id("some file content");
    let second = put_blob_id("some file content");
    assert_eq!(first, second);
    assert_eq!(first, crypto_string("some file content"));
}

#[test]
fn init_then_add_then_commit_scenario() {
    let mut git = GitRepository::new();
    assert_eq!("main", git.branch);
    git.init().unwrap();
    let init_id = git.commit_sha1.clone();
    assert!(!init_id.is_empty());

    let hf1 = git.add_file("f1".to_string(), "a");
    assert_eq!(hf1, crypto_string("a"));
    assert_eq!(1, git.staging_area.staged.len());
    assert_eq!(&hf1, git.staging_area.staged.get(&"f1".to_string()).unwrap());
    assert_eq!(0, git.staging_area.deleted.len());

    let removed = git.commit("first").unwrap();
    assert!(removed.is_empty());
    assert_eq!(1, git.commit.blobs.len());
    assert_eq!(&hf1, git.commit.blobs.get(&"f1".to_string()).unwrap());
    assert_eq!(init_id, git.commit.parent);
    assert_eq!(
        &git.commit_sha1,
        git.branches.get(&"main".to_string()).unwrap()
    );
    assert_eq!(0, git.staging_area.staged.len());
    assert_eq!(0, git.staging_area.deleted.len());
}

#[test]
fn modified_file_appears_only_under_modifications() {
    let mut git = GitRepository::new();
    git.init().unwrap();
    let _hf1 = git.add_file("f1".to_string(), "a");
    git.commit("first").unwrap();

    // the file changed on disk afterwards
    let working = map_of(&[("f1", crypto_string("b").as_str())]);
    let modified = git.modified_not_staged(&working).unwrap();
    assert_eq!(
        "=== Modifications Not Staged For Commit ===\nf1 (modified)",
        modified
    );
    let untracked = git.untrack_status(&working).unwrap();
    assert_eq!("=== Untracked Files ===", untracked);
    let staged = git.staged_status().unwrap();
    assert_eq!("=== Staged Files ===", staged);
    let removal = git.removal_status().unwrap();
    assert_eq!("=== Removed Files ===", removal);
}

#[test]
fn remove_tracked_file_then_commit_scenario() {
    let mut git = GitRepository::new();
    git.init().unwrap();
    let _hf1 = git.add_file("f1".to_string(), "a");
    git.commit("first").unwrap();

    git.remove_file(&"f1".to_string()).unwrap();
    assert_eq!(1, git.staging_area.deleted.len());
    assert_eq!("", git.staging_area.deleted.get(&"f1".to_string()).unwrap().as_str());
    assert_eq!(0, git.staging_area.staged.len());

    let removed = git.commit("second").unwrap();
    assert_eq!(vec!["f1".to_string()], removed);
    assert_eq!(0, git.commit.blobs.len());
}

#[test]
fn remove_without_reason_fails_and_changes_nothing() {
    let mut git = GitRepository::new();
    git.init().unwrap();
    let before_staged = git.staging_area.staged.len();
    let before_deleted = git.staging_area.deleted.len();
    match git.remove_file(&"never-seen".to_string()) {
        Err(GitError::StagedRemoveNoReasonError) => (),
        other => panic!("unexpected outcome: {:?}", other),
    }
    assert_eq!(before_staged, git.staging_area.staged.len());
    assert_eq!(before_deleted, git.staging_area.deleted.len());
}

#[test]
fn unstaging_a_staged_file_leaves_it_untracked() {
    let mut git = GitRepository::new();
    git.init().unwrap();
    let _h = git.add_file("f2".to_string(), "content");
    git.remove_file(&"f2".to_string()).unwrap();
    assert_eq!(0, git.staging_area.staged.len());
    assert_eq!(0, git.staging_area.deleted.len());
}

#[test]
fn branch_points_at_current_commit_without_switching() {
    let mut git = GitRepository::new();
    git.init().unwrap();
    let _h = git.add_file("f1".to_string(), "a");
    git.commit("first").unwrap();
    let c = git.commit_sha1.clone();

    git.branch("feature").unwrap();
    assert_eq!(&c, git.branches.get(&"feature".to_string()).unwrap());
    assert_eq!(&c, git.branches.get(&"main".to_string()).unwrap());
    assert_eq!("main", git.branch);

    match git.branch("feature") {
        Err(GitError::BranchError(_)) => (),
        other => panic!("unexpected outcome: {:?}", other),
    }
}

#[test]
fn branch_status_marks_the_active_branch() {
    let mut git = GitRepository::new();
    git.init().unwrap();
    assert_eq!("=== Branches ===\n*main", git.branch_status().unwrap());
    git.branch("new_branch").unwrap();
    assert_eq!(
        "=== Branches ===\n*main\nnew_branch",
        git.branch_status().unwrap()
    );
}

#[test]
fn commit_with_empty_staging_fails() {
    let mut git = GitRepository::new();
    git.init().unwrap();
    match git.commit("a perfectly fine message") {
        Err(GitError::NothingToCommitError) => (),
        other => panic!("unexpected outcome: {:?}", other),
    }
}

#[test]
fn commit_with_blank_message_fails_even_when_staged() {
    let mut git = GitRepository::new();
    git.init().unwrap();
    let _h = git.add_file("f1".to_string(), "a");
    match git.commit(" \t\n") {
        Err(GitError::EmptyMessageError) => (),
        other => panic!("unexpected outcome: {:?}", other),
    }
    // the staged file is still there
    assert_eq!(1, git.staging_area.staged.len());
}

#[test]
fn staging_the_same_content_twice_is_idempotent() {
    let mut git = GitRepository::new();
    git.init().unwrap();
    let h1 = git.add_file("f1".to_string(), "a");
    let h2 = git.add_file("f1".to_string(), "a");
    assert_eq!(h1, h2);
    assert_eq!(1, git.staging_area.staged.len());
    assert_eq!(&h1, git.staging_area.staged.get(&"f1".to_string()).unwrap());
}

#[test]
fn add_stages_every_given_file() {
    let mut git = GitRepository::new();
    git.init().unwrap();
    let files = vec![
        ("d1/f1".to_string(), "this is a demo content for d1/f1".to_string()),
        ("d1/f2".to_string(), "this is a demo content for d1/f2".to_string()),
    ];
    git.add(&files).unwrap();
    assert_eq!(2, git.staging_area.staged.len());
    assert_eq!(
        crypto_string("this is a demo content for d1/f1").as_str(),
        git.staging_area.staged.get(&"d1/f1".to_string()).unwrap().as_str()
    );
}

#[test]
fn status_report_lists_all_five_sections() {
    let mut git = GitRepository::new();
    git.init().unwrap();
    let hf1 = git.add_file("f1".to_string(), "a");
    let working = map_of(&[("f1", hf1.as_str())]);
    let report = git.status(&working).unwrap();
    assert_eq!(
        "=== Branches ===\n*main\n\n=== Staged Files ===\nf1\n\n=== Removed Files ===\n\n\
         === Modifications Not Staged For Commit ===\n\n=== Untracked Files ===",
        report
    );
}

#[test]
fn log_renders_each_commit_in_the_chain() {
    let git = GitRepository::new();
    let one = Commit {
        meta: CommitMeta { message: "second".to_string(), date_time: 1234567890 },
        blobs: map_of(&[("f1", "h1")]),
        parent: "earlier".to_string(),
    };
    let two = Commit {
        meta: CommitMeta { message: "initial commit".to_string(), date_time: 1234567000 },
        blobs: StrMap::new(),
        parent: String::new(),
    };
    let expected = format!("{}\n\n\n{}\n\n", one.to_text(), two.to_text());
    let chain = vec![one, two];
    assert_eq!(expected, git.log(&chain).unwrap());
}

#[test]
fn error_messages_use_the_fixed_wording() {
    assert_eq!(
        "File missing.txt does not exist.",
        GitError::FileNotExistError("missing.txt".to_string()).message()
    );
    assert_eq!(
        "No reason to remove the file",
        GitError::StagedRemoveNoReasonError.message()
    );
    assert_eq!(
        "Please enter a commit message.",
        GitError::EmptyMessageError.message()
    );
    assert_eq!(
        "No changes added to the commit.",
        GitError::NothingToCommitError.message()
    );
}

//! Tests for the repository protocols: read assembly, init, the
//! staging/commit reconciliation, ignore rules, history and fetch.

use fursion::commit::{Commit, FileChange, FileChangeOperation, FileChanges};
use fursion::error::{CommitParseFailedReason, Error, HostErrorKind, RepoErrorReason};
use fursion::repo::{File, Repo, RepoHistory, RepoMetadata};
use fursion::server::find_repo;

fn metadata(author: &str, name: &str) -> RepoMetadata {
    RepoMetadata {
        author: author.to_string(),
        name: name.to_string(),
    }
}

fn read_repo(stated: Option<&str>) -> Repo {
    Repo::read(
        "work/demo",
        None,
        Vec::new(),
        metadata("ada", "demo"),
        stated,
        &Vec::new(),
        None,
    )
    .unwrap()
}

#[test]
fn read_assembles_fields() {
    let files = vec![File {
        path: "work/demo/a.txt".to_string(),
        name: "a.txt".to_string(),
    }];
    let history = Vec::new();
    let repo = Repo::read(
        "work/demo",
        Some("http://one.fursion\nhttp://two.fursion\n"),
        files,
        metadata("ada", "demo"),
        None,
        &history,
        Some("# comment\n\ntarget\n//other\nbuild\n"),
    )
    .unwrap();
    assert_eq!(repo.path, "work/demo");
    assert_eq!(repo.files.len(), 1);
    assert_eq!(repo.metadata.author, "ada");
    assert_eq!(repo.remotes.len(), 2);
    assert_eq!(repo.remotes[0].get(), "http://one.fursion");
    assert_eq!(repo.remotes[1].get(), "http://two.fursion");
    assert_eq!(repo.ignored, vec!["target".to_string(), "build".to_string()]);
    assert!(repo.stated_changes.is_empty());
    assert_eq!(repo.history.commits().len(), 0);
}

#[test]
fn read_takes_staged_changes() {
    let repo = read_repo(Some("a.txt|0..5|INS\nhello"));
    assert!(!repo.stated_changes.is_empty());
    let items = repo.stated_changes.items();
    assert_eq!(items.len(), 1);
    assert_eq!(items[0].file_path, "a.txt");
}

#[test]
fn read_treats_empty_staging_as_none() {
    let repo = read_repo(Some(""));
    assert!(repo.stated_changes.is_empty());
}

#[test]
fn read_fails_on_bad_staging() {
    let r = Repo::read(
        "work/demo",
        None,
        Vec::new(),
        metadata("ada", "demo"),
        Some("not a record"),
        &Vec::new(),
        None,
    );
    assert!(matches!(
        r,
        Err(Error::CommitParseFailed(CommitParseFailedReason::FileChangeDataMalformed))
    ));
}

#[test]
fn read_fails_on_bad_history_entry() {
    let entries = vec!["garbage".to_string()];
    let r = Repo::read(
        "work/demo",
        None,
        Vec::new(),
        metadata("ada", "demo"),
        None,
        &entries,
        None,
    );
    assert!(r.is_err());
}

#[test]
fn history_round_trips_through_entries() {
    let changes = FileChanges::new(vec![FileChange {
        file_path: "a.txt".to_string(),
        range: 0..5,
        operation: FileChangeOperation::Insertion,
        text: Some("hello".to_string()),
    }]);
    let commit = Commit::new("first", changes);
    let entries = vec![commit.to_string()];
    let history = RepoHistory::read(&entries).unwrap();
    let commits = history.commits();
    assert_eq!(commits.len(), 1);
    assert_eq!(commits[0].message, "first");
    assert_eq!(commits[0].id, commit.id);
}

#[test]
fn history_read_rejects_one_bad_entry() {
    let good = Commit::new("ok", FileChanges::new(vec![FileChange {
        file_path: "a".to_string(),
        range: 0..0,
        operation: FileChangeOperation::Deletion,
        text: None,
    }]));
    let entries = vec![good.to_string(), "broken".to_string()];
    assert!(RepoHistory::read(&entries).is_err());
}

#[test]
fn commit_consumes_staging() {
    let mut repo = read_repo(Some("a.txt|0..5|INS\nhello"));
    let before = repo.history.commits().len();
    repo.commit("msg").unwrap();
    assert!(repo.stated_changes.is_empty());
    let commits = repo.history.commits();
    assert_eq!(commits.len(), before + 1);
    let last = commits.last().unwrap();
    assert_eq!(last.message, "msg");
    let items = last.changes().items();
    assert_eq!(items.len(), 1);
    assert_eq!(items[0].file_path, "a.txt");
    assert_eq!(items[0].range, 0..5);
    assert_eq!(items[0].operation, FileChangeOperation::Insertion);
    assert_eq!(items[0].text, Some("hello".to_string()));
}

#[test]
fn commit_with_empty_staging_appends_empty_diff() {
    let mut repo = read_repo(None);
    repo.commit("msg").unwrap();
    let commits = repo.history.commits();
    assert_eq!(commits.len(), 1);
    assert_eq!(commits[0].message, "msg");
    assert!(commits[0].changes().is_empty());
    assert!(repo.stated_changes.is_empty());
}

#[test]
fn get_diff_is_an_empty_stub() {
    let repo = read_repo(None);
    assert!(repo.get_diff().unwrap().is_empty());
}

#[test]
fn init_builds_fresh_state() {
    let repo = Repo::init("work/demo", false, Vec::new(), Vec::new()).unwrap();
    assert_eq!(repo.path, "work/demo");
    assert_eq!(repo.metadata.name, "demo");
    assert_eq!(repo.metadata.author, "");
    assert!(repo.stated_changes.is_empty());
    assert_eq!(repo.history.commits().len(), 0);
    assert_eq!(repo.remotes.len(), 0);
}

#[test]
fn init_refuses_existing_repo() {
    let first = Repo::init("work/demo", false, Vec::new(), Vec::new());
    assert!(first.is_ok());
    let second = Repo::init("work/demo", true, Vec::new(), Vec::new());
    assert!(matches!(
        second,
        Err(Error::RepoInitFailed(RepoErrorReason::RepoAlreadyExists(p))) if p == "work/demo"
    ));
}

#[test]
fn init_refuses_root_path() {
    let r = Repo::init("/", false, Vec::new(), Vec::new());
    assert!(matches!(
        r,
        Err(Error::RepoInitFailed(RepoErrorReason::CantInitAtRootDiskLocation))
    ));
    let r = Repo::init("work/..", false, Vec::new(), Vec::new());
    assert!(matches!(
        r,
        Err(Error::RepoInitFailed(RepoErrorReason::CantInitAtRootDiskLocation))
    ));
}

#[test]
fn ignored_rules_drop_comments_and_blanks() {
    let rules = Repo::get_ignored(Some("# heading\ntarget\n\n//note\n.cache"));
    assert_eq!(rules, vec!["target".to_string(), ".cache".to_string()]);
    assert_eq!(Repo::get_ignored(None), Vec::<String>::new());
}

#[test]
fn replace_swaps_and_returns_old() {
    let mut repo = read_repo(None);
    repo.commit("kept").unwrap();
    let fresh = Repo::init("work/demo", false, Vec::new(), Vec::new()).unwrap();
    let displaced = repo.replace(fresh);
    assert_eq!(repo.history.commits().len(), 0);
    assert_eq!(displaced.history.commits().len(), 1);
    assert_eq!(displaced.history.commits()[0].message, "kept");
}

#[test]
fn fetch_results_keep_order_and_isolate_failures() {
    let one = Repo::init("work/one", false, Vec::new(), Vec::new()).unwrap();
    let three = Repo::init("work/three", false, Vec::new(), Vec::new()).unwrap();
    let outcomes = vec![
        Ok(one),
        Err("connection refused".to_string()),
        Ok(three),
    ];
    let results = Repo::collect_fetch_results(outcomes);
    assert_eq!(results.len(), 3);
    assert!(matches!(&results[0], Ok(r) if r.metadata.name == "one"));
    assert!(matches!(
        &results[1],
        Err(Error::RepoFetchFailed(m)) if m == "connection refused"
    ));
    assert!(matches!(&results[2], Ok(r) if r.metadata.name == "three"));
}

#[test]
fn find_repo_picks_first_match() {
    let a = Repo::read(
        "work/a",
        None,
        Vec::new(),
        metadata("ada", "one"),
        None,
        &Vec::new(),
        None,
    )
    .unwrap();
    let b = Repo::read(
        "work/b",
        None,
        Vec::new(),
        metadata("bob", "two"),
        None,
        &Vec::new(),
        None,
    )
    .unwrap();
    let repos = vec![a, b];
    let found = find_repo(&repos, "bob", "two").unwrap();
    assert_eq!(found.path, "work/b");
    assert!(matches!(
        find_repo(&repos, "ada", "two"),
        Err(Error::HostError(HostErrorKind::RepoNotFound))
    ));
}

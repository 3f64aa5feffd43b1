use nightwhale::commands::{propose_template, search_marker, status_label};
use nightwhale::local_repo::{utc_stamp, now_iso, source_note, FetchError, LocalRepo, RecordError, REGISTRY_URL};
use nightwhale::model::{Idea, IdeaStatus, Ledger, LedgerAction};

fn repo() -> LocalRepo {
    LocalRepo::in_home("/home/u")
}

#[test]
fn repo_layout() {
    let r = repo();
    assert_eq!(r.registry_path(), "/home/u/.nightwhale/registry");
    assert_eq!(r.ideas_path(), "/home/u/.nightwhale/ideas");
    assert_eq!(r.ledger_path(), "/home/u/.nightwhale/ledger.json");
    assert_eq!(r.registry_git_dir(), "/home/u/.nightwhale/registry/.git");
    assert_eq!(LocalRepo::in_home("/").ideas_path(), "/.nightwhale/ideas");
}

#[test]
fn idea_dir_flattens_the_id() {
    let r = repo();
    assert_eq!(r.idea_dir("agent-memory/vectors"), "/home/u/.nightwhale/ideas/agent-memory__vectors");
    assert_eq!(r.idea_dir("a/b/c"), "/home/u/.nightwhale/ideas/a__b__c");
    assert_eq!(r.idea_dir("/etc"), "/home/u/.nightwhale/ideas/__etc");
}

#[test]
fn sync_pulls_an_existing_clone() {
    let r = repo();
    let run = r.sync_registry(true);
    assert_eq!(run.cwd, "/home/u/.nightwhale/registry");
    assert_eq!(run.args, vec!["pull", "--ff-only"]);
}

#[test]
fn sync_clones_on_first_run() {
    let r = repo();
    let run = r.sync_registry(false);
    assert_eq!(run.cwd, "/home/u/.nightwhale");
    assert_eq!(run.args, vec!["clone", REGISTRY_URL, "registry"]);
    assert_eq!(REGISTRY_URL, "https://github.com/nightwhale-dev/registry.git");
}

#[test]
fn record_bought_stamps_the_time() {
    let r = repo();
    let mut l = Ledger::new();
    r.record_bought(&mut l, "mem/vectors").unwrap();
    let e = l.get("mem/vectors").unwrap();
    assert_eq!(e.idea_id, "mem/vectors");
    assert_eq!(e.status, IdeaStatus::Bought);
    assert!(e.bought_at.len() >= 25, "{}", e.bought_at);
    assert_eq!(e.bought_at.chars().nth(10), Some('T'));
    assert!(e.bought_at.ends_with("+00:00"));
    assert!(e.bought_at.starts_with("20"));
    assert_eq!(e.updated_at, None);
}

#[test]
fn record_rejected_and_improved() {
    let r = repo();
    let mut l = Ledger::new();
    r.record_bought(&mut l, "mem/vectors").unwrap();
    let bought_at = l.get("mem/vectors").unwrap().bought_at.clone();
    r.record_improved(&mut l, "mem/vectors", "better prompts".to_string()).unwrap();
    let e = l.get("mem/vectors").unwrap();
    assert_eq!(e.status, IdeaStatus::Improved);
    assert!(e.updated_at.as_deref().unwrap().ends_with("+00:00"));
    r.record_rejected(&mut l, "mem/vectors", Some("no gain".to_string())).unwrap();
    let e = l.get("mem/vectors").unwrap();
    assert_eq!(e.status, IdeaStatus::Rejected);
    assert_eq!(e.bought_at, bought_at);
    assert_eq!(e.improvement_note.as_deref(), Some("better prompts"));
    assert_eq!(e.rejection_reason.as_deref(), Some("no gain"));
}

#[test]
fn recording_unbought_ideas_fails() {
    let r = repo();
    let mut l = Ledger::new();
    let err = r.record_rejected(&mut l, "x/y", None).unwrap_err();
    match &err {
        RecordError::NeverBought(e) => assert_eq!(e.action, LedgerAction::Uninstall),
        RecordError::ClockUnavailable => panic!("expected a refusal for an unbought idea"),
    }
    assert_eq!(err.message(), "x/y was never bought — nothing to uninstall");
    let err = r.record_improved(&mut l, "x/y", "n".to_string()).unwrap_err();
    assert_eq!(err.message(), "x/y was never bought — nothing to improve");
    assert!(l.is_empty());
}

fn sample_idea() -> Idea {
    Idea {
        slug: "vectors".to_string(),
        problem_slug: "mem".to_string(),
        title: "Vector recall".to_string(),
        rationale: "Embeddings find related notes".to_string(),
        author: "whale".to_string(),
        source_repo: "https://example.org/r".to_string(),
        source_path: "problems/mem/vendor/vectors".to_string(),
        tags: vec![],
    }
}

#[test]
fn source_note_lists_provenance() {
    let idea = sample_idea();
    let expected = format!(
        "# Source\n\n\
         - Idea: {title}\n\
         - Author: {author}\n\
         - Origin repo: {repo}\n\
         - Origin path: {path}\n\
         - Rationale: {rationale}\n",
        title = idea.title,
        author = idea.author,
        repo = idea.source_repo,
        path = idea.source_path,
        rationale = idea.rationale,
    );
    assert_eq!(source_note(&idea), expected);
    assert_eq!(
        source_note(&idea),
        "# Source\n\n- Idea: Vector recall\n- Author: whale\n- Origin repo: https://example.org/r\n- Origin path: problems/mem/vendor/vectors\n- Rationale: Embeddings find related notes\n"
    );
}

#[test]
fn fetch_error_messages() {
    let e = FetchError::AlreadyBought { idea_id: "mem/vectors".to_string(), dest: "/d".to_string() };
    assert_eq!(e.message(), "mem/vectors is already bought at /d. Uninstall it first if you want to re-fetch.");
    let e = FetchError::SourceMissing { source_path: "p/v".to_string(), expected: "/r/p/v".to_string() };
    assert_eq!(e.message(), "source path 'p/v' not found in registry (expected at /r/p/v)");
}

#[test]
fn propose_template_text() {
    let problem = "agent-memory";
    let idea = "notes";
    let expected = format!(
        "# Copy this into the registry as:\n\
         #   problems/{problem}/problem.yaml   (if the problem is new)\n\
         #   problems/{problem}/ideas/{idea}.yaml\n\
         # then open a PR to https://github.com/nightwhale-dev/registry\n\
         \n\
         # --- problem.yaml (skip if the problem already exists) ---\n\
         slug: {problem}\n\
         title: \"<one-line problem statement>\"\n\
         description: \"<what's the actual pain, in whose words>\"\n\
         tags: []\n\
         \n\
         # --- ideas/{idea}.yaml ---\n\
         slug: {idea}\n\
         problem_slug: {problem}\n\
         title: \"<your approach in a phrase>\"\n\
         rationale: \"<WHY this way — the insight, not just the what>\"\n\
         author: \"<your handle>\"\n\
         source_repo: \"<url to the readable source>\"\n\
         source_path: \"problems/{problem}/vendor/{idea}\"  # vendor the code into the registry\n\
         tags: []\n"
    );
    assert_eq!(propose_template(problem, idea), expected);
    assert!(propose_template("p", "i").starts_with("# Copy this into the registry as:\n#   problems/p/problem.yaml"));
}

#[test]
fn status_markers() {
    assert_eq!(search_marker(Some(IdeaStatus::Bought)), " [bought]");
    assert_eq!(search_marker(Some(IdeaStatus::Improved)), " [improved]");
    assert_eq!(search_marker(Some(IdeaStatus::Rejected)), " [rejected]");
    assert_eq!(search_marker(None), "");
    assert_eq!(status_label(IdeaStatus::Bought), "\x1b[33mbought\x1b[0m");
    assert_eq!(status_label(IdeaStatus::Improved), "\x1b[32mimproved\x1b[0m");
    assert_eq!(status_label(IdeaStatus::Rejected), "\x1b[31mrejected\x1b[0m");
}

#[test]
fn now_iso_is_a_utc_stamp() {
    let t = now_iso().unwrap();
    assert!(t.len() >= 25, "{t}");
    assert_eq!(t.chars().nth(10), Some('T'));
    assert!(t.ends_with("+00:00"));
    assert!(chrono::DateTime::parse_from_rfc3339(&t).is_ok());
}

#[test]
fn clock_error_message() {
    assert_eq!(RecordError::ClockUnavailable.message(), "the system clock reads before the Unix epoch");
}

#[test]
fn utc_stamp_formats_the_instant() {
    assert_eq!(utc_stamp(0, 0).as_deref(), Some("1970-01-01T00:00:00+00:00"));
    assert_eq!(utc_stamp(1_700_000_000, 500_000_000).as_deref(), Some("2023-11-14T22:13:20.500+00:00"));
    assert_eq!(utc_stamp(1_700_000_000, 123).as_deref(), Some("2023-11-14T22:13:20.000000123+00:00"));
    assert_eq!(utc_stamp(253_402_300_799, 0).as_deref(), Some("9999-12-31T23:59:59+00:00"));
    assert_eq!(utc_stamp(253_402_300_800, 0).as_deref(), Some("+10000-01-01T00:00:00+00:00"));
    assert_eq!(utc_stamp(u64::MAX, 0), None);
    assert_eq!(utc_stamp(i64::MAX as u64 + 1, 0), None);
    assert_eq!(utc_stamp(i64::MAX as u64, 0), None);
    for secs in [0u64, 86_399, 951_782_400, 4_102_444_800] {
        let expected = chrono::DateTime::from_timestamp(secs as i64, 7).unwrap().to_rfc3339();
        assert_eq!(utc_stamp(secs, 7), Some(expected));
    }
}

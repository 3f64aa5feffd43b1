use nightwhale::model::{Idea, IdeaStatus, Ledger, LedgerAction, LedgerEntry, NeverBought};

fn idea(problem: &str, slug: &str) -> Idea {
    Idea {
        slug: slug.to_string(),
        problem_slug: problem.to_string(),
        title: format!("title of {slug}"),
        rationale: "because".to_string(),
        author: "me".to_string(),
        source_repo: "https://example.org/repo".to_string(),
        source_path: format!("problems/{problem}/vendor/{slug}"),
        tags: vec![],
    }
}

fn entry(id: &str, status: IdeaStatus) -> LedgerEntry {
    LedgerEntry {
        idea_id: id.to_string(),
        status,
        bought_at: "t0".to_string(),
        updated_at: None,
        rejection_reason: None,
        improvement_note: None,
    }
}

fn keys(l: &Ledger) -> Vec<String> {
    l.entries().iter().map(|(k, _)| k.clone()).collect()
}

#[test]
fn idea_id_is_problem_slash_slug() {
    assert_eq!(idea("agent-memory", "vector-recall").id(), "agent-memory/vector-recall");
    assert_eq!(idea("", "x").id(), "/x");
    assert_eq!(idea("夜", "鲲").id(), "夜/鲲");
}

#[test]
fn ledger_starts_empty() {
    let l = Ledger::new();
    assert!(l.is_empty());
    assert_eq!(l.len(), 0);
    assert!(l.get("a/b").is_none());
    assert!(l.entries().is_empty());
}

#[test]
fn ledger_keeps_keys_in_ascending_order() {
    let mut l = Ledger::new();
    for id in ["p/zeta", "p/alpha", "b/x", "p/mid", "a/y"] {
        l.insert(id.to_string(), entry(id, IdeaStatus::Bought));
    }
    assert_eq!(keys(&l), vec!["a/y", "b/x", "p/alpha", "p/mid", "p/zeta"]);
    assert_eq!(l.len(), 5);
    assert!(!l.is_empty());
}

#[test]
fn ledger_read_after_write() {
    let mut l = Ledger::new();
    l.insert("p/a".to_string(), entry("p/a", IdeaStatus::Bought));
    l.insert("p/b".to_string(), entry("p/b", IdeaStatus::Improved));
    assert_eq!(l.get("p/a").unwrap().status, IdeaStatus::Bought);
    assert_eq!(l.get("p/b").unwrap().status, IdeaStatus::Improved);
    l.insert("p/a".to_string(), entry("p/a", IdeaStatus::Rejected));
    assert_eq!(l.len(), 2);
    assert_eq!(l.get("p/a").unwrap().status, IdeaStatus::Rejected);
    assert_eq!(l.get("p/b").unwrap().status, IdeaStatus::Improved);
    assert!(l.get("p/c").is_none());
    assert!(l.get("p").is_none());
}

#[test]
fn mark_bought_writes_a_fresh_entry() {
    let mut l = Ledger::new();
    l.mark_bought("p/a", "2024-01-01T00:00:00+00:00".to_string());
    let e = l.get("p/a").unwrap();
    assert_eq!(e.idea_id, "p/a");
    assert_eq!(e.status, IdeaStatus::Bought);
    assert_eq!(e.bought_at, "2024-01-01T00:00:00+00:00");
    assert_eq!(e.updated_at, None);
    assert_eq!(e.rejection_reason, None);
    assert_eq!(e.improvement_note, None);
}

#[test]
fn mark_bought_again_resets_the_history() {
    let mut l = Ledger::new();
    l.mark_bought("p/a", "t1".to_string());
    l.mark_rejected("p/a", "t2".to_string(), Some("meh".to_string())).unwrap();
    l.mark_bought("p/a", "t3".to_string());
    let e = l.get("p/a").unwrap();
    assert_eq!(e.status, IdeaStatus::Bought);
    assert_eq!(e.bought_at, "t3");
    assert_eq!(e.rejection_reason, None);
    assert_eq!(l.len(), 1);
}

#[test]
fn rejecting_keeps_the_entry() {
    let mut l = Ledger::new();
    l.mark_bought("p/a", "t1".to_string());
    l.mark_bought("p/b", "t1".to_string());
    l.mark_rejected("p/a", "t2".to_string(), Some("too slow".to_string())).unwrap();
    assert_eq!(l.len(), 2);
    let e = l.get("p/a").unwrap();
    assert_eq!(e.status, IdeaStatus::Rejected);
    assert_eq!(e.bought_at, "t1");
    assert_eq!(e.updated_at.as_deref(), Some("t2"));
    assert_eq!(e.rejection_reason.as_deref(), Some("too slow"));
    assert_eq!(l.get("p/b").unwrap().status, IdeaStatus::Bought);
}

#[test]
fn rejecting_without_reason() {
    let mut l = Ledger::new();
    l.mark_bought("p/a", "t1".to_string());
    l.mark_rejected("p/a", "t2".to_string(), None).unwrap();
    let e = l.get("p/a").unwrap();
    assert_eq!(e.status, IdeaStatus::Rejected);
    assert_eq!(e.rejection_reason, None);
}

#[test]
fn improving_records_the_note() {
    let mut l = Ledger::new();
    l.mark_bought("p/a", "t1".to_string());
    l.mark_improved("p/a", "t2".to_string(), "added caching".to_string()).unwrap();
    let e = l.get("p/a").unwrap();
    assert_eq!(e.status, IdeaStatus::Improved);
    assert_eq!(e.bought_at, "t1");
    assert_eq!(e.updated_at.as_deref(), Some("t2"));
    assert_eq!(e.improvement_note.as_deref(), Some("added caching"));
}

#[test]
fn buy_improve_uninstall_lifecycle() {
    let mut l = Ledger::new();
    l.mark_bought("mem/notes", "t1".to_string());
    l.mark_improved("mem/notes", "t2".to_string(), "tuned".to_string()).unwrap();
    l.mark_rejected("mem/notes", "t3".to_string(), Some("no gain".to_string())).unwrap();
    let e = l.get("mem/notes").unwrap();
    assert_eq!(e.idea_id, "mem/notes");
    assert_eq!(e.status, IdeaStatus::Rejected);
    assert_eq!(e.bought_at, "t1");
    assert_eq!(e.updated_at.as_deref(), Some("t3"));
    assert_eq!(e.improvement_note.as_deref(), Some("tuned"));
    assert_eq!(e.rejection_reason.as_deref(), Some("no gain"));
    assert_eq!(l.len(), 1);
}

#[test]
fn updates_of_unbought_ideas_are_refused() {
    let mut l = Ledger::new();
    l.mark_bought("p/a", "t1".to_string());
    let err = l.mark_rejected("p/x", "t2".to_string(), None).unwrap_err();
    assert_eq!(err.idea_id, "p/x");
    assert_eq!(err.action, LedgerAction::Uninstall);
    assert_eq!(err.message(), "p/x was never bought — nothing to uninstall");
    let err = l.mark_improved("p/y", "t2".to_string(), "n".to_string()).unwrap_err();
    assert_eq!(err.action, LedgerAction::Improve);
    assert_eq!(err.message(), "p/y was never bought — nothing to improve");
    assert_eq!(l.len(), 1);
    assert_eq!(l.get("p/a").unwrap().status, IdeaStatus::Bought);
}

#[test]
fn never_bought_message_text() {
    let e = NeverBought { idea_id: "a/b".to_string(), action: LedgerAction::Improve };
    assert_eq!(e.message(), format!("{} was never bought — nothing to improve", "a/b"));
}

#[test]
fn ledger_entry_view_keeps_the_stored_id() {
    let mut l = Ledger::new();
    l.insert("key/one".to_string(), entry("other/id", IdeaStatus::Bought));
    l.mark_rejected("key/one", "t".to_string(), None).unwrap();
    assert_eq!(l.get("key/one").unwrap().idea_id, "other/id");
}

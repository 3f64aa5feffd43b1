use nightwhale::model::{Idea, Problem, ProblemWithIdeas};
use nightwhale::registry::{all_terms_occur, collect_ideas, idea_count, is_idea_file, relink, search, sort_by_slug, Registry};

fn idea(problem: &str, slug: &str, title: &str, rationale: &str, tags: &[&str]) -> Idea {
    Idea {
        slug: slug.to_string(),
        problem_slug: problem.to_string(),
        title: title.to_string(),
        rationale: rationale.to_string(),
        author: "someone".to_string(),
        source_repo: "https://example.org".to_string(),
        source_path: format!("problems/{problem}/vendor/{slug}"),
        tags: tags.iter().map(|t| t.to_string()).collect(),
    }
}

fn problem(slug: &str, title: &str, description: &str, tags: &[&str], ideas: Vec<Idea>) -> ProblemWithIdeas {
    ProblemWithIdeas {
        problem: Problem {
            slug: slug.to_string(),
            title: title.to_string(),
            description: description.to_string(),
            tags: tags.iter().map(|t| t.to_string()).collect(),
        },
        ideas,
    }
}

fn memory_problem() -> ProblemWithIdeas {
    problem(
        "agent-memory",
        "Agent forgets user preferences across sessions",
        "Every new Session starts from zero.",
        &["Memory", "agents"],
        vec![
            idea("agent-memory", "summaries", "Rolling summaries", "Compress the transcript", &["compression"]),
            idea("agent-memory", "vectors", "Vector recall", "Embed and retrieve", &["RAG", "embeddings"]),
        ],
    )
}

#[test]
fn all_terms_must_occur() {
    assert!(all_terms_occur("hello world", "wor hel"));
    assert!(all_terms_occur("hello world", "  hello   "));
    assert!(!all_terms_occur("hello world", "hello xyz"));
    assert!(!all_terms_occur("hello world", "xyz"));
    assert!(all_terms_occur("hello world", ""));
    assert!(all_terms_occur("", ""));
    assert!(!all_terms_occur("", "a"));
    assert!(all_terms_occur("a\u{3000}b", "b\ta"));
    assert!(all_terms_occur("anything", " \t "));
}

#[test]
fn match_is_case_insensitive() {
    let p = memory_problem();
    assert!(nightwhale::registry::matches(&p, "AGENT"));
    assert!(nightwhale::registry::matches(&p, "session"));
    assert!(nightwhale::registry::matches(&p, "SESSION preferences"));
}

#[test]
fn match_looks_at_problem_and_idea_fields() {
    let p = memory_problem();
    assert!(nightwhale::registry::matches(&p, "memory"));
    assert!(nightwhale::registry::matches(&p, "zero"));
    assert!(nightwhale::registry::matches(&p, "rolling"));
    assert!(nightwhale::registry::matches(&p, "embed"));
    assert!(nightwhale::registry::matches(&p, "rag"));
    assert!(nightwhale::registry::matches(&p, "compression"));
    assert!(nightwhale::registry::matches(&p, "memory agents"));
    assert!(!nightwhale::registry::matches(&p, "someone"));
    assert!(!nightwhale::registry::matches(&p, "example"));
}

#[test]
fn match_requires_every_term() {
    let p = memory_problem();
    assert!(nightwhale::registry::matches(&p, "vector compress"));
    assert!(!nightwhale::registry::matches(&p, "vector blockchain"));
    assert!(!nightwhale::registry::matches(&p, "blockchain"));
}

#[test]
fn empty_query_matches_everything() {
    let p = memory_problem();
    assert!(nightwhale::registry::matches(&p, ""));
    assert!(nightwhale::registry::matches(&p, "   \n\t"));
    let bare = problem("x", "", "", &[], vec![]);
    assert!(nightwhale::registry::matches(&bare, ""));
    assert!(!nightwhale::registry::matches(&bare, "x"));
}

#[test]
fn match_spans_joined_fields() {
    let p = memory_problem();
    assert!(nightwhale::registry::matches(&p, "memory agents"));
    assert!(nightwhale::registry::matches(&p, "rag embeddings"));
    assert!(nightwhale::registry::matches(&p, "zero. memory"));
    assert!(nightwhale::registry::matches(&p, "sessions every"));
}

#[test]
fn match_lowercases_unicode() {
    let p = problem("u", "ÄGENT Ωmega", "", &[], vec![]);
    assert!(nightwhale::registry::matches(&p, "ägent"));
    assert!(nightwhale::registry::matches(&p, "ωMEGA"));
    assert!(!nightwhale::registry::matches(&p, "agent"));
}

#[test]
fn search_returns_matching_indices_in_order() {
    let all = vec![
        problem("a", "Agent memory", "", &[], vec![]),
        problem("b", "Tool use", "", &["agents"], vec![]),
        problem("c", "Cost control", "", &[], vec![idea("c", "cache", "Cache prompts", "", &[])]),
    ];
    assert_eq!(search(&all, "agent"), vec![0, 1]);
    assert_eq!(search(&all, "cache"), vec![2]);
    assert_eq!(search(&all, ""), vec![0, 1, 2]);
    assert_eq!(search(&all, "nothing"), Vec::<usize>::new());
    assert_eq!(search(&Vec::new(), ""), Vec::<usize>::new());
}

#[test]
fn idea_files_are_yaml() {
    assert!(is_idea_file("summaries.yaml"));
    assert!(is_idea_file("x.y.yaml"));
    assert!(is_idea_file("a.yaml"));
    assert!(!is_idea_file(".yaml"));
    assert!(!is_idea_file("yaml"));
    assert!(!is_idea_file("a.yml"));
    assert!(!is_idea_file("a.yaml.bak"));
    assert!(!is_idea_file("a.YAML"));
    assert!(!is_idea_file("README.md"));
    assert!(!is_idea_file(""));
}

#[test]
fn collected_ideas_are_sorted_and_linked_to_their_directory() {
    let ideas = vec![
        idea("wrong", "zeta", "Z", "", &[]),
        idea("", "alpha", "A", "", &[]),
        idea("other", "mid", "M", "", &[]),
    ];
    let out = collect_ideas(&"mem".to_string(), ideas);
    let slugs: Vec<&str> = out.iter().map(|i| i.slug.as_str()).collect();
    assert_eq!(slugs, vec!["alpha", "mid", "zeta"]);
    assert!(out.iter().all(|i| i.problem_slug == "mem"));
    assert_eq!(out[2].title, "Z");
}

#[test]
fn sorting_is_stable() {
    let ideas = vec![
        idea("p", "b", "first b", "", &[]),
        idea("p", "a", "only a", "", &[]),
        idea("p", "b", "second b", "", &[]),
        idea("p", "B", "capital", "", &[]),
    ];
    let out = sort_by_slug(ideas);
    let titles: Vec<&str> = out.iter().map(|i| i.title.as_str()).collect();
    assert_eq!(titles, vec!["capital", "only a", "first b", "second b"]);
}

#[test]
fn problems_sort_by_slug() {
    let all = vec![
        problem("tool-use", "T", "", &[], vec![]),
        problem("agent-memory", "A", "", &[], vec![]),
        problem("cost", "C", "", &[], vec![]),
    ];
    let out = sort_by_slug(all);
    let slugs: Vec<&str> = out.iter().map(|p| p.problem.slug.as_str()).collect();
    assert_eq!(slugs, vec!["agent-memory", "cost", "tool-use"]);
    assert!(sort_by_slug(Vec::<ProblemWithIdeas>::new()).is_empty());
}

#[test]
fn registry_layout() {
    let reg = Registry::open("/home/u/.nightwhale/registry".to_string());
    assert_eq!(reg.problems_dir(), "/home/u/.nightwhale/registry/problems");
    assert_eq!(reg.source_root(), "/home/u/.nightwhale/registry");
    assert_eq!(Registry::problem_file("/r/problems/mem"), "/r/problems/mem/problem.yaml");
    assert_eq!(Registry::ideas_dir("/r/problems/mem"), "/r/problems/mem/ideas");
}

#[test]
fn idea_location_splits_at_first_slash() {
    let reg = Registry::open("/r".to_string());
    assert_eq!(
        reg.idea_location("mem/vectors"),
        Some(("mem".to_string(), "/r/problems/mem/ideas/vectors.yaml".to_string()))
    );
    assert_eq!(
        reg.idea_location("a/b/c"),
        Some(("a".to_string(), "/r/problems/a/ideas/b/c.yaml".to_string()))
    );
    assert_eq!(reg.idea_location("a//b"), Some(("a".to_string(), "/b.yaml".to_string())));
    assert_eq!(reg.idea_location("/x"), Some(("".to_string(), "/r/problems/ideas/x.yaml".to_string())));
    assert_eq!(reg.idea_location("noslash"), None);
    assert_eq!(reg.idea_location(""), None);
}

#[test]
fn counts_ideas_across_problems() {
    let all = vec![memory_problem(), problem("x", "", "", &[], vec![]), memory_problem()];
    assert_eq!(idea_count(&all), Some(4));
    assert_eq!(idea_count(&Vec::new()), Some(0));
}

fn expected_path(p: &str, slug: &str) -> String {
    std::path::PathBuf::from("/r")
        .join("problems")
        .join(p)
        .join("ideas")
        .join(format!("{slug}.yaml"))
        .to_str()
        .unwrap()
        .to_string()
}

#[test]
fn an_ideas_id_locates_its_own_file() {
    let reg = Registry::open("/r".to_string());
    for (p, slug) in [("mem", "vectors"), ("agent-memory", "a/b"), ("", "x"), ("p", "")] {
        let i = idea(p, slug, "t", "", &[]);
        let id = i.id();
        assert_eq!(
            reg.idea_location(&id),
            Some((p.to_string(), expected_path(p, slug)))
        );
    }
}

#[test]
fn slug_files_are_idea_files() {
    for slug in ["vectors", "a.b", "x", "夜鲲", ".hidden"] {
        assert!(is_idea_file(&format!("{slug}.yaml")), "{slug}");
    }
    assert!(!is_idea_file(".yaml"));
}

#[test]
fn joined_queries_match_when_both_do() {
    let hay = "agent memory across sessions";
    for (q1, q2) in [("agent", "memory"), ("agent", "zzz"), ("", "sessions"), ("  ", ""), ("mem ory", "agent")] {
        let both = format!("{} {}", q1, q2);
        assert_eq!(all_terms_occur(hay, &both), all_terms_occur(hay, q1) && all_terms_occur(hay, q2), "{both:?}");
    }
    let p = memory_problem();
    for q in ["agent", "vector blockchain", "RAG"] {
        assert_eq!(nightwhale::registry::matches(&p, &format!("{} {}", q, q)), nightwhale::registry::matches(&p, q));
    }
}

#[test]
fn idea_order_and_extra_ideas_keep_matches() {
    let p = memory_problem();
    let mut reordered = memory_problem();
    reordered.ideas.reverse();
    let mut more = memory_problem();
    more.ideas.insert(1, idea("agent-memory", "graph", "Knowledge graph", "Link facts", &["graph"]));
    for q in ["rolling", "vector", "rag compression", "graph", "nothing", ""] {
        let m = nightwhale::registry::matches(&p, q);
        assert_eq!(nightwhale::registry::matches(&reordered, q), m, "{q}");
        if m {
            assert!(nightwhale::registry::matches(&more, q), "{q}");
        }
    }
    assert!(!nightwhale::registry::matches(&p, "graph"));
    assert!(nightwhale::registry::matches(&more, "graph"));
}

#[test]
fn unsearched_fields_do_not_count() {
    let p = memory_problem();
    let mut q = memory_problem();
    q.problem.slug = "renamed".to_string();
    for i in q.ideas.iter_mut() {
        i.slug = "other".to_string();
        i.author = "agent vector".to_string();
        i.source_repo = "zzz".to_string();
        i.source_path = "yyy".to_string();
    }
    for query in ["agent", "zzz", "yyy", "renamed", "vector", "other"] {
        assert_eq!(nightwhale::registry::matches(&p, query), nightwhale::registry::matches(&q, query), "{query}");
    }
}

#[test]
fn listing_order_does_not_change_the_sort() {
    let make = |order: &[&str]| -> Vec<ProblemWithIdeas> {
        order.iter().map(|s| problem(s, s, "", &[], vec![])).collect()
    };
    let a = sort_by_slug(make(&["c", "a", "b"]));
    let b = sort_by_slug(make(&["b", "c", "a"]));
    let c = sort_by_slug(make(&["a", "b", "c"]));
    let slugs = |v: &Vec<ProblemWithIdeas>| v.iter().map(|p| p.problem.slug.clone()).collect::<Vec<_>>();
    assert_eq!(slugs(&a), slugs(&b));
    assert_eq!(slugs(&a), slugs(&c));
    assert_eq!(slugs(&a), vec!["a", "b", "c"]);
}

#[test]
fn relink_sets_the_problem_slug() {
    let i = relink(idea("wrong", "s", "T", "R", &["t"]), "right".to_string());
    assert_eq!(i.problem_slug, "right");
    assert_eq!(i.slug, "s");
    assert_eq!(i.title, "T");
}

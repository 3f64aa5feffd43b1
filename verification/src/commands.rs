//! What the command-line front end shows that is decided here: the status
//! markers of search results and ledger listings, and the template for
//! proposing a new idea.

use vstd::prelude::*;
use vstd::string::StringExecFns;

use crate::model::IdeaStatus;

verus! {

/// The marker shown after an idea in search results, by its status in the
/// ledger (none when the idea was never bought).
pub open spec fn search_marker_text(status: Option<IdeaStatus>) -> Seq<char> {
    match status {
        Some(IdeaStatus::Bought) => " [bought]"@,
        Some(IdeaStatus::Improved) => " [improved]"@,
        Some(IdeaStatus::Rejected) => " [rejected]"@,
        None => ""@,
    }
}

/// The marker shown after an idea in search results.
pub fn search_marker(status: Option<IdeaStatus>) -> (r: &'static str)
    ensures
        r@ == search_marker_text(status),
{
    match status {
        Some(IdeaStatus::Bought) => " [bought]",
        Some(IdeaStatus::Improved) => " [improved]",
        Some(IdeaStatus::Rejected) => " [rejected]",
        None => "",
    }
}

/// The colored label of a status in the ledger listing.
pub open spec fn status_label_text(status: IdeaStatus) -> Seq<char> {
    match status {
        IdeaStatus::Bought => "\x1b[33mbought\x1b[0m"@,
        IdeaStatus::Improved => "\x1b[32mimproved\x1b[0m"@,
        IdeaStatus::Rejected => "\x1b[31mrejected\x1b[0m"@,
    }
}

/// The colored label of a status in the ledger listing.
pub fn status_label(status: IdeaStatus) -> (r: &'static str)
    ensures
        r@ == status_label_text(status),
{
    match status {
        IdeaStatus::Bought => "\x1b[33mbought\x1b[0m",
        IdeaStatus::Improved => "\x1b[32mimproved\x1b[0m",
        IdeaStatus::Rejected => "\x1b[31mrejected\x1b[0m",
    }
}

/// The yaml template for proposing idea `idea` under problem `problem`.
pub open spec fn propose_template_text(problem: Seq<char>, idea: Seq<char>) -> Seq<char> {
    "# Copy this into the registry as:\n#   problems/"@ + problem
        + "/problem.yaml   (if the problem is new)\n#   problems/"@ + problem + "/ideas/"@ + idea
        + ".yaml\n# then open a PR to https://github.com/nightwhale-dev/registry\n\n# --- problem.yaml (skip if the problem already exists) ---\nslug: "@
        + problem
        + "\ntitle: \"<one-line problem statement>\"\ndescription: \"<what's the actual pain, in whose words>\"\ntags: []\n\n# --- ideas/"@
        + idea + ".yaml ---\nslug: "@ + idea + "\nproblem_slug: "@ + problem
        + "\ntitle: \"<your approach in a phrase>\"\nrationale: \"<WHY this way — the insight, not just the what>\"\nauthor: \"<your handle>\"\nsource_repo: \"<url to the readable source>\"\nsource_path: \"problems/"@
        + problem + "/vendor/"@ + idea + "\"  # vendor the code into the registry\ntags: []\n"@
}

/// A PR-ready yaml template to propose idea `idea` under problem `problem`
/// to the registry.
pub fn propose_template(problem: &str, idea: &str) -> (r: String)
    ensures
        r@ == propose_template_text(problem@, idea@),
{
    let mut r = String::from_str("# Copy this into the registry as:\n#   problems/");
    r.append(problem);
    r.append("/problem.yaml   (if the problem is new)\n#   problems/");
    r.append(problem);
    r.append("/ideas/");
    r.append(idea);
    r.append(
        ".yaml\n# then open a PR to https://github.com/nightwhale-dev/registry\n\n# --- problem.yaml (skip if the problem already exists) ---\nslug: ",
    );
    r.append(problem);
    r.append(
        "\ntitle: \"<one-line problem statement>\"\ndescription: \"<what's the actual pain, in whose words>\"\ntags: []\n\n# --- ideas/",
    );
    r.append(idea);
    r.append(".yaml ---\nslug: ");
    r.append(idea);
    r.append("\nproblem_slug: ");
    r.append(problem);
    r.append(
        "\ntitle: \"<your approach in a phrase>\"\nrationale: \"<WHY this way — the insight, not just the what>\"\nauthor: \"<your handle>\"\nsource_repo: \"<url to the readable source>\"\nsource_path: \"problems/",
    );
    r.append(problem);
    r.append("/vendor/");
    r.append(idea);
    r.append("\"  # vendor the code into the registry\ntags: []\n");
    r
}

} // verus!

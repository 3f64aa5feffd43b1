//! Local repo layer: the layout of `~/.nightwhale/` (the ledger, the synced
//! registry clone and the bought ideas' sources), the plan for syncing the
//! registry, and the ledger updates that buying, rejecting and improving make.

use vstd::prelude::*;

use vstd::string::StringExecFns;

use crate::model::{
    bought_entry, improved_entry, never_bought_message, rejected_entry, Idea, IdeaStatus, Ledger,
    LedgerAction, LedgerEntryView,
    NeverBought,
};
use crate::paths::{flatten, flatten_id, join_path, path_join};
use crate::text::{opt_view, views};

verus! {

/// Where the public idea registry lives.
pub const REGISTRY_URL: &'static str = "https://github.com/nightwhale-dev/registry.git";

/// The local repo rooted at a directory (normally `~/.nightwhale`).
pub struct LocalRepo {
    root: String,
}

/// A `git` invocation: the arguments, run in directory `cwd`.
pub struct GitRun {
    pub cwd: String,
    pub args: Vec<String>,
}

/// The seconds and nanoseconds elapsed since the Unix epoch by the system
/// clock (`SystemTime::now().duration_since(UNIX_EPOCH)`), or `None` when
/// the clock reads before the epoch. Nothing is stated of the time itself;
/// the nanoseconds are a fraction of a second, as `Duration::subsec_nanos`
/// documents.
#[verifier::external_body]
fn since_unix_epoch() -> (r: Option<(u64, u32)>)
    ensures
        r matches Some(d) ==> d.1 < 1_000_000_000,
{
    match std::time::SystemTime::now().duration_since(std::time::UNIX_EPOCH) {
        Ok(d) => Some((d.as_secs(), d.subsec_nanos())),
        Err(_) => None,
    }
}

/// The RFC 3339 text of the UTC instant `secs` seconds and `nanos`
/// nanoseconds after the Unix epoch, as chrono writes it.
pub uninterp spec fn rfc3339_utc(secs: i64, nanos: u32) -> Seq<char>;

/// The first second of the year 10000: up to it chrono writes the year
/// with four digits.
pub open spec fn year_10000() -> int {
    253_402_300_800
}

/// A UTC time stamp as chrono writes it: at least 25 characters, with a
/// `T` between date and time, ending in the offset `+00:00`.
pub open spec fn is_utc_stamp(t: Seq<char>) -> bool {
    &&& t.len() >= 25
    &&& t.contains('T')
    &&& t.subrange(t.len() - 6, t.len() as int) == "+00:00"@
}

/// `chrono::DateTime::<Utc>::from_timestamp(secs, nanos)` followed by
/// `to_rfc3339`. `from_timestamp` gives `None` outside chrono's range of
/// dates or for an invalid nanosecond count; it gives a date for every
/// instant from the epoch to the year 10000 with `nanos` under a second.
/// `to_rfc3339` writes `<year>-MM-DDTHH:MM:SS[.fraction]+00:00` with the
/// year in four digits from year 0 to 9999 and in five or more with a sign
/// outside them; the text is named by `rfc3339_utc`.
#[verifier::external_body]
fn format_rfc3339(secs: i64, nanos: u32) -> (r: Option<String>)
    ensures
        0 <= secs < year_10000() && nanos < 1_000_000_000 ==> r is Some,
        r matches Some(t) ==> t@ == rfc3339_utc(secs, nanos) && is_utc_stamp(t@),
        0 <= secs < year_10000() ==> (r matches Some(t) ==> t@[10] == 'T'),
{
    match chrono::DateTime::from_timestamp(secs, nanos) {
        Some(d) => Some(d.to_rfc3339()),
        None => None,
    }
}

/// A stamp is the RFC 3339 text of some instant, as chrono writes it.
pub open spec fn is_rfc3339_text(t: Seq<char>) -> bool {
    exists|s: i64, n: u32| t == #[trigger] rfc3339_utc(s, n)
}

/// The RFC 3339 UTC stamp of the instant `secs` seconds and `nanos`
/// nanoseconds after the Unix epoch; `None` when the seconds do not fit in
/// an `i64` or chrono cannot represent the instant.
pub fn utc_stamp(secs: u64, nanos: u32) -> (r: Option<String>)
    ensures
        secs <= i64::MAX ==> (r matches Some(t) ==> t@ == rfc3339_utc(secs as i64, nanos)),
        secs < year_10000() && nanos < 1_000_000_000 ==> r is Some,
        secs > i64::MAX ==> r is None,
        r matches Some(t) ==> is_utc_stamp(t@),
        secs < year_10000() ==> (r matches Some(t) ==> t@[10] == 'T'),
{
    if secs <= 9_223_372_036_854_775_807u64 {
        format_rfc3339(secs as i64, nanos)
    } else {
        None
    }
}

/// The current time as an RFC 3339 UTC stamp, or `None` when the system
/// clock cannot be read as a time after the Unix epoch. The stamp is
/// `utc_stamp` of the clock's reading.
pub fn now_iso() -> (r: Option<String>)
    ensures
        r matches Some(t) ==> is_utc_stamp(t@) && is_rfc3339_text(t@),
{
    match since_unix_epoch() {
        None => None,
        Some((secs, nanos)) => {
            let r = utc_stamp(secs, nanos);
            proof {
                if r is Some {
                    assert(r->0@ == rfc3339_utc(secs as i64, nanos));
                }
            }
            r
        },
    }
}

/// Why a ledger record was not made.
#[derive(Debug)]
pub enum RecordError {
    /// The idea was never bought.
    NeverBought(NeverBought),
    /// The system clock reads before the Unix epoch, so no time stamp.
    ClockUnavailable,
}

/// The message of a refused record.
pub open spec fn record_error_text(e: RecordError) -> Seq<char> {
    match e {
        RecordError::NeverBought(n) => never_bought_message(n.idea_id@, n.action),
        RecordError::ClockUnavailable => "the system clock reads before the Unix epoch"@,
    }
}

impl RecordError {
    /// The message shown to the user.
    pub fn message(&self) -> (r: String)
        ensures
            r@ == record_error_text(*self),
    {
        match self {
            RecordError::NeverBought(n) => n.message(),
            RecordError::ClockUnavailable => String::from_str("the system clock reads before the Unix epoch"),
        }
    }
}

impl LocalRepo {
    /// The repo's root directory.
    pub closed spec fn root(&self) -> Seq<char> {
        self.root@
    }

    /// The local repo under the home directory `home`: `<home>/.nightwhale`.
    pub fn in_home(home: &str) -> (r: LocalRepo)
        ensures
            r.root() == path_join(home@, ".nightwhale"@),
    {
        LocalRepo { root: join_path(home, ".nightwhale") }
    }

    /// Where the registry clone lives: `<root>/registry`.
    pub fn registry_path(&self) -> (r: String)
        ensures
            r@ == path_join(self.root(), "registry"@),
    {
        join_path(self.root.as_str(), "registry")
    }

    /// Where bought ideas' sources live: `<root>/ideas`.
    pub fn ideas_path(&self) -> (r: String)
        ensures
            r@ == path_join(self.root(), "ideas"@),
    {
        join_path(self.root.as_str(), "ideas")
    }

    /// The directory of a bought idea: the id, with each `/` flattened to
    /// `__`, as one directory directly under the ideas path.
    pub fn idea_dir(&self, idea_id: &str) -> (r: String)
        ensures
            r@ == path_join(path_join(self.root(), "ideas"@), flatten_id(idea_id@)),
    {
        let ideas = self.ideas_path();
        let name = flatten(idea_id);
        join_path(ideas.as_str(), name.as_str())
    }

    /// Where the ledger is stored: `<root>/ledger.json`.
    pub fn ledger_path(&self) -> (r: String)
        ensures
            r@ == path_join(self.root(), "ledger.json"@),
    {
        join_path(self.root.as_str(), "ledger.json")
    }

    /// The directory whose presence shows that the registry was cloned:
    /// `<root>/registry/.git`.
    pub fn registry_git_dir(&self) -> (r: String)
        ensures
            r@ == path_join(path_join(self.root(), "registry"@), ".git"@),
    {
        let reg = self.registry_path();
        join_path(reg.as_str(), ".git")
    }

    /// How to sync the registry: `git pull --ff-only` inside the clone when
    /// it exists (`cloned`), else `git clone <REGISTRY_URL> registry` in the
    /// root.
    pub fn sync_registry(&self, cloned: bool) -> (r: GitRun)
        ensures
            cloned ==> r.cwd@ == path_join(self.root(), "registry"@) && views(r.args@) == seq![
                "pull"@,
                "--ff-only"@,
            ],
            !cloned ==> r.cwd@ == self.root() && views(r.args@) == seq![
                "clone"@,
                REGISTRY_URL@,
                "registry"@,
            ],
    {
        if cloned {
            let mut args: Vec<String> = Vec::new();
            args.push(String::from_str("pull"));
            args.push(String::from_str("--ff-only"));
            assert(views(args@) =~= seq!["pull"@, "--ff-only"@]);
            GitRun { cwd: self.registry_path(), args }
        } else {
            let mut args: Vec<String> = Vec::new();
            args.push(String::from_str("clone"));
            args.push(String::from_str(REGISTRY_URL));
            args.push(String::from_str("registry"));
            assert(views(args@) =~= seq!["clone"@, REGISTRY_URL@, "registry"@]);
            GitRun { cwd: self.root.clone(), args }
        }
    }

    /// Records in `ledger` that `idea_id` was bought now: a fresh `Bought`
    /// entry stamped with the current time. Refused, with the ledger
    /// unchanged, when the clock cannot be read.
    pub fn record_bought(&self, ledger: &mut Ledger, idea_id: &str) -> (r: Result<(), RecordError>)
        ensures
            r is Ok ==> final(ledger)@ == old(ledger)@.insert(
                idea_id@,
                bought_entry(idea_id@, final(ledger)@[idea_id@].bought_at),
            ),
            r is Ok ==> is_utc_stamp(final(ledger)@[idea_id@].bought_at),
            r is Ok ==> is_rfc3339_text(final(ledger)@[idea_id@].bought_at),
            r is Err ==> final(ledger)@ == old(ledger)@,
            r is Err ==> r matches Err(RecordError::ClockUnavailable),
    {
        let now = now_iso();
        self.record_bought_at(ledger, idea_id, now)
    }

    /// Records in `ledger` that `idea_id` was bought at the clock reading
    /// `now`: whenever there is a reading, a fresh `Bought` entry stamped with
    /// it replaces whatever the ledger held for that id, and every other
    /// entry stays; without a reading nothing changes.
    pub fn record_bought_at(&self, ledger: &mut Ledger, idea_id: &str, now: Option<String>) -> (r:
        Result<(), RecordError>)
        ensures
            now matches Some(t) ==> r is Ok && final(ledger)@ == old(ledger)@.insert(
                idea_id@,
                LedgerEntryView {
                    idea_id: idea_id@,
                    status: IdeaStatus::Bought,
                    bought_at: t@,
                    updated_at: None,
                    rejection_reason: None,
                    improvement_note: None,
                },
            ),
            now is None ==> (r matches Err(RecordError::ClockUnavailable)) && final(ledger)@ == old(
                ledger,
            )@,
    {
        match now {
            Some(now) => {
                ledger.mark_bought(idea_id, now);
                Ok(())
            },
            None => Err(RecordError::ClockUnavailable),
        }
    }

    /// Records in `ledger` that `idea_id` was tried and rejected now, for
    /// `reason`. Refused, with the ledger unchanged, if it was never bought
    /// or when the clock cannot be read.
    pub fn record_rejected(&self, ledger: &mut Ledger, idea_id: &str, reason: Option<String>) -> (r:
        Result<(), RecordError>)
        ensures
            r matches Err(RecordError::NeverBought(_)) <==> !old(ledger)@.contains_key(idea_id@),
            r matches Err(RecordError::NeverBought(e)) ==> e.idea_id@ == idea_id@ && e.action
                == LedgerAction::Uninstall,
            r is Ok ==> final(ledger)@ == old(ledger)@.insert(
                idea_id@,
                rejected_entry(
                    old(ledger)@[idea_id@],
                    final(ledger)@[idea_id@].updated_at->0,
                    opt_view(reason),
                ),
            ),
            r is Ok ==> (final(ledger)@[idea_id@].updated_at matches Some(t) && is_utc_stamp(t)
                && is_rfc3339_text(t)),
            r is Err ==> final(ledger)@ == old(ledger)@,
    {
        if ledger.get(idea_id).is_none() {
            return Err(
                RecordError::NeverBought(
                    NeverBought { idea_id: String::from_str(idea_id), action: LedgerAction::Uninstall },
                ),
            );
        }
        let now = now_iso();
        self.record_rejected_at(ledger, idea_id, reason, now)
    }

    /// Records in `ledger` that `idea_id` was tried and rejected at the clock
    /// reading `now`, for `reason` (or none). For an idea in the ledger it
    /// succeeds whenever there is a reading, whatever the reason and the
    /// entry's status: the entry is kept, marked rejected at `now` with the
    /// reason, and nothing else changes. Refused, with the ledger unchanged,
    /// if the idea was never bought or there is no reading.
    pub fn record_rejected_at(
        &self,
        ledger: &mut Ledger,
        idea_id: &str,
        reason: Option<String>,
        now: Option<String>,
    ) -> (r: Result<(), RecordError>)
        ensures
            !old(ledger)@.contains_key(idea_id@) ==> (r matches Err(RecordError::NeverBought(e))
                && e.idea_id@ == idea_id@ && e.action == LedgerAction::Uninstall),
            old(ledger)@.contains_key(idea_id@) && now is None ==> (r matches Err(
                RecordError::ClockUnavailable,
            )),
            r is Err ==> final(ledger)@ == old(ledger)@,
            old(ledger)@.contains_key(idea_id@) ==> (now matches Some(t) ==> r is Ok && final(ledger)@
                == old(ledger)@.insert(
                idea_id@,
                LedgerEntryView {
                    status: IdeaStatus::Rejected,
                    updated_at: Some(t@),
                    rejection_reason: opt_view(reason),
                    ..old(ledger)@[idea_id@]
                },
            )),
    {
        match now {
            Some(now) => match ledger.mark_rejected(idea_id, now, reason) {
                Ok(()) => Ok(()),
                Err(e) => Err(RecordError::NeverBought(e)),
            },
            None => {
                if ledger.get(idea_id).is_none() {
                    return Err(
                        RecordError::NeverBought(
                            NeverBought { idea_id: String::from_str(idea_id), action: LedgerAction::Uninstall },
                        ),
                    );
                }
                Err(RecordError::ClockUnavailable)
            },
        }
    }

    /// Records in `ledger` that `idea_id` was improved now, with `note`.
    /// Refused, with the ledger unchanged, if it was never bought or when
    /// the clock cannot be read.
    pub fn record_improved(&self, ledger: &mut Ledger, idea_id: &str, note: String) -> (r: Result<
        (),
        RecordError,
    >)
        ensures
            r matches Err(RecordError::NeverBought(_)) <==> !old(ledger)@.contains_key(idea_id@),
            r matches Err(RecordError::NeverBought(e)) ==> e.idea_id@ == idea_id@ && e.action
                == LedgerAction::Improve,
            r is Ok ==> final(ledger)@ == old(ledger)@.insert(
                idea_id@,
                improved_entry(old(ledger)@[idea_id@], final(ledger)@[idea_id@].updated_at->0, note@),
            ),
            r is Ok ==> (final(ledger)@[idea_id@].updated_at matches Some(t) && is_utc_stamp(t)
                && is_rfc3339_text(t)),
            r is Err ==> final(ledger)@ == old(ledger)@,
    {
        if ledger.get(idea_id).is_none() {
            return Err(
                RecordError::NeverBought(
                    NeverBought { idea_id: String::from_str(idea_id), action: LedgerAction::Improve },
                ),
            );
        }
        let now = now_iso();
        self.record_improved_at(ledger, idea_id, note, now)
    }

    /// Records in `ledger` that `idea_id` was improved at the clock reading
    /// `now`, with `note`. For an idea in the ledger it succeeds whenever
    /// there is a reading, whatever the entry's status (bought, improved or
    /// rejected): the entry is marked improved at `now` with the note, and
    /// nothing else changes. Refused, with the ledger unchanged, if the idea
    /// was never bought or there is no reading.
    pub fn record_improved_at(&self, ledger: &mut Ledger, idea_id: &str, note: String, now: Option<String>) -> (r:
        Result<(), RecordError>)
        ensures
            !old(ledger)@.contains_key(idea_id@) ==> (r matches Err(RecordError::NeverBought(e))
                && e.idea_id@ == idea_id@ && e.action == LedgerAction::Improve),
            old(ledger)@.contains_key(idea_id@) && now is None ==> (r matches Err(
                RecordError::ClockUnavailable,
            )),
            r is Err ==> final(ledger)@ == old(ledger)@,
            old(ledger)@.contains_key(idea_id@) ==> (now matches Some(t) ==> r is Ok && final(ledger)@
                == old(ledger)@.insert(
                idea_id@,
                LedgerEntryView {
                    status: IdeaStatus::Improved,
                    updated_at: Some(t@),
                    improvement_note: Some(note@),
                    ..old(ledger)@[idea_id@]
                },
            )),
    {
        match now {
            Some(now) => match ledger.mark_improved(idea_id, now, note) {
                Ok(()) => Ok(()),
                Err(e) => Err(RecordError::NeverBought(e)),
            },
            None => {
                if ledger.get(idea_id).is_none() {
                    return Err(
                        RecordError::NeverBought(
                            NeverBought { idea_id: String::from_str(idea_id), action: LedgerAction::Improve },
                        ),
                    );
                }
                Err(RecordError::ClockUnavailable)
            },
        }
    }
}

/// The provenance note written beside a bought idea's source (`SOURCE.md`).
pub open spec fn source_note_text(idea: Idea) -> Seq<char> {
    "# Source\n\n- Idea: "@ + idea.title@ + "\n- Author: "@ + idea.author@ + "\n- Origin repo: "@
        + idea.source_repo@ + "\n- Origin path: "@ + idea.source_path@ + "\n- Rationale: "@
        + idea.rationale@ + "\n"@
}

/// The provenance note written as `SOURCE.md` beside a bought idea's
/// source: its title, author, origin repo and path, and rationale.
pub fn source_note(idea: &Idea) -> (r: String)
    ensures
        r@ == source_note_text(*idea),
{
    let mut r = String::from_str("# Source\n\n- Idea: ");
    r.append(idea.title.as_str());
    r.append("\n- Author: ");
    r.append(idea.author.as_str());
    r.append("\n- Origin repo: ");
    r.append(idea.source_repo.as_str());
    r.append("\n- Origin path: ");
    r.append(idea.source_path.as_str());
    r.append("\n- Rationale: ");
    r.append(idea.rationale.as_str());
    r.append("\n");
    r
}

/// Why buying an idea's source was refused.
pub enum FetchError {
    /// The idea's directory already exists.
    AlreadyBought { idea_id: String, dest: String },
    /// The idea's source path does not exist in the registry.
    SourceMissing { source_path: String, expected: String },
}

/// The message of a refused fetch.
pub open spec fn fetch_error_text(e: FetchError) -> Seq<char> {
    match e {
        FetchError::AlreadyBought { idea_id, dest } => idea_id@ + " is already bought at "@ + dest@
            + ". Uninstall it first if you want to re-fetch."@,
        FetchError::SourceMissing { source_path, expected } => "source path '"@ + source_path@
            + "' not found in registry (expected at "@ + expected@ + ")"@,
    }
}

impl FetchError {
    /// The message shown to the user.
    pub fn message(&self) -> (r: String)
        ensures
            r@ == fetch_error_text(*self),
    {
        match self {
            FetchError::AlreadyBought { idea_id, dest } => {
                let mut r = idea_id.clone();
                r.append(" is already bought at ");
                r.append(dest.as_str());
                r.append(". Uninstall it first if you want to re-fetch.");
                r
            },
            FetchError::SourceMissing { source_path, expected } => {
                let mut r = String::from_str("source path '");
                r.append(source_path.as_str());
                r.append("' not found in registry (expected at ");
                r.append(expected.as_str());
                r.append(")");
                r
            },
        }
    }
}

} // verus!

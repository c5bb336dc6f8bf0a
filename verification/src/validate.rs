//! The `validate` command's findings: the running tally of errors and
//! warnings, the line each finding is printed as, the closing summary with the
//! exit status, and the checks that turn inspected facts into findings.
use vstd::prelude::*;
use crate::text::{
    chars_of, decimal, pad_right, push_decimal, push_padded, push_str, string_from_chars,
};
use crate::yaml::strings_view;
use crate::status::{Action, FilePlan, RepoPlan};

verus! {

broadcast use vstd::string::group_string_axioms;

/// The `s` of a plural count.
pub open spec fn plural_text(n: nat) -> Seq<char> {
    if n == 1 {
        ""@
    } else {
        "s"@
    }
}

pub fn plural(count: usize) -> (r: &'static str)
    ensures
        r@ == plural_text(count as nat),
{
    if count == 1 {
        ""
    } else {
        "s"
    }
}

/// The `y` or `ies` of a plural "repository" count.
pub open spec fn plural_y_text(n: nat) -> Seq<char> {
    if n == 1 {
        "y"@
    } else {
        "ies"@
    }
}

pub fn plural_y(count: usize) -> (r: &'static str)
    ensures
        r@ == plural_y_text(count as nat),
{
    if count == 1 {
        "y"
    } else {
        "ies"
    }
}

/// A finding as it is printed: the tag padded to the width of `[ERROR]`, so
/// the messages line up.
pub open spec fn finding(tag: Seq<char>, message: Seq<char>) -> Seq<char> {
    pad_right(tag, 6) + " "@ + message
}

/// The running tally of findings. Every check emits its line as it runs, so
/// the report is in check order; only the counts are kept.
pub struct Report {
    pub errors: usize,
    pub warnings: usize,
}

/// The closing summary line.
pub open spec fn summary_text(errors: usize, warnings: usize) -> Seq<char> {
    if errors > 0 {
        "Validation failed with "@ + decimal(errors as nat) + " error"@ + plural_text(errors as nat)
            + " and "@ + decimal(warnings as nat) + " warning"@ + plural_text(warnings as nat)
            + "."@
    } else {
        "Validation completed with "@ + decimal(warnings as nat) + " warning"@ + plural_text(
            warnings as nat,
        ) + "."@
    }
}

fn finding_line(tag: &str, message: &str) -> (r: String)
    ensures
        r@ == finding(tag@, message@),
{
    let mut out: Vec<char> = Vec::new();
    push_padded(&mut out, &chars_of(tag), 6);
    push_str(&mut out, " ");
    push_str(&mut out, message);
    assert(out@ =~= finding(tag@, message@));
    string_from_chars(&out)
}

impl Report {
    /// A tally with nothing found yet.
    pub fn new() -> (r: Report)
        ensures
            r.errors == 0,
            r.warnings == 0,
    {
        Report { errors: 0, warnings: 0 }
    }

    /// A passed check.
    pub fn ok(&self, message: &str) -> (r: String)
        ensures
            r@ == finding("[OK]"@, message@),
    {
        finding_line("[OK]", message)
    }

    /// Informational only: nothing is wrong, and the exit status is unaffected.
    pub fn info(&self, message: &str) -> (r: String)
        ensures
            r@ == finding("[INFO]"@, message@),
    {
        finding_line("[INFO]", message)
    }

    /// A warning, counted.
    pub fn warn(&mut self, message: &str) -> (r: String)
        requires
            old(self).warnings < usize::MAX,
        ensures
            final(self).warnings == old(self).warnings + 1,
            final(self).errors == old(self).errors,
            r@ == finding("[WARN]"@, message@),
    {
        self.warnings = self.warnings + 1;
        finding_line("[WARN]", message)
    }

    /// A failed check, counted.
    pub fn error(&mut self, message: &str) -> (r: String)
        requires
            old(self).errors < usize::MAX,
        ensures
            final(self).errors == old(self).errors + 1,
            final(self).warnings == old(self).warnings,
            r@ == finding("[ERROR]"@, message@),
    {
        self.errors = self.errors + 1;
        finding_line("[ERROR]", message)
    }

    /// The closing lines, a blank line and the summary, and the exit status:
    /// `1` when any check failed, `0` when there were only warnings.
    pub fn finish(&self) -> (r: (Vec<String>, u8))
        ensures
            strings_view(r.0@) == seq![Seq::<char>::empty(), summary_text(self.errors, self.warnings)],
            r.1 == (if self.errors > 0 {
                1u8
            } else {
                0u8
            }),
    {
        let mut out: Vec<char> = Vec::new();
        let code: u8;
        if self.errors > 0 {
            push_str(&mut out, "Validation failed with ");
            push_decimal(&mut out, self.errors);
            push_str(&mut out, " error");
            push_str(&mut out, plural(self.errors));
            push_str(&mut out, " and ");
            push_decimal(&mut out, self.warnings);
            push_str(&mut out, " warning");
            push_str(&mut out, plural(self.warnings));
            push_str(&mut out, ".");
            code = 1;
        } else {
            push_str(&mut out, "Validation completed with ");
            push_decimal(&mut out, self.warnings);
            push_str(&mut out, " warning");
            push_str(&mut out, plural(self.warnings));
            push_str(&mut out, ".");
            code = 0;
        }
        assert(out@ =~= summary_text(self.errors, self.warnings));
        let lines = vec![String::new(), string_from_chars(&out)];
        assert(strings_view(lines@) =~= seq![Seq::<char>::empty(), summary_text(self.errors, self.warnings)]);
        (lines, code)
    }
}

/// What inspecting one manifest repository's checkout found.
pub struct RepoCheck {
    pub name: String,
    /// Its directory exists.
    pub present: bool,
    /// It is a git repository.
    pub git: bool,
    /// It holds a repository-specific context file.
    pub local_context: bool,
}

pub open spec fn healthy(c: RepoCheck) -> bool {
    c.present && c.git
}

/// How many checkouts are healthy.
pub open spec fn count_healthy(s: Seq<RepoCheck>) -> nat
    decreases s.len(),
{
    if s.len() == 0 {
        0
    } else {
        count_healthy(s.drop_last()) + if healthy(s.last()) {
            1nat
        } else {
            0nat
        }
    }
}

/// How many checkouts hold a repository-specific context file.
pub open spec fn count_local(s: Seq<RepoCheck>) -> nat
    decreases s.len(),
{
    if s.len() == 0 {
        0
    } else {
        count_local(s.drop_last()) + if s.last().local_context {
            1nat
        } else {
            0nat
        }
    }
}

/// The error a checkout is reported with, if any.
pub open spec fn repo_error(c: RepoCheck) -> Seq<Seq<char>> {
    if !c.present {
        seq![finding("[ERROR]"@, c.name@ + ": missing"@)]
    } else if !c.git {
        seq![finding("[ERROR]"@, c.name@ + ": not a git repository"@)]
    } else {
        Seq::empty()
    }
}

pub open spec fn repo_errors(s: Seq<RepoCheck>) -> Seq<Seq<char>>
    decreases s.len(),
{
    if s.len() == 0 {
        Seq::empty()
    } else {
        repo_errors(s.drop_last()) + repo_error(s.last())
    }
}

/// The findings about the manifest's checkouts: an error for each missing or
/// non-git checkout, a pass when all are healthy, and the informational tally
/// of repository-specific context files, which never fails a check.
pub open spec fn repository_findings(s: Seq<RepoCheck>) -> Seq<Seq<char>> {
    repo_errors(s) + (if count_healthy(s) == s.len() {
        seq![finding("[OK]"@, decimal(count_healthy(s)) + " source repositories"@)]
    } else {
        Seq::empty()
    }) + seq![
        finding(
            "[INFO]"@,
            "repository-specific context in "@ + decimal(count_local(s)) + " of "@ + decimal(
                s.len(),
            ) + " repositories"@,
        ),
    ]
}

/// Reports each checkout, then the tally.
pub fn check_repositories(report: &mut Report, repos: &Vec<RepoCheck>) -> (r: Vec<String>)
    requires
        old(report).errors + repos@.len() <= usize::MAX,
    ensures
        strings_view(r@) == repository_findings(repos@),
        final(report).errors == old(report).errors + (repos@.len() - count_healthy(repos@)),
        final(report).warnings == old(report).warnings,
{
    let mut out: Vec<String> = Vec::new();
    let mut healthy_count: usize = 0;
    let mut with_local: usize = 0;
    let mut k: usize = 0;
    while k < repos.len()
        invariant
            0 <= k <= repos.len(),
            old(report).errors + repos@.len() <= usize::MAX,
            healthy_count == count_healthy(repos@.take(k as int)),
            with_local == count_local(repos@.take(k as int)),
            healthy_count <= k,
            with_local <= k,
            report.errors == old(report).errors + (k - healthy_count),
            report.warnings == old(report).warnings,
            strings_view(out@) == repo_errors(repos@.take(k as int)),
        decreases repos.len() - k,
    {
        let c = &repos[k];
        proof {
            assert(repos@.take(k + 1).drop_last() =~= repos@.take(k as int));
            assert(repos@.take(k + 1).last() == *c);
        }
        if !c.present {
            let mut m: Vec<char> = chars_of(c.name.as_str());
            push_str(&mut m, ": missing");
            let line = report.error(string_from_chars(&m).as_str());
            proof {
                assert(strings_view(out@.push(line)) =~= strings_view(out@) + repo_error(*c));
            }
            out.push(line);
        } else if !c.git {
            let mut m: Vec<char> = chars_of(c.name.as_str());
            push_str(&mut m, ": not a git repository");
            let line = report.error(string_from_chars(&m).as_str());
            proof {
                assert(strings_view(out@.push(line)) =~= strings_view(out@) + repo_error(*c));
            }
            out.push(line);
        } else {
            healthy_count = healthy_count + 1;
            assert(strings_view(out@) =~= strings_view(out@) + repo_error(*c));
        }
        if c.local_context {
            with_local = with_local + 1;
        }
        k = k + 1;
    }
    assert(repos@.take(repos.len() as int) =~= repos@);
    let ghost errs = strings_view(out@);
    if healthy_count == repos.len() {
        let mut m: Vec<char> = Vec::new();
        push_decimal(&mut m, healthy_count);
        push_str(&mut m, " source repositories");
        let line = report.ok(string_from_chars(&m).as_str());
        proof {
            assert(strings_view(out@.push(line)) =~= strings_view(out@).push(line@));
        }
        out.push(line);
    }
    let mut m: Vec<char> = Vec::new();
    push_str(&mut m, "repository-specific context in ");
    push_decimal(&mut m, with_local);
    push_str(&mut m, " of ");
    push_decimal(&mut m, repos.len());
    push_str(&mut m, " repositories");
    let line = report.info(string_from_chars(&m).as_str());
    proof {
        assert(strings_view(out@.push(line)) =~= strings_view(out@).push(line@));
    }
    out.push(line);
    assert(strings_view(out@) =~= repository_findings(repos@));
    out
}

/// How many of the files are foreign.
pub open spec fn foreign_in(files: Seq<FilePlan>) -> nat
    decreases files.len(),
{
    if files.len() == 0 {
        0
    } else {
        foreign_in(files.drop_last()) + if files.last().action == Action::Foreign {
            1nat
        } else {
            0nat
        }
    }
}

/// How many files of all the plans are foreign.
pub open spec fn foreign_files(plans: Seq<RepoPlan>) -> nat
    decreases plans.len(),
{
    if plans.len() == 0 {
        0
    } else {
        foreign_files(plans.drop_last()) + foreign_in(plans.last().files@)
    }
}

/// How many repositories' generated context is stale: absent or differing.
pub open spec fn stale_count(plans: Seq<RepoPlan>) -> nat
    decreases plans.len(),
{
    if plans.len() == 0 {
        0
    } else {
        stale_count(plans.drop_last()) + if plans.last().action == Action::Create
            || plans.last().action == Action::Update {
            1nat
        } else {
            0nat
        }
    }
}

/// The error for a foreign file: it needs a human to rename or delete it.
pub open spec fn foreign_error(repo: Seq<char>, path: Seq<char>) -> Seq<char> {
    finding(
        "[ERROR]"@,
        repo + ": "@ + path
            + " exists but was not generated by zpr-dev; rename it to AGENTS.repo.md to have it included, or delete it"@,
    )
}

pub open spec fn file_errors(repo: Seq<char>, files: Seq<FilePlan>) -> Seq<Seq<char>>
    decreases files.len(),
{
    if files.len() == 0 {
        Seq::empty()
    } else {
        file_errors(repo, files.drop_last()) + if files.last().action == Action::Foreign {
            seq![foreign_error(repo, files.last().path@)]
        } else {
            Seq::empty()
        }
    }
}

pub open spec fn plan_errors(plans: Seq<RepoPlan>) -> Seq<Seq<char>>
    decreases plans.len(),
{
    if plans.len() == 0 {
        Seq::empty()
    } else {
        plan_errors(plans.drop_last()) + file_errors(plans.last().name@, plans.last().files@)
    }
}

/// The findings about the generated context: an error naming each foreign
/// file, then a pass, or a warning when any repository's context is stale.
pub open spec fn generated_findings(plans: Seq<RepoPlan>) -> Seq<Seq<char>> {
    let stale = stale_count(plans);
    plan_errors(plans) + if stale == 0 {
        seq![finding("[OK]"@, "generated context"@)]
    } else {
        seq![
            finding(
                "[WARN]"@,
                "generated context stale in "@ + decimal(stale) + " repositor"@ + plural_y_text(
                    stale,
                ) + " (run: zpr-dev sync)"@,
            ),
        ]
    }
}

/// Reports the foreign files of one plan.
fn check_files(report: &mut Report, plan: &RepoPlan, out: &mut Vec<String>)
    requires
        old(report).errors + foreign_in(plan.files@) <= usize::MAX,
    ensures
        strings_view(final(out)@) == strings_view(old(out)@) + file_errors(plan.name@, plan.files@),
        final(report).errors == old(report).errors + foreign_in(plan.files@),
        final(report).warnings == old(report).warnings,
{
    let files = &plan.files;
    let mut j: usize = 0;
    while j < files.len()
        invariant
            0 <= j <= files.len(),
            files == &plan.files,
            old(report).errors + foreign_in(files@) <= usize::MAX,
            foreign_in(files@.take(j as int)) <= foreign_in(files@),
            report.errors == old(report).errors + foreign_in(files@.take(j as int)),
            report.warnings == old(report).warnings,
            strings_view(out@) == strings_view(old(out)@) + file_errors(
                plan.name@,
                files@.take(j as int),
            ),
        decreases files.len() - j,
    {
        proof {
            assert(files@.take(j + 1).drop_last() =~= files@.take(j as int));
            lemma_foreign_in_prefix(files@, j + 1);
        }
        let f = &files[j];
        if f.action == Action::Foreign {
            let mut m: Vec<char> = chars_of(plan.name.as_str());
            push_str(&mut m, ": ");
            push_str(&mut m, f.path.as_str());
            push_str(
                &mut m,
                " exists but was not generated by zpr-dev; rename it to AGENTS.repo.md to have it included, or delete it",
            );
            let line = report.error(string_from_chars(&m).as_str());
            proof {
                assert(strings_view(out@.push(line)) =~= strings_view(out@).push(line@));
            }
            out.push(line);
        }
        j = j + 1;
    }
    assert(files@.take(files.len() as int) =~= files@);
}

/// `foreign_in` of a prefix is at most `foreign_in` of the whole.
pub proof fn lemma_foreign_in_prefix(files: Seq<FilePlan>, n: int)
    requires
        0 <= n <= files.len(),
    ensures
        foreign_in(files.take(n)) <= foreign_in(files),
    decreases files.len() - n,
{
    if n < files.len() {
        lemma_foreign_in_prefix(files, n + 1);
        assert(files.take(n + 1).drop_last() =~= files.take(n));
    } else {
        assert(files.take(n) =~= files);
    }
}

/// `foreign_files` of a prefix is at most `foreign_files` of the whole.
pub proof fn lemma_foreign_files_prefix(plans: Seq<RepoPlan>, n: int)
    requires
        0 <= n <= plans.len(),
    ensures
        foreign_files(plans.take(n)) <= foreign_files(plans),
    decreases plans.len() - n,
{
    if n < plans.len() {
        lemma_foreign_files_prefix(plans, n + 1);
        assert(plans.take(n + 1).drop_last() =~= plans.take(n));
    } else {
        assert(plans.take(n) =~= plans);
    }
}

/// Reports foreign files, then whether the generated context is up to date.
/// Drift is a warning: a hand-edited generated file and a stale one look the
/// same on disk. A foreign file is an error, because `sync` cannot clear it.
pub fn check_generated(report: &mut Report, plans: &Vec<RepoPlan>) -> (r: Vec<String>)
    requires
        old(report).errors + foreign_files(plans@) <= usize::MAX,
        old(report).warnings < usize::MAX,
    ensures
        strings_view(r@) == generated_findings(plans@),
        final(report).errors == old(report).errors + foreign_files(plans@),
        final(report).warnings == old(report).warnings + (if stale_count(plans@) > 0 {
            1int
        } else {
            0int
        }),
{
    let mut out: Vec<String> = Vec::new();
    let mut stale: usize = 0;
    let mut k: usize = 0;
    while k < plans.len()
        invariant
            0 <= k <= plans.len(),
            old(report).errors + foreign_files(plans@) <= usize::MAX,
            old(report).warnings < usize::MAX,
            foreign_files(plans@.take(k as int)) <= foreign_files(plans@),
            report.errors == old(report).errors + foreign_files(plans@.take(k as int)),
            report.warnings == old(report).warnings,
            stale == stale_count(plans@.take(k as int)),
            stale <= k,
            strings_view(out@) == plan_errors(plans@.take(k as int)),
        decreases plans.len() - k,
    {
        let plan = &plans[k];
        proof {
            assert(plans@.take(k + 1).drop_last() =~= plans@.take(k as int));
            assert(plans@.take(k + 1).last() == *plan);
            lemma_foreign_files_prefix(plans@, k + 1);
        }
        check_files(report, plan, &mut out);
        if plan.action == Action::Create || plan.action == Action::Update {
            stale = stale + 1;
        }
        k = k + 1;
    }
    assert(plans@.take(plans.len() as int) =~= plans@);
    let line = if stale == 0 {
        report.ok("generated context")
    } else {
        let mut m: Vec<char> = Vec::new();
        push_str(&mut m, "generated context stale in ");
        push_decimal(&mut m, stale);
        push_str(&mut m, " repositor");
        push_str(&mut m, plural_y(stale));
        push_str(&mut m, " (run: zpr-dev sync)");
        report.warn(string_from_chars(&m).as_str())
    };
    proof {
        assert(strings_view(out@.push(line)) =~= strings_view(out@).push(line@));
    }
    out.push(line);
    assert(strings_view(out@) =~= generated_findings(plans@));
    out
}

/// The findings about documentation references: a pass when none is broken,
/// else an error naming each.
pub open spec fn reference_findings(broken: Seq<Seq<char>>) -> Seq<Seq<char>> {
    if broken.len() == 0 {
        seq![finding("[OK]"@, "documentation references"@)]
    } else {
        broken.map_values(
            |b: Seq<char>| finding("[ERROR]"@, "documentation reference does not resolve: "@ + b),
        )
    }
}

pub fn check_references(report: &mut Report, broken: &Vec<String>) -> (r: Vec<String>)
    requires
        old(report).errors + broken@.len() <= usize::MAX,
    ensures
        strings_view(r@) == reference_findings(strings_view(broken@)),
        final(report).errors == old(report).errors + broken@.len(),
        final(report).warnings == old(report).warnings,
{
    let mut out: Vec<String> = Vec::new();
    if broken.len() == 0 {
        out.push(report.ok("documentation references"));
        assert(strings_view(out@) =~= reference_findings(strings_view(broken@)));
        return out;
    }
    let ghost f = |b: Seq<char>| finding("[ERROR]"@, "documentation reference does not resolve: "@ + b);
    let mut k: usize = 0;
    while k < broken.len()
        invariant
            0 <= k <= broken.len(),
            old(report).errors + broken@.len() <= usize::MAX,
            report.errors == old(report).errors + k,
            report.warnings == old(report).warnings,
            f == (|b: Seq<char>| finding("[ERROR]"@, "documentation reference does not resolve: "@ + b)),
            strings_view(out@) == strings_view(broken@).take(k as int).map_values(f),
        decreases broken.len() - k,
    {
        let mut m: Vec<char> = Vec::new();
        push_str(&mut m, "documentation reference does not resolve: ");
        push_str(&mut m, broken[k].as_str());
        let line = report.error(string_from_chars(&m).as_str());
        proof {
            assert(f(strings_view(broken@)[k as int]) == line@);
            assert(strings_view(broken@).take(k + 1).map_values(f) =~= strings_view(broken@).take(
                k as int,
            ).map_values(f).push(line@));
            assert(strings_view(out@.push(line)) =~= strings_view(out@).push(line@));
        }
        out.push(line);
        k = k + 1;
    }
    assert(strings_view(broken@).take(broken.len() as int) =~= strings_view(broken@));
    out
}

/// The finding about the declared shared skills directory: a pass when it
/// present, else a warning, since a stale manifest entry should not fail an
/// otherwise healthy workspace.
pub open spec fn skills_finding(relative: Seq<char>, dir: Seq<char>, present: bool) -> Seq<char> {
    if present {
        finding("[OK]"@, "shared skills "@ + relative)
    } else {
        finding(
            "[WARN]"@,
            "shared skills directory missing: "@ + dir
                + " (declared as agent.hermes.shared_skills)"@,
        )
    }
}

pub fn check_shared_skills(report: &mut Report, relative: &str, dir: &str, present: bool) -> (r:
    String)
    requires
        old(report).warnings < usize::MAX,
    ensures
        r@ == skills_finding(relative@, dir@, present),
        final(report).errors == old(report).errors,
        final(report).warnings == old(report).warnings + (if present {
            0int
        } else {
            1int
        }),
{
    let mut m: Vec<char> = Vec::new();
    if present {
        push_str(&mut m, "shared skills ");
        push_str(&mut m, relative);
        report.ok(string_from_chars(&m).as_str())
    } else {
        push_str(&mut m, "shared skills directory missing: ");
        push_str(&mut m, dir);
        push_str(&mut m, " (declared as agent.hermes.shared_skills)");
        report.warn(string_from_chars(&m).as_str())
    }
}

/// The steps of `validate`, in the order they run.
#[derive(Clone, Copy, PartialEq, Eq, Structural, Debug)]
pub enum ValidateStep {
    /// Does the context checkout exist?
    ContextPresent,
    /// Is it a git repository?
    ContextRepository,
    /// Does the workspace manifest load?
    Manifest,
    /// `check_repositories`.
    Repositories,
    /// The shared context file, `check_generated` and `check_references`.
    SharedContext,
    /// `check_shared_skills`.
    SharedSkills,
    /// `Report::finish`.
    Finish,
}

/// The step after `step`, which `passed` or not. The context checkout holds
/// the manifest and the shared context, so nothing can be checked without it,
/// and nothing below the manifest without the manifest: those two failures end
/// the run. Every other check runs whatever the one before it found.
pub open spec fn next_check(step: ValidateStep, passed: bool) -> ValidateStep {
    match step {
        ValidateStep::ContextPresent => if passed {
            ValidateStep::ContextRepository
        } else {
            ValidateStep::Finish
        },
        ValidateStep::ContextRepository => ValidateStep::Manifest,
        ValidateStep::Manifest => if passed {
            ValidateStep::Repositories
        } else {
            ValidateStep::Finish
        },
        ValidateStep::Repositories => ValidateStep::SharedContext,
        ValidateStep::SharedContext => ValidateStep::SharedSkills,
        ValidateStep::SharedSkills => ValidateStep::Finish,
        ValidateStep::Finish => ValidateStep::Finish,
    }
}

pub fn validate_next(step: ValidateStep, passed: bool) -> (r: ValidateStep)
    ensures
        r == next_check(step, passed),
{
    match step {
        ValidateStep::ContextPresent => if passed {
            ValidateStep::ContextRepository
        } else {
            ValidateStep::Finish
        },
        ValidateStep::ContextRepository => ValidateStep::Manifest,
        ValidateStep::Manifest => if passed {
            ValidateStep::Repositories
        } else {
            ValidateStep::Finish
        },
        ValidateStep::Repositories => ValidateStep::SharedContext,
        ValidateStep::SharedContext => ValidateStep::SharedSkills,
        ValidateStep::SharedSkills => ValidateStep::Finish,
        ValidateStep::Finish => ValidateStep::Finish,
    }
}

/// The finding a step that is not one of the checks reports, if any: `subject`
/// is the context checkout's path, or the manifest's error.
pub open spec fn step_text(step: ValidateStep, passed: bool, subject: Seq<char>) -> Option<
    Seq<char>,
> {
    match step {
        ValidateStep::ContextPresent => if passed {
            None
        } else {
            Some(finding("[ERROR]"@, "context repository missing: "@ + subject))
        },
        ValidateStep::ContextRepository => if passed {
            Some(finding("[OK]"@, "context repository"@))
        } else {
            Some(finding("[ERROR]"@, "context repository is not a git repository: "@ + subject))
        },
        ValidateStep::Manifest => if passed {
            Some(finding("[OK]"@, "workspace manifest"@))
        } else {
            Some(finding("[ERROR]"@, "workspace manifest: "@ + subject))
        },
        _ => None,
    }
}

pub fn step_finding(report: &mut Report, step: ValidateStep, passed: bool, subject: &str) -> (r:
    Option<String>)
    requires
        old(report).errors < usize::MAX,
    ensures
        match r {
            Some(line) => step_text(step, passed, subject@) == Some(line@),
            None => step_text(step, passed, subject@) is None,
        },
        final(report).warnings == old(report).warnings,
        final(report).errors == old(report).errors + (if step_text(step, passed, subject@) is Some
            && !passed {
            1int
        } else {
            0int
        }),
{
    match step {
        ValidateStep::ContextPresent => {
            if passed {
                None
            } else {
                let mut m = String::from_str("context repository missing: ");
                m.append(subject);
                Some(report.error(m.as_str()))
            }
        },
        ValidateStep::ContextRepository => {
            if passed {
                Some(report.ok("context repository"))
            } else {
                let mut m = String::from_str("context repository is not a git repository: ");
                m.append(subject);
                Some(report.error(m.as_str()))
            }
        },
        ValidateStep::Manifest => {
            if passed {
                Some(report.ok("workspace manifest"))
            } else {
                let mut m = String::from_str("workspace manifest: ");
                m.append(subject);
                Some(report.error(m.as_str()))
            }
        },
        _ => None,
    }
}

/// Whether a step passes, given whether the context checkout exists and the
/// manifest loads; no other outcome changes which step comes next.
pub open spec fn outcome(step: ValidateStep, present: bool, manifest: bool) -> bool {
    match step {
        ValidateStep::ContextPresent => present,
        ValidateStep::Manifest => manifest,
        _ => true,
    }
}

/// The steps a run takes from `step`, within `fuel` more steps.
pub open spec fn steps_from(step: ValidateStep, present: bool, manifest: bool, fuel: nat) -> Seq<
    ValidateStep,
>
    decreases fuel,
{
    if fuel == 0 || step == ValidateStep::Finish {
        seq![step]
    } else {
        seq![step] + steps_from(
            next_check(step, outcome(step, present, manifest)),
            present,
            manifest,
            (fuel - 1) as nat,
        )
    }
}

/// `validate` runs every check, accumulating findings rather than stopping at
/// the first, unless the context checkout is missing or the manifest does not
/// load; and every run ends in the summary.
pub proof fn lemma_validate_runs_every_check(present: bool, manifest: bool)
    ensures
        ({
            let run = steps_from(ValidateStep::ContextPresent, present, manifest, 6);
            &&& run.last() == ValidateStep::Finish
            &&& (present && manifest) <==> run.contains(ValidateStep::Repositories)
            &&& (present && manifest) <==> run.contains(ValidateStep::SharedContext)
            &&& (present && manifest) <==> run.contains(ValidateStep::SharedSkills)
            &&& present <==> run.contains(ValidateStep::ContextRepository)
        }),
{
    reveal_with_fuel(steps_from, 7);
    let run = steps_from(ValidateStep::ContextPresent, present, manifest, 6);
    if present && manifest {
        assert(run =~= seq![
            ValidateStep::ContextPresent,
            ValidateStep::ContextRepository,
            ValidateStep::Manifest,
            ValidateStep::Repositories,
            ValidateStep::SharedContext,
            ValidateStep::SharedSkills,
            ValidateStep::Finish,
        ]);
        assert(run[1] == ValidateStep::ContextRepository);
        assert(run[3] == ValidateStep::Repositories);
        assert(run[4] == ValidateStep::SharedContext);
        assert(run[5] == ValidateStep::SharedSkills);
    } else if present {
        assert(run =~= seq![
            ValidateStep::ContextPresent,
            ValidateStep::ContextRepository,
            ValidateStep::Manifest,
            ValidateStep::Finish,
        ]);
        assert(run[1] == ValidateStep::ContextRepository);
    } else {
        assert(run =~= seq![ValidateStep::ContextPresent, ValidateStep::Finish]);
    }
}

/// What reading the shared context file, and then planning the generated
/// files and resolving the file's references, gave.
pub enum SharedContext {
    /// The file could not be read, for the given reason.
    Unreadable(String),
    /// It was read: the generation plan, or why it could not be made, and the
    /// file's references that do not resolve.
    Read { plans: Result<Vec<RepoPlan>, String>, broken: Vec<String> },
}

/// The findings about the shared context file at `shared`: an unreadable file
/// is an error that ends the check; otherwise a pass, then the generated
/// context, or the error that kept it from being planned, then the
/// documentation references.
pub open spec fn shared_context_findings(shared: Seq<char>, c: SharedContext) -> Seq<Seq<char>> {
    match c {
        SharedContext::Unreadable(err) => seq![
            finding("[ERROR]"@, "shared context "@ + shared + ": "@ + err@),
        ],
        SharedContext::Read { plans, broken } => seq![finding("[OK]"@, "shared context"@)] + (match plans {
            Ok(ps) => generated_findings(ps@),
            Err(err) => seq![finding("[ERROR]"@, "generated context: "@ + err@)],
        }) + reference_findings(strings_view(broken@)),
    }
}

/// How many errors those findings count.
pub open spec fn shared_context_errors(c: SharedContext) -> int {
    match c {
        SharedContext::Unreadable(_) => 1,
        SharedContext::Read { plans, broken } => (match plans {
            Ok(ps) => foreign_files(ps@) as int,
            Err(_) => 1,
        }) + broken@.len(),
    }
}

/// How many warnings those findings count.
pub open spec fn shared_context_warnings(c: SharedContext) -> int {
    match c {
        SharedContext::Read { plans: Ok(ps), .. } => if stale_count(ps@) > 0 {
            1
        } else {
            0
        },
        _ => 0,
    }
}

pub fn check_shared_context(report: &mut Report, shared: &str, c: &SharedContext) -> (r: Vec<
    String,
>)
    requires
        old(report).errors + shared_context_errors(*c) <= usize::MAX,
        old(report).warnings < usize::MAX,
    ensures
        strings_view(r@) == shared_context_findings(shared@, *c),
        final(report).errors == old(report).errors + shared_context_errors(*c),
        final(report).warnings == old(report).warnings + shared_context_warnings(*c),
{
    match c {
        SharedContext::Unreadable(err) => {
            let mut m = String::from_str("shared context ");
            m.append(shared);
            m.append(": ");
            m.append(err.as_str());
            let out = vec![report.error(m.as_str())];
            assert(strings_view(out@) =~= shared_context_findings(shared@, *c));
            out
        },
        SharedContext::Read { plans, broken } => {
            let out: Vec<String> = vec![report.ok("shared context")];
            let mid = match plans {
                Ok(ps) => check_generated(report, ps),
                Err(err) => {
                    let mut m = String::from_str("generated context: ");
                    m.append(err.as_str());
                    vec![report.error(m.as_str())]
                },
            };
            let refs = check_references(report, broken);
            proof {
                assert(strings_view(mid@) == match plans {
                    Ok(ps) => generated_findings(ps@),
                    Err(err) => seq![finding("[ERROR]"@, "generated context: "@ + err@)],
                }) by {
                    if let Err(err) = plans {
                        assert(strings_view(mid@) =~= seq![
                            finding("[ERROR]"@, "generated context: "@ + err@),
                        ]);
                    }
                }
            }
            let mut out2 = out;
            let mut k: usize = 0;
            let ghost before = strings_view(out2@);
            while k < mid.len()
                invariant
                    0 <= k <= mid@.len(),
                    strings_view(out2@) == before + strings_view(mid@).take(k as int),
                decreases mid.len() - k,
            {
                let line = mid[k].clone();
                proof {
                    assert(strings_view(mid@).take(k + 1) =~= strings_view(mid@).take(k as int).push(
                        line@,
                    ));
                    assert(strings_view(out2@.push(line)) =~= strings_view(out2@).push(line@));
                }
                out2.push(line);
                k = k + 1;
            }
            assert(strings_view(mid@).take(mid@.len() as int) =~= strings_view(mid@));
            let ghost middle = strings_view(out2@);
            let mut j: usize = 0;
            while j < refs.len()
                invariant
                    0 <= j <= refs@.len(),
                    strings_view(out2@) == middle + strings_view(refs@).take(j as int),
                decreases refs.len() - j,
            {
                let line = refs[j].clone();
                proof {
                    assert(strings_view(refs@).take(j + 1) =~= strings_view(refs@).take(j as int).push(
                        line@,
                    ));
                    assert(strings_view(out2@.push(line)) =~= strings_view(out2@).push(line@));
                }
                out2.push(line);
                j = j + 1;
            }
            assert(strings_view(refs@).take(refs@.len() as int) =~= strings_view(refs@));
            assert(strings_view(out2@) =~= shared_context_findings(shared@, *c));
            out2
        },
    }
}

} // verus!

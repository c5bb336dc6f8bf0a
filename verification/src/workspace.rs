//! The decisions of `setup`, `update` and `sync`: which checkouts `update`
//! targets, the checks `update` makes before it touches a checkout, whether a
//! checkout is cloned, and the lines the commands report. Running git and
//! touching the file system happen outside; these functions are handed the
//! answers.
use vstd::prelude::*;
use crate::text::{chars_of, chars_eq, decimal, push_decimal, push_str, string_from_chars};
use crate::yaml::strings_view;
use crate::error::CommandError;
use crate::status::{keep, lemma_keep_contains, Action, RepoPlan};
use crate::validate::{plural, plural_text, plural_y, plural_y_text};
use crate::agent::action_count;

verus! {

broadcast use vstd::string::group_string_axioms;

/// A checkout `update` works on: the context checkout, or the manifest
/// repository at the given index.
pub struct Target {
    pub name: String,
    pub repository: Option<usize>,
}

/// The candidates before `--repo` narrows them: the context checkout, then,
/// under `--all` or `--repo`, every manifest repository.
pub open spec fn candidates(context: Seq<char>, repos: Seq<String>, widen: bool) -> Seq<
    (Seq<char>, Option<usize>),
> {
    seq![(context, None::<usize>)] + if widen {
        Seq::new(repos.len(), |k: int| (repos[k]@, Some(k as usize)))
    } else {
        Seq::empty()
    }
}

pub open spec fn named(name: Seq<char>) -> spec_fn((Seq<char>, Option<usize>)) -> bool {
    |t: (Seq<char>, Option<usize>)| t.0 == name
}

pub open spec fn target_view(t: Target) -> (Seq<char>, Option<usize>) {
    (t.name@, t.repository)
}

/// The checkouts `update` targets: the context checkout alone by default, plus
/// every manifest repository under `--all`, or exactly the one `--repo` names,
/// which may be the context checkout. An unknown name is an error rather than
/// empty output.
pub fn update_targets(context: &str, repos: &Vec<String>, all: bool, repo: Option<&str>) -> (r:
    Result<Vec<Target>, CommandError>)
    ensures
        ({
            let c = candidates(context@, repos@, all || repo is Some);
            match repo {
                None => r matches Ok(ts) && ts@.map_values(|t: Target| target_view(t)) == c,
                Some(w) => if keep(c, named(w@)).len() == 0 {
                    r matches Err(CommandError::UnknownRepository(n)) && n@ == w@
                } else {
                    r matches Ok(ts) && ts@.map_values(|t: Target| target_view(t)) == keep(
                        c,
                        named(w@),
                    )
                },
            }
        }),
{
    let widen = all || repo.is_some();
    let ghost c = candidates(context@, repos@, widen);
    let ghost tv = |t: Target| target_view(t);
    let wanted: Option<Vec<char>> = match repo {
        Some(w) => Some(chars_of(w)),
        None => None,
    };
    let ghost p = match repo {
        Some(w) => named(w@),
        None => |t: (Seq<char>, Option<usize>)| true,
    };
    let mut out: Vec<Target> = Vec::new();
    let n = if widen {
        repos.len()
    } else {
        0
    };
    assert(c.len() == n + 1);
    let first = Target { name: String::from_str(context), repository: None };
    assert(target_view(first) == c[0]);
    let keep_first = match &wanted {
        Some(x) => chars_eq(&chars_of(first.name.as_str()), x),
        None => true,
    };
    proof {
        lemma_keep_prefix_step(c, p, 0);
    }
    if keep_first {
        proof {
            assert(out@.push(first).map_values(tv) =~= out@.map_values(tv).push(target_view(first)));
        }
        out.push(first);
    } else {
        assert(out@.map_values(tv) =~= keep_prefix(c, p, 1));
    }
    let mut k: usize = 0;
    while k < n
        invariant
            0 <= k <= n,
            n + 1 == c.len(),
            n <= repos.len(),
            c == candidates(context@, repos@, widen),
            tv == (|t: Target| target_view(t)),
            p == (match repo {
                Some(w) => named(w@),
                None => |t: (Seq<char>, Option<usize>)| true,
            }),
            match repo {
                Some(w) => wanted matches Some(x) && x@ == w@,
                None => wanted is None,
            },
            out@.map_values(tv) == keep_prefix(c, p, k + 1),
        decreases n - k,
    {
        let t = Target { name: repos[k].clone(), repository: Some(k) };
        assert(target_view(t) == c[k + 1]);
        let keep_it = match &wanted {
            Some(x) => chars_eq(&chars_of(t.name.as_str()), x),
            None => true,
        };
        proof {
            lemma_keep_prefix_step(c, p, k + 1);
        }
        if keep_it {
            proof {
                assert(out@.push(t).map_values(tv) =~= out@.map_values(tv).push(target_view(t)));
            }
            out.push(t);
        }
        k = k + 1;
    }
    proof {
        lemma_keep_prefix_all(c, p);
        if repo is None {
            lemma_keep_all(c, p);
        }
    }
    match repo {
        Some(w) => {
            if out.len() == 0 {
                return Err(CommandError::UnknownRepository(String::from_str(w)));
            }
        },
        None => {},
    }
    Ok(out)
}

/// The kept elements among the first `n`.
pub open spec fn keep_prefix<T>(s: Seq<T>, p: spec_fn(T) -> bool, n: int) -> Seq<T>
    decreases n,
{
    if n <= 0 {
        Seq::empty()
    } else {
        keep_prefix(s, p, n - 1) + if p(s[n - 1]) {
            seq![s[n - 1]]
        } else {
            Seq::empty()
        }
    }
}

proof fn lemma_keep_prefix_step<T>(s: Seq<T>, p: spec_fn(T) -> bool, k: int)
    requires
        0 <= k,
    ensures
        keep_prefix(s, p, k + 1) == keep_prefix(s, p, k) + if p(s[k]) {
            seq![s[k]]
        } else {
            Seq::empty()
        },
{
}

/// Keeping from the first `n` is keeping from the prefix of length `n`.
proof fn lemma_keep_prefix_take<T>(s: Seq<T>, p: spec_fn(T) -> bool, n: int)
    requires
        0 <= n <= s.len(),
    ensures
        keep_prefix(s, p, n) == keep(s.take(n), p),
    decreases n,
{
    if n > 0 {
        lemma_keep_prefix_take(s, p, n - 1);
        crate::references::lemma_keep_push(s.take(n - 1), s[n - 1], p);
        assert(s.take(n - 1).push(s[n - 1]) =~= s.take(n));
    } else {
        assert(s.take(0) =~= Seq::<T>::empty());
    }
}

proof fn lemma_keep_prefix_all<T>(s: Seq<T>, p: spec_fn(T) -> bool)
    ensures
        keep_prefix(s, p, s.len() as int) == keep(s, p),
{
    lemma_keep_prefix_take(s, p, s.len() as int);
    assert(s.take(s.len() as int) =~= s);
}

/// Keeping everything keeps the sequence.
proof fn lemma_keep_all<T>(s: Seq<T>, p: spec_fn(T) -> bool)
    requires
        forall|x: T| #[trigger] p(x),
    ensures
        keep(s, p) == s,
    decreases s.len(),
{
    if s.len() > 0 {
        lemma_keep_all(s.drop_first(), p);
        assert(seq![s[0]] + s.drop_first() =~= s);
    } else {
        assert(keep(s, p) =~= s);
    }
}

/// The questions `update` asks about a checkout, in the order it asks them.
#[derive(Clone, Copy, PartialEq, Eq, Structural, Debug)]
pub enum UpdateCheck {
    /// Is it a git repository?
    IsRepo,
    /// Has it local modifications?
    IsDirty,
    /// Is a branch checked out, rather than a detached `HEAD`?
    OnBranch,
    /// Has the branch an upstream?
    HasUpstream,
}

/// What `update` does next.
#[derive(Debug)]
pub enum UpdateStep {
    /// Ask the question, and hand the answer back.
    Ask(UpdateCheck),
    /// Stop, reporting the line; the checkout is left as it is.
    Report(&'static str),
    /// Fetch, fast-forward, and report with `update_result`.
    FetchAndMerge,
}

/// The first step of updating a checkout.
pub fn update_start() -> (r: UpdateStep)
    ensures
        r == UpdateStep::Ask(UpdateCheck::IsRepo),
{
    UpdateStep::Ask(UpdateCheck::IsRepo)
}

/// The step after `check` was answered `answer`. Every skip leaves the
/// checkout byte-identical: fetching and merging come only after every check
/// has passed, and never under `--dry-run`. The branch is asked before the
/// upstream, since a detached `HEAD` has no upstream either, and the two
/// deserve different reasons.
pub open spec fn next_step(check: UpdateCheck, answer: bool, dry_run: bool) -> UpdateStep {
    match check {
        UpdateCheck::IsRepo => if answer {
            UpdateStep::Ask(UpdateCheck::IsDirty)
        } else {
            UpdateStep::Report("skipped, not a git repository")
        },
        UpdateCheck::IsDirty => if answer {
            UpdateStep::Report("skipped, local modifications")
        } else {
            UpdateStep::Ask(UpdateCheck::OnBranch)
        },
        UpdateCheck::OnBranch => if answer {
            UpdateStep::Ask(UpdateCheck::HasUpstream)
        } else {
            UpdateStep::Report("skipped, detached HEAD")
        },
        UpdateCheck::HasUpstream => if !answer {
            UpdateStep::Report("skipped, no upstream")
        } else if dry_run {
            UpdateStep::Report("would fetch and fast-forward")
        } else {
            UpdateStep::FetchAndMerge
        },
    }
}

pub fn update_next(check: UpdateCheck, answer: bool, dry_run: bool) -> (r: UpdateStep)
    ensures
        r == next_step(check, answer, dry_run),
{
    match check {
        UpdateCheck::IsRepo => if answer {
            UpdateStep::Ask(UpdateCheck::IsDirty)
        } else {
            UpdateStep::Report("skipped, not a git repository")
        },
        UpdateCheck::IsDirty => if answer {
            UpdateStep::Report("skipped, local modifications")
        } else {
            UpdateStep::Ask(UpdateCheck::OnBranch)
        },
        UpdateCheck::OnBranch => if answer {
            UpdateStep::Ask(UpdateCheck::HasUpstream)
        } else {
            UpdateStep::Report("skipped, detached HEAD")
        },
        UpdateCheck::HasUpstream => if !answer {
            UpdateStep::Report("skipped, no upstream")
        } else if dry_run {
            UpdateStep::Report("would fetch and fast-forward")
        } else {
            UpdateStep::FetchAndMerge
        },
    }
}

/// The answers a checkout gives, one per question.
pub open spec fn answer_of(check: UpdateCheck, repo: bool, dirty: bool, branch: bool, upstream: bool) -> bool {
    match check {
        UpdateCheck::IsRepo => repo,
        UpdateCheck::IsDirty => dirty,
        UpdateCheck::OnBranch => branch,
        UpdateCheck::HasUpstream => upstream,
    }
}

/// Where a run ends when every question is answered from the checkout's facts,
/// starting at `step`, within `fuel` more questions.
pub open spec fn run_from(
    step: UpdateStep,
    repo: bool,
    dirty: bool,
    branch: bool,
    upstream: bool,
    dry_run: bool,
    fuel: nat,
) -> UpdateStep
    decreases fuel,
{
    match step {
        UpdateStep::Ask(c) => if fuel == 0 {
            step
        } else {
            run_from(
                next_step(c, answer_of(c, repo, dirty, branch, upstream), dry_run),
                repo,
                dirty,
                branch,
                upstream,
                dry_run,
                (fuel - 1) as nat,
            )
        },
        _ => step,
    }
}

/// Updating touches a checkout only when it is a clean git repository on a
/// branch with an upstream, and never under `--dry-run`; otherwise the run
/// ends in a report after at most four questions.
pub proof fn lemma_update_touches_only_safe_checkouts(
    repo: bool,
    dirty: bool,
    branch: bool,
    upstream: bool,
    dry_run: bool,
)
    ensures
        run_from(UpdateStep::Ask(UpdateCheck::IsRepo), repo, dirty, branch, upstream, dry_run, 4)
            == UpdateStep::FetchAndMerge <==> (repo && !dirty && branch && upstream && !dry_run),
        run_from(UpdateStep::Ask(UpdateCheck::IsRepo), repo, dirty, branch, upstream, dry_run, 4)
            !is Ask,
{
    reveal_with_fuel(run_from, 5);
}

/// The line reported after fetching: the fast-forward failed, changed nothing,
/// or moved `HEAD` from `before` to `after`.
pub open spec fn update_result_text(merged: bool, before: Seq<char>, after: Seq<char>) -> Seq<
    char,
> {
    if !merged {
        "skipped, cannot fast-forward"@
    } else if before == after {
        "current"@
    } else {
        before + " -> "@ + after
    }
}

pub fn update_result(merged: bool, before: &str, after: &str) -> (r: String)
    ensures
        r@ == update_result_text(merged, before@, after@),
{
    if !merged {
        return String::from_str("skipped, cannot fast-forward");
    }
    if chars_eq(&chars_of(before), &chars_of(after)) {
        String::from_str("current")
    } else {
        let mut r = String::from_str(before);
        r.append(" -> ");
        r.append(after);
        r
    }
}

/// What happens to a checkout that `setup` clones: an existing directory is
/// left entirely alone, with no fetch, no checkout and no branch change.
#[derive(Clone, Copy, PartialEq, Eq, Structural, Debug)]
pub enum CloneStep {
    /// The directory exists: nothing happens.
    LeaveAlone,
    /// A dry run: the clone is reported, not made.
    Pretend,
    /// The clone is made.
    Clone,
}

pub fn clone_step(present: bool, dry_run: bool) -> (r: CloneStep)
    ensures
        r == (if present {
            CloneStep::LeaveAlone
        } else if dry_run {
            CloneStep::Pretend
        } else {
            CloneStep::Clone
        }),
{
    if present {
        CloneStep::LeaveAlone
    } else if dry_run {
        CloneStep::Pretend
    } else {
        CloneStep::Clone
    }
}

/// The line reported for a clone step; leaving a checkout alone is reported
/// only under `--verbose`.
pub open spec fn clone_text(step: CloneStep, url: Seq<char>, dir: Seq<char>) -> Seq<char> {
    match step {
        CloneStep::LeaveAlone => dir + " already present, left untouched"@,
        CloneStep::Pretend => "would clone "@ + url + " into "@ + dir,
        CloneStep::Clone => "cloning "@ + url + " into "@ + dir,
    }
}

pub fn clone_message(step: CloneStep, url: &str, dir: &str) -> (r: String)
    ensures
        r@ == clone_text(step, url@, dir@),
{
    match step {
        CloneStep::LeaveAlone => {
            let mut r = String::from_str(dir);
            r.append(" already present, left untouched");
            r
        },
        CloneStep::Pretend => {
            let mut r = String::from_str("would clone ");
            r.append(url);
            r.append(" into ");
            r.append(dir);
            r
        },
        CloneStep::Clone => {
            let mut r = String::from_str("cloning ");
            r.append(url);
            r.append(" into ");
            r.append(dir);
            r
        },
    }
}

/// The running tally of `setup`'s clones: how many repositories were seen,
/// cloned (or, under `--dry-run`, would have been), and skipped.
pub struct SetupTally {
    pub seen: usize,
    pub cloned: usize,
    pub skipped: usize,
}

impl SetupTally {
    pub open spec fn valid(&self) -> bool {
        self.cloned + self.skipped <= self.seen
    }

    pub fn new() -> (r: SetupTally)
        ensures
            r.valid(),
            r.seen == 0 && r.cloned == 0 && r.skipped == 0,
    {
        SetupTally { seen: 0, cloned: 0, skipped: 0 }
    }

    /// One repository. Under `--no-clone` an absent checkout is skipped
    /// entirely; otherwise it is cloned when absent, and an existing one is
    /// left alone. The step is `None` when the repository is skipped.
    pub fn record(&mut self, no_clone: bool, present: bool, dry_run: bool) -> (r: Option<CloneStep>)
        requires
            old(self).valid(),
            old(self).seen < usize::MAX,
        ensures
            final(self).valid(),
            final(self).seen == old(self).seen + 1,
            r == (if no_clone && !present {
                None
            } else if present {
                Some(CloneStep::LeaveAlone)
            } else if dry_run {
                Some(CloneStep::Pretend)
            } else {
                Some(CloneStep::Clone)
            }),
            final(self).skipped == old(self).skipped + (if r is None {
                1int
            } else {
                0int
            }),
            final(self).cloned == old(self).cloned + (if r is Some && !present {
                1int
            } else {
                0int
            }),
    {
        self.seen = self.seen + 1;
        if no_clone && !present {
            self.skipped = self.skipped + 1;
            return None;
        }
        let step = clone_step(present, dry_run);
        if !present {
            self.cloned = self.cloned + 1;
        }
        Some(step)
    }

    /// The summary line.
    pub fn summary(&self, dry_run: bool) -> (r: String)
        requires
            self.valid(),
        ensures
            r@ == setup_text(dry_run, self.seen as nat, self.cloned as nat, self.skipped as nat),
    {
        setup_summary(dry_run, self.seen, self.cloned, self.skipped)
    }
}

/// The summary `setup` reports once every repository has been seen.
pub open spec fn setup_text(dry_run: bool, total: nat, cloned: nat, skipped: nat) -> Seq<char> {
    (if dry_run {
        "would clone"@
    } else {
        "cloned"@
    }) + " "@ + decimal(cloned) + " repositories, "@ + decimal((total - cloned - skipped) as nat)
        + " already present, "@ + decimal(skipped) + " skipped"@
}

pub fn setup_summary(dry_run: bool, total: usize, cloned: usize, skipped: usize) -> (r: String)
    requires
        cloned + skipped <= total,
    ensures
        r@ == setup_text(dry_run, total as nat, cloned as nat, skipped as nat),
{
    let mut out: Vec<char> = Vec::new();
    if dry_run {
        push_str(&mut out, "would clone");
    } else {
        push_str(&mut out, "cloned");
    }
    push_str(&mut out, " ");
    push_decimal(&mut out, cloned);
    push_str(&mut out, " repositories, ");
    push_decimal(&mut out, total - cloned - skipped);
    push_str(&mut out, " already present, ");
    push_decimal(&mut out, skipped);
    push_str(&mut out, " skipped");
    assert(out@ =~= setup_text(dry_run, total as nat, cloned as nat, skipped as nat));
    string_from_chars(&out)
}

/// What writing the generated context files did.
pub struct ApplySummary {
    pub created: usize,
    pub updated: usize,
    pub unchanged: usize,
    pub skipped_foreign: usize,
}

/// The lines reported after writing the generated context: the counts, then
/// the repositories not checked out and the foreign files left alone, each
/// only when there are any.
pub open spec fn generation_text(dry_run: bool, s: ApplySummary, missing: nat) -> Seq<Seq<char>> {
    seq![
        (if dry_run {
            "would write"@
        } else {
            "wrote"@
        }) + " generated context: "@ + decimal(s.created as nat) + " created, "@ + decimal(
            s.updated as nat,
        ) + " updated, "@ + decimal(s.unchanged as nat) + " unchanged"@,
    ] + (if missing > 0 {
        seq!["skipped "@ + decimal(missing) + " repositor"@ + plural_y_text(missing) + " not checked out"@]
    } else {
        Seq::empty()
    }) + (if s.skipped_foreign > 0 {
        seq![
            "left "@ + decimal(s.skipped_foreign as nat) + " file"@ + plural_text(
                s.skipped_foreign as nat,
            ) + " alone: not generated by zpr-dev (run: zpr-dev validate)"@,
        ]
    } else {
        Seq::empty()
    })
}

/// How many repositories are not checked out.
pub fn missing_count(plans: &Vec<RepoPlan>) -> (r: usize)
    ensures
        r == action_count(plans@, Action::RepoMissing),
{
    let mut n: usize = 0;
    let mut k: usize = 0;
    while k < plans.len()
        invariant
            0 <= k <= plans.len(),
            n == action_count(plans@.take(k as int), Action::RepoMissing),
            n <= k,
        decreases plans.len() - k,
    {
        assert(plans@.take(k + 1).drop_last() =~= plans@.take(k as int));
        if plans[k].action == Action::RepoMissing {
            n = n + 1;
        }
        k = k + 1;
    }
    assert(plans@.take(plans.len() as int) =~= plans@);
    n
}

pub fn generation_lines(dry_run: bool, summary: &ApplySummary, missing: usize) -> (r: Vec<String>)
    ensures
        strings_view(r@) == generation_text(dry_run, *summary, missing as nat),
{
    let mut out: Vec<String> = Vec::new();
    let mut first: Vec<char> = Vec::new();
    if dry_run {
        push_str(&mut first, "would write");
    } else {
        push_str(&mut first, "wrote");
    }
    push_str(&mut first, " generated context: ");
    push_decimal(&mut first, summary.created);
    push_str(&mut first, " created, ");
    push_decimal(&mut first, summary.updated);
    push_str(&mut first, " updated, ");
    push_decimal(&mut first, summary.unchanged);
    push_str(&mut first, " unchanged");
    out.push(string_from_chars(&first));
    if missing > 0 {
        let mut m: Vec<char> = Vec::new();
        push_str(&mut m, "skipped ");
        push_decimal(&mut m, missing);
        push_str(&mut m, " repositor");
        push_str(&mut m, plural_y(missing));
        push_str(&mut m, " not checked out");
        out.push(string_from_chars(&m));
    }
    if summary.skipped_foreign > 0 {
        let mut m: Vec<char> = Vec::new();
        push_str(&mut m, "left ");
        push_decimal(&mut m, summary.skipped_foreign);
        push_str(&mut m, " file");
        push_str(&mut m, plural(summary.skipped_foreign));
        push_str(&mut m, " alone: not generated by zpr-dev (run: zpr-dev validate)");
        out.push(string_from_chars(&m));
    }
    assert(strings_view(out@) =~= generation_text(dry_run, *summary, missing as nat));
    out
}

/// With `--repo w`, `update` targets exactly the checkouts named `w`: the
/// context checkout when it is named `w`, and each manifest repository named
/// `w`, wherever it stands in the manifest; every target carries the name
/// `w`, and a name nothing carries is refused.
pub proof fn lemma_repo_targets_exactly_the_named(
    context: Seq<char>,
    repos: Seq<String>,
    w: Seq<char>,
)
    requires
        repos.len() <= usize::MAX,
    ensures
        forall|t: (Seq<char>, Option<usize>)|
            #[trigger] keep(candidates(context, repos, true), named(w)).contains(t) <==> (t.0 == w && (
            (t.1 is None && t.0 == context) || (t.1 matches Some(k) && k < repos.len() && t.0
                == repos[k as int]@))),
        forall|i: int|
            0 <= i < keep(candidates(context, repos, true), named(w)).len() ==> (#[trigger] keep(
                candidates(context, repos, true),
                named(w),
            )[i]).0 == w,
        keep(candidates(context, repos, true), named(w)).len() == 0 <==> (context != w && forall|k: int|
            0 <= k < repos.len() ==> (#[trigger] repos[k])@ != w),
{
    let c = candidates(context, repos, true);
    let kc = keep(c, named(w));
    lemma_keep_contains(c, named(w));
    let tail = Seq::new(repos.len(), |k: int| (repos[k]@, Some(k as usize)));
    assert(c == seq![(context, None::<usize>)] + tail);
    assert(c[0] == (context, None::<usize>));
    assert forall|t: (Seq<char>, Option<usize>)| c.contains(t) <==> ((t.1 is None && t.0 == context)
        || (t.1 matches Some(k) && k < repos.len() && t.0 == repos[k as int]@)) by {
        if c.contains(t) {
            let j = choose|j: int| 0 <= j < c.len() && c[j] == t;
            if j > 0 {
                assert(c[j] == tail[j - 1]);
            }
        }
        if t.1 is None && t.0 == context {
            assert(c[0] == t);
        }
        if t.1 matches Some(k) && k < repos.len() && t.0 == repos[k as int]@ {
            let k = t.1->0;
            assert(c[k + 1] == tail[k as int]);
            assert(c[k + 1] == t);
        }
    }
    assert forall|i: int| 0 <= i < kc.len() implies (#[trigger] kc[i]).0 == w by {
        assert(kc.contains(kc[i]));
    }
    if kc.len() == 0 {
        assert(!kc.contains((context, None::<usize>)));
        assert forall|k: int| 0 <= k < repos.len() implies (#[trigger] repos[k])@ != w by {
            let t = (repos[k]@, Some(k as usize));
            assert(!kc.contains(t));
        }
    } else {
        assert(kc.contains(kc[0]));
        if context != w {
            let t = kc[0];
            let k = t.1->0;
            assert(repos[k as int]@ == w);
        }
    }
}

} // verus!

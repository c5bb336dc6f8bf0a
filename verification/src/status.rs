//! The `status` command's report: one row per checkout with its branch, its
//! state and its position against the upstream, and the generated-context
//! verdict of each repository, as a human table or as tab-separated records.
//! The probing of checkouts and the planning of generated files happen
//! elsewhere; this module is handed their results.
use vstd::prelude::*;
use vstd::utf8::encode_utf8;
use crate::text::{
    chars_eq, chars_of, decimal, pad_right, push_decimal, push_padded, push_str, string_from_chars,
};
use crate::yaml::strings_view;
use crate::error::CommandError;

verus! {

broadcast use vstd::string::group_string_axioms;

/// What generating a repository's context file would do.
#[derive(Clone, Copy, PartialEq, Eq, Structural, Debug)]
pub enum Action {
    /// The file is absent and would be written.
    Create,
    /// The file was generated earlier and differs.
    Update,
    /// The file is byte-identical to what would be written.
    Unchanged,
    /// A file of that name exists that was not generated.
    Foreign,
    /// The repository is not checked out.
    RepoMissing,
}

/// One generated file of a repository.
pub struct FilePlan {
    pub path: String,
    pub action: Action,
}

/// The generation plan of one repository: its overall action and its files.
pub struct RepoPlan {
    pub name: String,
    pub action: Action,
    pub files: Vec<FilePlan>,
}

/// The state of a checkout, as the STATUS column shows it.
#[derive(Clone, Copy, PartialEq, Eq, Structural, Debug)]
pub enum RepoState {
    Clean,
    Modified,
    Missing,
    NotGitRepository,
}

pub open spec fn state_text(s: RepoState) -> Seq<char> {
    match s {
        RepoState::Clean => "clean"@,
        RepoState::Modified => "modified"@,
        RepoState::Missing => "missing"@,
        RepoState::NotGitRepository => "not a git repository"@,
    }
}

impl RepoState {
    /// The word the STATUS column shows.
    pub fn text(&self) -> (r: &'static str)
        ensures
            r@ == state_text(*self),
    {
        match self {
            RepoState::Clean => "clean",
            RepoState::Modified => "modified",
            RepoState::Missing => "missing",
            RepoState::NotGitRepository => "not a git repository",
        }
    }
}

/// One row of the repository table.
pub struct RepoStatus {
    pub name: String,
    /// Branch name, `detached`, or `-` when there is no repository to ask.
    pub branch: String,
    pub state: RepoState,
    /// Commits ahead of, and behind, the upstream; `None` when there is none.
    pub tracking: Option<(usize, usize)>,
}

/// The UPSTREAM column.
pub open spec fn upstream_text(tracking: Option<(usize, usize)>) -> Seq<char> {
    match tracking {
        None => "no upstream"@,
        Some((ahead, behind)) => if ahead == 0 && behind == 0 {
            "current"@
        } else if behind == 0 {
            "ahead "@ + decimal(ahead as nat)
        } else if ahead == 0 {
            "behind "@ + decimal(behind as nat)
        } else {
            "ahead "@ + decimal(ahead as nat) + " behind "@ + decimal(behind as nat)
        },
    }
}

impl RepoStatus {
    /// The UPSTREAM column, derived from `tracking` so the human table and the
    /// porcelain record cannot disagree.
    pub fn upstream(&self) -> (r: String)
        ensures
            r@ == upstream_text(self.tracking),
    {
        let mut out: Vec<char> = Vec::new();
        match self.tracking {
            None => push_str(&mut out, "no upstream"),
            Some((ahead, behind)) => {
                if ahead == 0 && behind == 0 {
                    push_str(&mut out, "current");
                } else if behind == 0 {
                    push_str(&mut out, "ahead ");
                    push_decimal(&mut out, ahead);
                } else if ahead == 0 {
                    push_str(&mut out, "behind ");
                    push_decimal(&mut out, behind);
                } else {
                    push_str(&mut out, "ahead ");
                    push_decimal(&mut out, ahead);
                    push_str(&mut out, " behind ");
                    push_decimal(&mut out, behind);
                }
            },
        }
        assert(out@ =~= upstream_text(self.tracking));
        string_from_chars(&out)
    }
}

/// What inspecting a checkout found.
pub enum RepoProbe {
    /// There is no directory.
    Missing,
    /// There is a directory, but it is not a git repository.
    NotGitRepository,
    /// A git checkout: its branch, `None` for a detached `HEAD`; whether it has
    /// local modifications; and its position against the upstream.
    Checkout { branch: Option<String>, dirty: bool, tracking: Option<(usize, usize)> },
}

/// The row of the checkout `name`, from what inspecting it found.
pub fn repo_status(name: &str, probe: RepoProbe) -> (r: RepoStatus)
    ensures
        r.name@ == name@,
        match probe {
            RepoProbe::Missing => r.branch@ == "-"@ && r.state == RepoState::Missing
                && r.tracking is None,
            RepoProbe::NotGitRepository => r.branch@ == "-"@ && r.state
                == RepoState::NotGitRepository && r.tracking is None,
            RepoProbe::Checkout { branch, dirty, tracking } => r.branch@ == (match branch {
                Some(b) => b@,
                None => "detached"@,
            }) && r.state == (if dirty {
                RepoState::Modified
            } else {
                RepoState::Clean
            }) && r.tracking == tracking,
        },
{
    let name = String::from_str(name);
    match probe {
        RepoProbe::Missing => RepoStatus {
            name,
            branch: String::from_str("-"),
            state: RepoState::Missing,
            tracking: None,
        },
        RepoProbe::NotGitRepository => RepoStatus {
            name,
            branch: String::from_str("-"),
            state: RepoState::NotGitRepository,
            tracking: None,
        },
        RepoProbe::Checkout { branch, dirty, tracking } => RepoStatus {
            name,
            branch: match branch {
                Some(b) => b,
                None => String::from_str("detached"),
            },
            state: if dirty {
                RepoState::Modified
            } else {
                RepoState::Clean
            },
            tracking,
        },
    }
}

/// The AGENT CONTEXT verdict for one repository: a file that is absent or
/// differs is stale, and only a byte-identical one is current.
pub open spec fn context_text(action: Action) -> Seq<char> {
    match action {
        Action::Create | Action::Update => "stale"@,
        Action::Unchanged => "current"@,
        Action::Foreign => "not generated by zpr-dev"@,
        Action::RepoMissing => "missing repository"@,
    }
}

pub fn context_state(action: Action) -> (r: &'static str)
    ensures
        r@ == context_text(action),
{
    match action {
        Action::Create | Action::Update => "stale",
        Action::Unchanged => "current",
        Action::Foreign => "not generated by zpr-dev",
        Action::RepoMissing => "missing repository",
    }
}

/// Byte length of a string, as `str::len` reports it.
pub open spec fn str_len(s: Seq<char>) -> usize {
    encode_utf8(s).len() as usize
}

/// The largest of `init` and the values.
pub open spec fn max_of(values: Seq<usize>, init: usize) -> usize
    decreases values.len(),
{
    if values.len() == 0 {
        init
    } else {
        let m = max_of(values.drop_last(), init);
        if values.last() > m {
            values.last()
        } else {
            m
        }
    }
}

/// The widest of a header and a column's values, in bytes.
pub fn width(header: &str, values: &Vec<usize>) -> (r: usize)
    ensures
        r == max_of(values@, str_len(header@)),
{
    let mut m = header.len();
    let mut k: usize = 0;
    while k < values.len()
        invariant
            0 <= k <= values.len(),
            m == max_of(values@.take(k as int), str_len(header@)),
        decreases values.len() - k,
    {
        assert(values@.take(k + 1).drop_last() =~= values@.take(k as int));
        if values[k] > m {
            m = values[k];
        }
        k = k + 1;
    }
    assert(values@.take(values.len() as int) =~= values@);
    m
}

/// The byte lengths of the NAME, BRANCH and STATUS columns.
pub open spec fn name_lens(rows: Seq<RepoStatus>) -> Seq<usize> {
    rows.map_values(|r: RepoStatus| str_len(r.name@))
}

pub open spec fn branch_lens(rows: Seq<RepoStatus>) -> Seq<usize> {
    rows.map_values(|r: RepoStatus| str_len(r.branch@))
}

pub open spec fn state_lens(rows: Seq<RepoStatus>) -> Seq<usize> {
    rows.map_values(|r: RepoStatus| str_len(state_text(r.state)))
}

/// The header of the repository table.
pub open spec fn header_line(nw: usize, bw: usize, sw: usize) -> Seq<char> {
    pad_right("REPOSITORY"@, nw as nat) + "  "@ + pad_right("BRANCH"@, bw as nat) + "  "@
        + pad_right("STATUS"@, sw as nat) + "  UPSTREAM"@
}

/// One row of the repository table.
pub open spec fn row_line(r: RepoStatus, nw: usize, bw: usize, sw: usize) -> Seq<char> {
    pad_right(r.name@, nw as nat) + "  "@ + pad_right(r.branch@, bw as nat) + "  "@ + pad_right(
        state_text(r.state),
        sw as nat,
    ) + "  "@ + upstream_text(r.tracking)
}

/// One line of the AGENT CONTEXT section.
pub open spec fn plan_line(p: RepoPlan, nw: usize) -> Seq<char> {
    pad_right(p.name@, nw as nat) + "  "@ + context_text(p.action)
}

/// The human table: a WORKSPACE line, the repository table with its columns
/// as wide as their widest value, header included, then the
/// generated-context verdicts, when there are any.
pub open spec fn table(ws: Seq<char>, rows: Seq<RepoStatus>, plans: Seq<RepoPlan>) -> Seq<
    Seq<char>,
> {
    let nw = max_of(name_lens(rows), str_len("REPOSITORY"@));
    let bw = max_of(branch_lens(rows), str_len("BRANCH"@));
    let sw = max_of(state_lens(rows), str_len("STATUS"@));
    let head = seq!["WORKSPACE "@ + ws, Seq::<char>::empty(), header_line(nw, bw, sw)];
    let body = rows.map_values(|r: RepoStatus| row_line(r, nw, bw, sw));
    let tail = if plans.len() == 0 {
        Seq::<Seq<char>>::empty()
    } else {
        seq![Seq::<char>::empty(), "AGENT CONTEXT"@] + plans.map_values(
            |p: RepoPlan| plan_line(p, nw),
        )
    };
    head + body + tail
}

fn row_string(r: &RepoStatus, nw: usize, bw: usize, sw: usize) -> (s: String)
    ensures
        s@ == row_line(*r, nw, bw, sw),
{
    let mut out: Vec<char> = Vec::new();
    push_padded(&mut out, &chars_of(r.name.as_str()), nw);
    push_str(&mut out, "  ");
    push_padded(&mut out, &chars_of(r.branch.as_str()), bw);
    push_str(&mut out, "  ");
    push_padded(&mut out, &chars_of(r.state.text()), sw);
    push_str(&mut out, "  ");
    let up = r.upstream();
    push_str(&mut out, up.as_str());
    assert(out@ =~= row_line(*r, nw, bw, sw));
    string_from_chars(&out)
}

fn plan_string(p: &RepoPlan, nw: usize) -> (s: String)
    ensures
        s@ == plan_line(*p, nw),
{
    let mut out: Vec<char> = Vec::new();
    push_padded(&mut out, &chars_of(p.name.as_str()), nw);
    push_str(&mut out, "  ");
    push_str(&mut out, context_state(p.action));
    assert(out@ =~= plan_line(*p, nw));
    string_from_chars(&out)
}

/// The lines of the human table.
#[verifier::loop_isolation(false)]
pub fn table_lines(workspace: &str, rows: &Vec<RepoStatus>, plans: &Vec<RepoPlan>) -> (r: Vec<
    String,
>)
    ensures
        strings_view(r@) == table(workspace@, rows@, plans@),
{
    let mut names: Vec<usize> = Vec::new();
    let mut branches: Vec<usize> = Vec::new();
    let mut states: Vec<usize> = Vec::new();
    let mut k: usize = 0;
    while k < rows.len()
        invariant
            0 <= k <= rows.len(),
            names@ == name_lens(rows@.take(k as int)),
            branches@ == branch_lens(rows@.take(k as int)),
            states@ == state_lens(rows@.take(k as int)),
        decreases rows.len() - k,
    {
        let row = &rows[k];
        proof {
            assert(rows@.take(k + 1) =~= rows@.take(k as int).push(*row));
        }
        names.push(row.name.as_str().len());
        branches.push(row.branch.as_str().len());
        states.push(row.state.text().len());
        proof {
            assert(names@ =~= name_lens(rows@.take(k + 1)));
            assert(branches@ =~= branch_lens(rows@.take(k + 1)));
            assert(states@ =~= state_lens(rows@.take(k + 1)));
        }
        k = k + 1;
    }
    assert(rows@.take(rows.len() as int) =~= rows@);
    let nw = width("REPOSITORY", &names);
    let bw = width("BRANCH", &branches);
    let sw = width("STATUS", &states);
    let ghost head = seq!["WORKSPACE "@ + workspace@, Seq::<char>::empty(), header_line(nw, bw, sw)];
    let ghost line = |r: RepoStatus| row_line(r, nw, bw, sw);
    let mut out: Vec<String> = Vec::new();
    let mut first = String::from_str("WORKSPACE ");
    first.append(workspace);
    out.push(first);
    out.push(String::new());
    let mut header: Vec<char> = Vec::new();
    push_padded(&mut header, &chars_of("REPOSITORY"), nw);
    push_str(&mut header, "  ");
    push_padded(&mut header, &chars_of("BRANCH"), bw);
    push_str(&mut header, "  ");
    push_padded(&mut header, &chars_of("STATUS"), sw);
    push_str(&mut header, "  UPSTREAM");
    assert(header@ =~= header_line(nw, bw, sw));
    out.push(string_from_chars(&header));
    assert(strings_view(out@) =~= head);
    let mut k: usize = 0;
    while k < rows.len()
        invariant
            0 <= k <= rows.len(),
            strings_view(out@) == head + rows@.take(k as int).map_values(line),
        decreases rows.len() - k,
    {
        let s = row_string(&rows[k], nw, bw, sw);
        proof {
            assert(line(rows@[k as int]) == s@);
            assert(rows@.take(k + 1).map_values(line) =~= rows@.take(k as int).map_values(
                line,
            ).push(s@));
            assert(strings_view(out@.push(s)) =~= strings_view(out@).push(s@));
        }
        out.push(s);
        k = k + 1;
    }
    assert(rows@.take(rows.len() as int) =~= rows@);
    let ghost body = head + rows@.map_values(line);
    if plans.len() > 0 {
        out.push(String::new());
        out.push(String::from_str("AGENT CONTEXT"));
        let ghost pline = |p: RepoPlan| plan_line(p, nw);
        let ghost mid = body + seq![Seq::<char>::empty(), "AGENT CONTEXT"@];
        assert(strings_view(out@) =~= mid);
        let mut j: usize = 0;
        while j < plans.len()
            invariant
                0 <= j <= plans.len(),
                strings_view(out@) == mid + plans@.take(j as int).map_values(pline),
            decreases plans.len() - j,
        {
            let s = plan_string(&plans[j], nw);
            proof {
                assert(pline(plans@[j as int]) == s@);
                assert(plans@.take(j + 1).map_values(pline) =~= plans@.take(j as int).map_values(
                    pline,
                ).push(s@));
                assert(strings_view(out@.push(s)) =~= strings_view(out@).push(s@));
            }
            out.push(s);
            j = j + 1;
        }
        assert(plans@.take(plans.len() as int) =~= plans@);
    }
    proof {
        assert(strings_view(out@) =~= table(workspace@, rows@, plans@));
    }
    out
}

/// The AHEAD and BEHIND fields of a porcelain record: `-` without an upstream.
pub open spec fn tracking_fields(tracking: Option<(usize, usize)>) -> (Seq<char>, Seq<char>) {
    match tracking {
        Some((ahead, behind)) => (decimal(ahead as nat), decimal(behind as nat)),
        None => ("-"@, "-"@),
    }
}

/// `repo  <name>  <branch>  <state>  <ahead>  <behind>`, tab-separated.
pub open spec fn porcelain_row(r: RepoStatus) -> Seq<char> {
    let (ahead, behind) = tracking_fields(r.tracking);
    "repo\t"@ + r.name@ + "\t"@ + r.branch@ + "\t"@ + state_text(r.state) + "\t"@ + ahead + "\t"@
        + behind
}

/// `agent  <name>  <verdict>`, tab-separated.
pub open spec fn porcelain_plan(p: RepoPlan) -> Seq<char> {
    "agent\t"@ + p.name@ + "\t"@ + context_text(p.action)
}

/// The machine-readable records: one per checkout, then one per repository
/// with a generation plan. The field order is a contract.
pub open spec fn porcelain(rows: Seq<RepoStatus>, plans: Seq<RepoPlan>) -> Seq<Seq<char>> {
    rows.map_values(|r: RepoStatus| porcelain_row(r)) + plans.map_values(
        |p: RepoPlan| porcelain_plan(p),
    )
}

fn porcelain_row_string(r: &RepoStatus) -> (s: String)
    ensures
        s@ == porcelain_row(*r),
{
    let mut out: Vec<char> = Vec::new();
    push_str(&mut out, "repo\t");
    push_str(&mut out, r.name.as_str());
    push_str(&mut out, "\t");
    push_str(&mut out, r.branch.as_str());
    push_str(&mut out, "\t");
    push_str(&mut out, r.state.text());
    push_str(&mut out, "\t");
    match r.tracking {
        Some((ahead, behind)) => {
            push_decimal(&mut out, ahead);
            push_str(&mut out, "\t");
            push_decimal(&mut out, behind);
        },
        None => {
            push_str(&mut out, "-");
            push_str(&mut out, "\t");
            push_str(&mut out, "-");
        },
    }
    assert(out@ =~= porcelain_row(*r));
    string_from_chars(&out)
}

fn porcelain_plan_string(p: &RepoPlan) -> (s: String)
    ensures
        s@ == porcelain_plan(*p),
{
    let mut out: Vec<char> = Vec::new();
    push_str(&mut out, "agent\t");
    push_str(&mut out, p.name.as_str());
    push_str(&mut out, "\t");
    push_str(&mut out, context_state(p.action));
    assert(out@ =~= porcelain_plan(*p));
    string_from_chars(&out)
}

/// The lines of the machine-readable records.
pub fn porcelain_lines(rows: &Vec<RepoStatus>, plans: &Vec<RepoPlan>) -> (r: Vec<String>)
    ensures
        strings_view(r@) == porcelain(rows@, plans@),
{
    let mut out: Vec<String> = Vec::new();
    let mut k: usize = 0;
    while k < rows.len()
        invariant
            0 <= k <= rows.len(),
            strings_view(out@) == rows@.take(k as int).map_values(|r: RepoStatus| porcelain_row(r)),
        decreases rows.len() - k,
    {
        let s = porcelain_row_string(&rows[k]);
        proof {
            assert(rows@.take(k + 1).map_values(|r: RepoStatus| porcelain_row(r)) =~= rows@.take(
                k as int,
            ).map_values(|r: RepoStatus| porcelain_row(r)).push(s@));
            assert(strings_view(out@.push(s)) =~= strings_view(out@).push(s@));
        }
        out.push(s);
        k = k + 1;
    }
    assert(rows@.take(rows.len() as int) =~= rows@);
    let ghost first = rows@.map_values(|r: RepoStatus| porcelain_row(r));
    let mut j: usize = 0;
    while j < plans.len()
        invariant
            0 <= j <= plans.len(),
            first == rows@.map_values(|r: RepoStatus| porcelain_row(r)),
            strings_view(out@) == first + plans@.take(j as int).map_values(
                |p: RepoPlan| porcelain_plan(p),
            ),
        decreases plans.len() - j,
    {
        let s = porcelain_plan_string(&plans[j]);
        proof {
            assert(plans@.take(j + 1).map_values(|p: RepoPlan| porcelain_plan(p)) =~= plans@.take(
                j as int,
            ).map_values(|p: RepoPlan| porcelain_plan(p)).push(s@));
            assert(strings_view(out@.push(s)) =~= strings_view(out@).push(s@));
        }
        out.push(s);
        j = j + 1;
    }
    assert(plans@.take(plans.len() as int) =~= plans@);
    out
}

/// The elements of `s` that satisfy `p`, in order.
pub open spec fn keep<T>(s: Seq<T>, p: spec_fn(T) -> bool) -> Seq<T>
    decreases s.len(),
{
    if s.len() == 0 {
        Seq::empty()
    } else {
        (if p(s[0]) {
            seq![s[0]]
        } else {
            Seq::empty()
        }) + keep(s.drop_first(), p)
    }
}

pub open spec fn row_named(name: Seq<char>) -> spec_fn(RepoStatus) -> bool {
    |r: RepoStatus| r.name@ == name
}

pub open spec fn plan_named(name: Seq<char>) -> spec_fn(RepoPlan) -> bool {
    |p: RepoPlan| p.name@ == name
}

fn keep_rows(rows: Vec<RepoStatus>, name: &Vec<char>) -> (r: Vec<RepoStatus>)
    ensures
        r@ == keep(rows@, row_named(name@)),
{
    let ghost orig = rows@;
    let ghost p = row_named(name@);
    let mut rows = rows;
    let mut out: Vec<RepoStatus> = Vec::new();
    while rows.len() > 0
        invariant
            p == row_named(name@),
            out@ + keep(rows@, p) == keep(orig, p),
        decreases rows.len(),
    {
        let ghost before = rows@;
        let r = rows.remove(0);
        assert(rows@ =~= before.drop_first());
        let n = chars_of(r.name.as_str());
        if chars_eq(&n, name) {
            assert(out@.push(r) + keep(rows@, p) =~= out@ + keep(before, p));
            out.push(r);
        } else {
            assert(keep(before, p) =~= keep(rows@, p));
        }
    }
    assert(out@ + keep(rows@, p) =~= out@);
    out
}

fn keep_plans(plans: Vec<RepoPlan>, name: &Vec<char>) -> (r: Vec<RepoPlan>)
    ensures
        r@ == keep(plans@, plan_named(name@)),
{
    let ghost orig = plans@;
    let ghost p = plan_named(name@);
    let mut plans = plans;
    let mut out: Vec<RepoPlan> = Vec::new();
    while plans.len() > 0
        invariant
            p == plan_named(name@),
            out@ + keep(plans@, p) == keep(orig, p),
        decreases plans.len(),
    {
        let ghost before = plans@;
        let x = plans.remove(0);
        assert(plans@ =~= before.drop_first());
        let n = chars_of(x.name.as_str());
        if chars_eq(&n, name) {
            assert(out@.push(x) + keep(plans@, p) =~= out@ + keep(before, p));
            out.push(x);
        } else {
            assert(keep(before, p) =~= keep(plans@, p));
        }
    }
    assert(out@ + keep(plans@, p) =~= out@);
    out
}

/// `--repo` restricts both the rows and the plans to the one name; a name
/// that matches no row is an error rather than empty output.
pub fn select(rows: Vec<RepoStatus>, plans: Vec<RepoPlan>, repo: Option<&str>) -> (r: Result<
    (Vec<RepoStatus>, Vec<RepoPlan>),
    CommandError,
>)
    ensures
        match repo {
            None => r matches Ok((rs, ps)) && rs@ == rows@ && ps@ == plans@,
            Some(w) => if keep(rows@, row_named(w@)).len() == 0 {
                r matches Err(CommandError::UnknownRepository(n)) && n@ == w@
            } else {
                r matches Ok((rs, ps)) && rs@ == keep(rows@, row_named(w@)) && ps@ == keep(
                    plans@,
                    plan_named(w@),
                )
            },
        },
{
    match repo {
        None => Ok((rows, plans)),
        Some(wanted) => {
            let w = chars_of(wanted);
            let rs = keep_rows(rows, &w);
            let ps = keep_plans(plans, &w);
            if rs.len() == 0 {
                Err(CommandError::UnknownRepository(String::from_str(wanted)))
            } else {
                Ok((rs, ps))
            }
        },
    }
}

/// `max_of` is at least `init` and each value.
pub proof fn lemma_max_of(values: Seq<usize>, init: usize)
    ensures
        init <= max_of(values, init),
        forall|k: int| 0 <= k < values.len() ==> values[k] <= max_of(values, init),
    decreases values.len(),
{
    if values.len() > 0 {
        lemma_max_of(values.drop_last(), init);
        assert forall|k: int| 0 <= k < values.len() implies values[k] <= max_of(values, init) by {
            if k < values.len() - 1 {
                assert(values[k] == values.drop_last()[k]);
            }
        }
    }
}

/// A string takes at least as many bytes as it has characters.
proof fn lemma_chars_within_bytes(s: Seq<char>)
    requires
        crate::text::utf8_len(s) <= usize::MAX,
    ensures
        s.len() <= str_len(s),
{
    crate::text::lemma_utf8_len_is_encoding_len(s);
    crate::text::lemma_utf8_len_at_least_len(s);
}

/// The repository table stays aligned whatever the names are: the columns are
/// as wide, in bytes, as their widest value, header included, and a value is
/// never longer in characters than in bytes, so every padded cell of every
/// row, and of the header, is exactly its column's width.
pub proof fn lemma_table_columns_align(rows: Seq<RepoStatus>)
    requires
        forall|k: int|
            0 <= k < rows.len() ==> crate::text::utf8_len((#[trigger] rows[k]).name@) <= usize::MAX
                && crate::text::utf8_len(rows[k].branch@) <= usize::MAX,
    ensures
        ({
            let nw = max_of(name_lens(rows), str_len("REPOSITORY"@));
            let bw = max_of(branch_lens(rows), str_len("BRANCH"@));
            let sw = max_of(state_lens(rows), str_len("STATUS"@));
            &&& pad_right("REPOSITORY"@, nw as nat).len() == nw
            &&& pad_right("BRANCH"@, bw as nat).len() == bw
            &&& pad_right("STATUS"@, sw as nat).len() == sw
            &&& forall|k: int|
                0 <= k < rows.len() ==> pad_right((#[trigger] rows[k]).name@, nw as nat).len() == nw
                    && pad_right(rows[k].branch@, bw as nat).len() == bw && pad_right(
                    state_text(rows[k].state),
                    sw as nat,
                ).len() == sw
        }),
{
    let nw = max_of(name_lens(rows), str_len("REPOSITORY"@));
    let bw = max_of(branch_lens(rows), str_len("BRANCH"@));
    let sw = max_of(state_lens(rows), str_len("STATUS"@));
    lemma_max_of(name_lens(rows), str_len("REPOSITORY"@));
    lemma_max_of(branch_lens(rows), str_len("BRANCH"@));
    lemma_max_of(state_lens(rows), str_len("STATUS"@));
    reveal_strlit("REPOSITORY");
    reveal_strlit("BRANCH");
    reveal_strlit("STATUS");
    crate::text::lemma_utf8_len_at_most("REPOSITORY"@);
    crate::text::lemma_utf8_len_at_most("BRANCH"@);
    crate::text::lemma_utf8_len_at_most("STATUS"@);
    lemma_chars_within_bytes("REPOSITORY"@);
    lemma_chars_within_bytes("BRANCH"@);
    lemma_chars_within_bytes("STATUS"@);
    assert forall|k: int| 0 <= k < rows.len() implies pad_right(
        (#[trigger] rows[k]).name@,
        nw as nat,
    ).len() == nw && pad_right(rows[k].branch@, bw as nat).len() == bw && pad_right(
        state_text(rows[k].state),
        sw as nat,
    ).len() == sw by {
        let r = rows[k];
        lemma_chars_within_bytes(r.name@);
        lemma_chars_within_bytes(r.branch@);
        assert(name_lens(rows)[k] == str_len(r.name@));
        assert(branch_lens(rows)[k] == str_len(r.branch@));
        assert(state_lens(rows)[k] == str_len(state_text(r.state)));
        reveal_strlit("clean");
        reveal_strlit("modified");
        reveal_strlit("missing");
        reveal_strlit("not a git repository");
        crate::text::lemma_utf8_len_at_most(state_text(r.state));
        lemma_chars_within_bytes(state_text(r.state));
    }
}

/// The UPSTREAM column and the AHEAD and BEHIND fields of a porcelain record
/// come from the same tracking, so they cannot disagree: one says there is no
/// upstream exactly when the other does, and one says the branch is current
/// exactly when the other counts nothing ahead and nothing behind.
pub proof fn lemma_upstream_agrees_with_porcelain(tracking: Option<(usize, usize)>)
    ensures
        (upstream_text(tracking) == "no upstream"@) <==> (tracking_fields(tracking) == (
            "-"@,
            "-"@,
        )),
        (upstream_text(tracking) == "current"@) <==> (tracking_fields(tracking) == (
            seq!['0'],
            seq!['0'],
        )),
{
    reveal_strlit("no upstream");
    reveal_strlit("current");
    reveal_strlit("-");
    reveal_strlit("ahead ");
    reveal_strlit("behind ");
    assert("no upstream"@[0] == 'n');
    assert("current"@[0] == 'c');
    assert("-"@[0] == '-');
    assert("-"@ != seq!['0']);
    assert("no upstream"@ != "current"@);
    if let Some((ahead, behind)) = tracking {
        crate::text::lemma_decimal(ahead as nat);
        crate::text::lemma_decimal(behind as nat);
        let u = upstream_text(tracking);
        assert(decimal(ahead as nat)[0] != '-');
        assert(decimal(ahead as nat) != "-"@);
        if ahead == 0 && behind == 0 {
            assert(u == "current"@);
        } else if behind == 0 {
            assert(u[0] == 'a');
        } else {
            assert(u[0] == 'a' || u[0] == 'b');
        }
        if u == "no upstream"@ {
            assert(u[0] == 'n');
        }
        if !(ahead == 0 && behind == 0) && u == "current"@ {
            assert(u[0] == 'c');
        }
    }
}

/// What `keep` keeps: exactly the elements of `s` that satisfy `p`.
pub proof fn lemma_keep_contains<T>(s: Seq<T>, p: spec_fn(T) -> bool)
    ensures
        forall|x: T| #[trigger] keep(s, p).contains(x) <==> (s.contains(x) && p(x)),
    decreases s.len(),
{
    if s.len() > 0 {
        let rest = s.drop_first();
        lemma_keep_contains(rest, p);
        let head: Seq<T> = if p(s[0]) {
            seq![s[0]]
        } else {
            Seq::empty()
        };
        let k = keep(s, p);
        assert(k == head + keep(rest, p));
        assert forall|x: T| #[trigger] keep(s, p).contains(x) <==> (s.contains(x) && p(x)) by {
            if k.contains(x) {
                let i = choose|i: int| 0 <= i < k.len() && k[i] == x;
                if i < head.len() {
                    assert(s[0] == x);
                    assert(s.contains(x));
                } else {
                    assert(keep(rest, p)[i - head.len()] == x);
                    assert(keep(rest, p).contains(x));
                    let j = choose|j: int| 0 <= j < rest.len() && rest[j] == x;
                    assert(s[j + 1] == x);
                    assert(s.contains(x));
                }
            }
            if s.contains(x) && p(x) {
                let j = choose|j: int| 0 <= j < s.len() && s[j] == x;
                if j == 0 {
                    assert(k[0] == x);
                } else {
                    assert(rest[j - 1] == x);
                    assert(rest.contains(x));
                    assert(keep(rest, p).contains(x));
                    let i = choose|i: int| 0 <= i < keep(rest, p).len() && keep(rest, p)[i] == x;
                    assert(k[i + head.len()] == x);
                }
            }
        }
    } else {
        assert(keep(s, p) =~= Seq::<T>::empty());
    }
}

/// `--repo` keeps exactly the rows and the plans of that name, wherever they
/// stand, and a name no row carries is refused.
pub proof fn lemma_select_keeps_exactly_the_named(
    rows: Seq<RepoStatus>,
    plans: Seq<RepoPlan>,
    w: Seq<char>,
)
    ensures
        forall|x: RepoStatus| #[trigger] keep(rows, row_named(w)).contains(x) <==> (rows.contains(x)
            && x.name@ == w),
        forall|x: RepoPlan| #[trigger] keep(plans, plan_named(w)).contains(x) <==> (plans.contains(x)
            && x.name@ == w),
        forall|i: int|
            0 <= i < keep(rows, row_named(w)).len() ==> (#[trigger] keep(rows, row_named(w))[i]).name@
                == w,
        forall|i: int|
            0 <= i < keep(plans, plan_named(w)).len() ==> (#[trigger] keep(plans, plan_named(w))[i]).name@
                == w,
        keep(rows, row_named(w)).len() == 0 <==> forall|k: int| 0 <= k < rows.len() ==> (#[trigger] rows[k]).name@ != w,
{
    lemma_keep_contains(rows, row_named(w));
    lemma_keep_contains(plans, plan_named(w));
    let kr = keep(rows, row_named(w));
    let kp = keep(plans, plan_named(w));
    assert forall|i: int| 0 <= i < kr.len() implies (#[trigger] kr[i]).name@ == w by {
        assert(kr.contains(kr[i]));
    }
    assert forall|i: int| 0 <= i < kp.len() implies (#[trigger] kp[i]).name@ == w by {
        assert(kp.contains(kp[i]));
    }
    if kr.len() == 0 {
        assert forall|k: int| 0 <= k < rows.len() implies (#[trigger] rows[k]).name@ != w by {
            if rows[k].name@ == w {
                assert(rows.contains(rows[k]));
                assert(kr.contains(rows[k]));
            }
        }
    } else {
        assert(kr.contains(kr[0]));
        let j = choose|j: int| 0 <= j < rows.len() && rows[j] == kr[0];
        assert(rows[j].name@ == w);
    }
}

} // verus!

//! The `agent` commands' logic: what `agent configure hermes` edits and
//! reports, the fields `agent status` shows, and the diff hunk a dry run
//! prints. Reading and writing files, and locating them, happen outside.
use vstd::prelude::*;
use crate::text::{
    chars_of, decimal, lines, lines_of, pad_right, push_all, push_decimal, push_padded, push_str,
    string_from_chars, trim, trimmed, utf8_len, views,
};
use crate::yaml::strings_view;
use crate::hermes::{
    add_external_dir, external_dirs, lists, message_of, spec_add_external_dir, spec_external_dirs,
    HermesError,
};
use crate::error::CommandError;
use crate::status::{Action, RepoPlan};
use crate::validate::{
    foreign_files, foreign_in, lemma_foreign_files_prefix, lemma_foreign_in_prefix, plural,
    plural_text, plural_y, plural_y_text, stale_count,
};

verus! {

broadcast use vstd::string::group_string_axioms;

/// One `agent status` row: the label padded so the values line up.
pub open spec fn field_text(label: Seq<char>, value: Seq<char>) -> Seq<char> {
    "  "@ + pad_right(label, 19) + value
}

pub fn field_line(label: &str, value: &str) -> (r: String)
    ensures
        r@ == field_text(label@, value@),
{
    let mut out: Vec<char> = Vec::new();
    push_str(&mut out, "  ");
    push_padded(&mut out, &chars_of(label), 19);
    push_str(&mut out, value);
    assert(out@ =~= field_text(label@, value@));
    string_from_chars(&out)
}

/// The `installed` field: whether the configuration file exists, always with
/// the path, so "no" is never ambiguous about what was looked for.
pub open spec fn installed_text(config: Seq<char>, is_file: bool) -> Seq<char> {
    if is_file {
        "yes ("@ + config + ")"@
    } else {
        "no ("@ + config + " not found)"@
    }
}

pub fn installed_field(config: &str, is_file: bool) -> (r: String)
    ensures
        r@ == installed_text(config@, is_file),
{
    let mut out: Vec<char> = Vec::new();
    if is_file {
        push_str(&mut out, "yes (");
        push_str(&mut out, config);
        push_str(&mut out, ")");
    } else {
        push_str(&mut out, "no (");
        push_str(&mut out, config);
        push_str(&mut out, " not found)");
    }
    assert(out@ =~= installed_text(config@, is_file));
    string_from_chars(&out)
}

/// The `skill source` field: the absolute path `configure` would write.
pub open spec fn skill_source_text(skills: Option<Seq<char>>, present: bool) -> Seq<char> {
    match skills {
        None => "not declared in the manifest"@,
        Some(dir) => if present {
            dir
        } else {
            "missing: "@ + dir
        },
    }
}

pub fn skill_source_field(skills: Option<&str>, present: bool) -> (r: String)
    ensures
        r@ == skill_source_text(
            match skills {
                Some(d) => Some(d@),
                None => None,
            },
            present,
        ),
{
    let mut out: Vec<char> = Vec::new();
    match skills {
        None => push_str(&mut out, "not declared in the manifest"),
        Some(dir) => {
            if !present {
                push_str(&mut out, "missing: ");
            }
            push_str(&mut out, dir);
        },
    }
    assert(out@ =~= skill_source_text(
        match skills {
            Some(d) => Some(d@),
            None => None,
        },
        present,
    ));
    string_from_chars(&out)
}

/// What reading the configuration file gave.
pub enum ConfigRead {
    /// The file does not exist.
    NotFound,
    /// It exists but could not be read, for the given reason.
    Failed(String),
    /// Its text.
    Text(String),
}

/// The `shared skills` field for a readable document listing `dirs`.
pub open spec fn listed_text(dirs: Seq<Seq<char>>, ours: Option<Seq<char>>) -> Seq<char> {
    if ours matches Some(o) && dirs.contains(o) {
        "configured"@
    } else if dirs.len() == 0 {
        "not configured"@
    } else {
        "configured elsewhere ("@ + decimal(dirs.len()) + " other director"@ + plural_y_text(
            dirs.len(),
        ) + ")"@
    }
}

/// The `shared skills` field: whether our directory is listed in
/// `skills.external_dirs`. A document `configure` would refuse is reported as
/// unreadable with the refusal, since that is why `configure` will fail.
pub fn shared_skills_field(read: &ConfigRead, ours: Option<&str>) -> (r: String)
    ensures
        match read {
            ConfigRead::NotFound => r@ == "not configured"@,
            ConfigRead::Failed(reason) => r@ == "unreadable: "@ + reason@,
            ConfigRead::Text(text) => match spec_external_dirs(text@) {
                Ok(dirs) => r@ == listed_text(
                    dirs,
                    match ours {
                        Some(o) => Some(o@),
                        None => None,
                    },
                ),
                Err(refusal) => exists|e: HermesError|
                    e@ == refusal && r@ == "unreadable: "@ + message_of(e),
            },
        },
{
    let mut out: Vec<char> = Vec::new();
    match read {
        ConfigRead::NotFound => {
            push_str(&mut out, "not configured");
        },
        ConfigRead::Failed(reason) => {
            push_str(&mut out, "unreadable: ");
            push_str(&mut out, reason.as_str());
        },
        ConfigRead::Text(text) => {
            match external_dirs(text.as_str()) {
                Err(e) => {
                    push_str(&mut out, "unreadable: ");
                    let m = e.message();
                    push_str(&mut out, m.as_str());
                    assert(out@ =~= "unreadable: "@ + message_of(e));
                },
                Ok(dirs) => {
                    let ghost ov = match ours {
                        Some(o) => Some(o@),
                        None => None,
                    };
                    let listed = match ours {
                        Some(o) => lists(&dirs, &chars_of(o)),
                        None => false,
                    };
                    if listed {
                        push_str(&mut out, "configured");
                    } else if dirs.len() == 0 {
                        push_str(&mut out, "not configured");
                    } else {
                        push_str(&mut out, "configured elsewhere (");
                        push_decimal(&mut out, dirs.len());
                        push_str(&mut out, " other director");
                        push_str(&mut out, plural_y(dirs.len()));
                        push_str(&mut out, ")");
                    }
                    assert(out@ =~= listed_text(strings_view(dirs@), ov));
                },
            }
        },
    }
    string_from_chars(&out)
}

/// How many repositories have the given action.
pub open spec fn action_count(plans: Seq<RepoPlan>, a: Action) -> nat
    decreases plans.len(),
{
    if plans.len() == 0 {
        0
    } else {
        action_count(plans.drop_last(), a) + if plans.last().action == a {
            1nat
        } else {
            0nat
        }
    }
}

/// The `context` field: a roll-up of the generation plan, worst first: foreign
/// files, then stale repositories, then repositories not checked out.
pub open spec fn rollup_text(plans: Seq<RepoPlan>) -> Seq<char> {
    let foreign = foreign_files(plans);
    let stale = stale_count(plans);
    let missing = action_count(plans, Action::RepoMissing);
    if foreign > 0 {
        decimal(foreign) + " file"@ + plural_text(foreign)
            + " not generated by zpr-dev (run: zpr-dev validate)"@
    } else if stale > 0 {
        "stale in "@ + decimal(stale) + " repositor"@ + plural_y_text(stale)
            + " (run: zpr-dev sync)"@
    } else if missing > 0 {
        decimal(missing) + " repositor"@ + plural_y_text(missing) + " not checked out"@
    } else {
        "ready"@
    }
}

/// The number of foreign files of all the plans, or `None` when it does not
/// fit a `usize`.
pub fn foreign_file_count(plans: &Vec<RepoPlan>) -> (r: Option<usize>)
    ensures
        match r {
            Some(n) => n == foreign_files(plans@),
            None => foreign_files(plans@) > usize::MAX,
        },
{
    let mut total: usize = 0;
    let mut k: usize = 0;
    while k < plans.len()
        invariant
            0 <= k <= plans.len(),
            total == foreign_files(plans@.take(k as int)),
        decreases plans.len() - k,
    {
        assert(plans@.take(k + 1).drop_last() =~= plans@.take(k as int));
        let files = &plans[k].files;
        let mut n: usize = 0;
        let mut j: usize = 0;
        while j < files.len()
            invariant
                0 <= j <= files.len(),
                n == foreign_in(files@.take(j as int)),
                n <= j,
            decreases files.len() - j,
        {
            assert(files@.take(j + 1).drop_last() =~= files@.take(j as int));
            if files[j].action == Action::Foreign {
                n = n + 1;
            }
            j = j + 1;
        }
        assert(files@.take(files.len() as int) =~= files@);
        match total.checked_add(n) {
            Some(t) => total = t,
            None => {
                proof {
                    lemma_foreign_files_prefix(plans@, k + 1);
                }
                return None;
            },
        }
        k = k + 1;
    }
    assert(plans@.take(plans.len() as int) =~= plans@);
    Some(total)
}

/// The `context` field, rolled up from the generation plan.
pub fn context_field(plans: &Vec<RepoPlan>) -> (r: String)
    requires
        foreign_files(plans@) <= usize::MAX,
    ensures
        r@ == rollup_text(plans@),
{
    let mut foreign: usize = 0;
    let mut stale: usize = 0;
    let mut missing: usize = 0;
    let mut k: usize = 0;
    while k < plans.len()
        invariant
            0 <= k <= plans.len(),
            foreign_files(plans@) <= usize::MAX,
            foreign == foreign_files(plans@.take(k as int)),
            stale == stale_count(plans@.take(k as int)),
            missing == action_count(plans@.take(k as int), Action::RepoMissing),
            stale <= k,
            missing <= k,
        decreases plans.len() - k,
    {
        assert(plans@.take(k + 1).drop_last() =~= plans@.take(k as int));
        proof {
            lemma_foreign_files_prefix(plans@, k + 1);
        }
        let plan = &plans[k];
        let files = &plan.files;
        let mut j: usize = 0;
        while j < files.len()
            invariant
                0 <= j <= files.len(),
                foreign_files(plans@.take(k + 1)) <= usize::MAX,
                foreign_files(plans@.take(k + 1)) == foreign_files(plans@.take(k as int))
                    + foreign_in(files@),
                foreign == foreign_files(plans@.take(k as int)) + foreign_in(files@.take(j as int)),
            decreases files.len() - j,
        {
            assert(files@.take(j + 1).drop_last() =~= files@.take(j as int));
            proof {
                lemma_foreign_in_prefix(files@, j + 1);
            }
            if files[j].action == Action::Foreign {
                foreign = foreign + 1;
            }
            j = j + 1;
        }
        assert(files@.take(files.len() as int) =~= files@);
        if plan.action == Action::Create || plan.action == Action::Update {
            stale = stale + 1;
        }
        if plan.action == Action::RepoMissing {
            missing = missing + 1;
        }
        k = k + 1;
    }
    assert(plans@.take(plans.len() as int) =~= plans@);
    let mut out: Vec<char> = Vec::new();
    if foreign > 0 {
        push_decimal(&mut out, foreign);
        push_str(&mut out, " file");
        push_str(&mut out, plural(foreign));
        push_str(&mut out, " not generated by zpr-dev (run: zpr-dev validate)");
    } else if stale > 0 {
        push_str(&mut out, "stale in ");
        push_decimal(&mut out, stale);
        push_str(&mut out, " repositor");
        push_str(&mut out, plural_y(stale));
        push_str(&mut out, " (run: zpr-dev sync)");
    } else if missing > 0 {
        push_decimal(&mut out, missing);
        push_str(&mut out, " repositor");
        push_str(&mut out, plural_y(missing));
        push_str(&mut out, " not checked out");
    } else {
        push_str(&mut out, "ready");
    }
    assert(out@ =~= rollup_text(plans@));
    string_from_chars(&out)
}

/// The length of the common start of `a` and `b`, counting from `i`.
pub open spec fn common_head(a: Seq<Seq<char>>, b: Seq<Seq<char>>, i: int) -> int
    decreases a.len() - i,
{
    if 0 <= i < a.len() && i < b.len() && a[i] == b[i] {
        common_head(a, b, i + 1)
    } else {
        i
    }
}

/// The length of the common end of `a` and `b` past their first `head`
/// lines, counting from `t`.
pub open spec fn common_tail(a: Seq<Seq<char>>, b: Seq<Seq<char>>, head: int, t: int) -> int
    decreases a.len() - head - t,
{
    if 0 <= t && head + t < a.len() && head + t < b.len() && a[a.len() - 1 - t] == b[b.len() - 1
        - t] {
        common_tail(a, b, head, t + 1)
    } else {
        t
    }
}

pub proof fn lemma_common_head(a: Seq<Seq<char>>, b: Seq<Seq<char>>, i: int)
    requires
        0 <= i <= a.len(),
        i <= b.len(),
    ensures
        i <= common_head(a, b, i) <= a.len(),
        common_head(a, b, i) <= b.len(),
    decreases a.len() - i,
{
    if i < a.len() && i < b.len() && a[i] == b[i] {
        lemma_common_head(a, b, i + 1);
    }
}

pub proof fn lemma_common_tail(a: Seq<Seq<char>>, b: Seq<Seq<char>>, head: int, t: int)
    requires
        0 <= t,
        head + t <= a.len(),
        head + t <= b.len(),
    ensures
        t <= common_tail(a, b, head, t),
        head + common_tail(a, b, head, t) <= a.len(),
        head + common_tail(a, b, head, t) <= b.len(),
    decreases a.len() - head - t,
{
    if head + t < a.len() && head + t < b.len() && a[a.len() - 1 - t] == b[b.len() - 1 - t] {
        lemma_common_tail(a, b, head, t + 1);
    }
}

/// The changed region of `before` and `after` as a unified-diff hunk. The edit
/// only ever inserts lines or replaces one line with two, so the common start
/// and end of the two line lists bound the change exactly.
pub open spec fn hunk(before: Seq<char>, after: Seq<char>) -> Seq<Seq<char>> {
    let old = lines(before);
    let new = lines(after);
    let head = common_head(old, new, 0);
    let tail = common_tail(old, new, head, 0);
    seq![
        "@@ -"@ + decimal((head + 1) as nat) + ","@ + decimal((old.len() - head - tail) as nat)
            + " +"@ + decimal((head + 1) as nat) + ","@ + decimal(
            (new.len() - head - tail) as nat,
        ) + " @@"@,
    ] + old.subrange(head, old.len() - tail).map_values(|l: Seq<char>| "-"@ + l)
        + new.subrange(head, new.len() - tail).map_values(|l: Seq<char>| "+"@ + l)
}

/// Appends each of the lines `[from, to)`, marked with `mark`.
fn push_marked(
    out: &mut Vec<String>,
    ls: &Vec<Vec<char>>,
    from: usize,
    to: usize,
    mark: char,
)
    requires
        from <= to <= ls@.len(),
    ensures
        strings_view(final(out)@) == strings_view(old(out)@) + views(ls@).subrange(
            from as int,
            to as int,
        ).map_values(|l: Seq<char>| seq![mark] + l),
{
    let ghost f = |l: Seq<char>| seq![mark] + l;
    let mut k: usize = from;
    while k < to
        invariant
            from <= k <= to <= ls@.len(),
            f == (|l: Seq<char>| seq![mark] + l),
            strings_view(out@) == strings_view(old(out)@) + views(ls@).subrange(
                from as int,
                k as int,
            ).map_values(f),
        decreases to - k,
    {
        let mut line: Vec<char> = Vec::new();
        line.push(mark);
        push_all(&mut line, &ls[k]);
        let s = string_from_chars(&line);
        proof {
            assert(views(ls@)[k as int] == ls@[k as int]@);
            assert(f(views(ls@)[k as int]) == s@);
            assert(views(ls@).subrange(from as int, k + 1).map_values(f) =~= views(ls@).subrange(
                from as int,
                k as int,
            ).map_values(f).push(s@));
            assert(strings_view(out@.push(s)) =~= strings_view(out@).push(s@));
        }
        out.push(s);
        k = k + 1;
    }
}

/// The lines of the diff hunk between `before` and `after`.
pub fn hunk_lines(before: &str, after: &str) -> (r: Vec<String>)
    requires
        utf8_len(before@) <= isize::MAX,
        utf8_len(after@) <= isize::MAX,
    ensures
        strings_view(r@) == hunk(before@, after@),
{
    let old = lines_of(&chars_of(before));
    let new = lines_of(&chars_of(after));
    let ghost ov = views(old@);
    let ghost nv = views(new@);
    proof {
        crate::text::lemma_lines_count(before@);
        crate::text::lemma_lines_count(after@);
        lemma_common_head(ov, nv, 0);
    }
    let mut head: usize = 0;
    while head < old.len() && head < new.len() && crate::text::chars_eq(&old[head], &new[head])
        invariant
            ov == views(old@),
            nv == views(new@),
            head <= old@.len(),
            head <= new@.len(),
            common_head(ov, nv, 0) == common_head(ov, nv, head as int),
        decreases old.len() - head,
    {
        assert(ov[head as int] == old@[head as int]@);
        assert(nv[head as int] == new@[head as int]@);
        head = head + 1;
    }
    if head < old.len() && head < new.len() {
        assert(ov[head as int] == old@[head as int]@);
        assert(nv[head as int] == new@[head as int]@);
    }
    proof {
        lemma_common_tail(ov, nv, head as int, 0);
    }
    let mut tail: usize = 0;
    while head + tail < old.len() && head + tail < new.len() && crate::text::chars_eq(
        &old[old.len() - 1 - tail],
        &new[new.len() - 1 - tail],
    )
        invariant
            ov == views(old@),
            nv == views(new@),
            head + tail <= old@.len(),
            head + tail <= new@.len(),
            common_tail(ov, nv, head as int, 0) == common_tail(ov, nv, head as int, tail as int),
        decreases old.len() - head - tail,
    {
        assert(ov[old.len() - 1 - tail] == old@[old.len() - 1 - tail]@);
        assert(nv[new.len() - 1 - tail] == new@[new.len() - 1 - tail]@);
        tail = tail + 1;
    }
    if head + tail < old.len() && head + tail < new.len() {
        assert(ov[old.len() - 1 - tail] == old@[old.len() - 1 - tail]@);
        assert(nv[new.len() - 1 - tail] == new@[new.len() - 1 - tail]@);
    }
    let mut first: Vec<char> = Vec::new();
    push_str(&mut first, "@@ -");
    push_decimal(&mut first, head + 1);
    push_str(&mut first, ",");
    push_decimal(&mut first, old.len() - head - tail);
    push_str(&mut first, " +");
    push_decimal(&mut first, head + 1);
    push_str(&mut first, ",");
    push_decimal(&mut first, new.len() - head - tail);
    push_str(&mut first, " @@");
    let mut out: Vec<String> = Vec::new();
    out.push(string_from_chars(&first));
    push_marked(&mut out, &old, head, old.len() - tail, '-');
    push_marked(&mut out, &new, head, new.len() - tail, '+');
    proof {
        assert(seq!['-'] =~= "-"@) by {
            reveal_strlit("-");
        }
        assert(seq!['+'] =~= "+"@) by {
            reveal_strlit("+");
        }
        assert(strings_view(out@) =~= hunk(before@, after@));
    }
    out
}

/// What `agent configure hermes` does once the edit is known.
#[derive(Clone, Copy, PartialEq, Eq, Structural, Debug)]
pub enum ConfigureAction {
    /// The directory was already listed: nothing is written.
    Already,
    /// A dry run: the edit is reported, not written; the hunk is printed too
    /// under `--verbose`.
    Preview { hunk: bool },
    /// The file is backed up and the edit written.
    Write,
}

/// The action for an edit: `edited` is whether there is one to make.
pub fn configure_action(edited: bool, dry_run: bool, verbose: bool) -> (r: ConfigureAction)
    ensures
        r == (if !edited {
            ConfigureAction::Already
        } else if dry_run {
            ConfigureAction::Preview { hunk: verbose }
        } else {
            ConfigureAction::Write
        }),
{
    if !edited {
        ConfigureAction::Already
    } else if dry_run {
        ConfigureAction::Preview { hunk: verbose }
    } else {
        ConfigureAction::Write
    }
}

pub open spec fn configured_text(action: ConfigureAction, path: Seq<char>) -> Seq<char> {
    match action {
        ConfigureAction::Already => "hermes shared skills already configured: "@ + path,
        ConfigureAction::Preview { .. } => "would configure hermes shared skills: "@ + path,
        ConfigureAction::Write => "configured hermes shared skills: "@ + path,
    }
}

/// The line `configure` reports for its action.
pub fn configured_message(action: ConfigureAction, path: &str) -> (r: String)
    ensures
        r@ == configured_text(action, path@),
{
    let mut r = match action {
        ConfigureAction::Already => String::from_str("hermes shared skills already configured: "),
        ConfigureAction::Preview { .. } => String::from_str("would configure hermes shared skills: "),
        ConfigureAction::Write => String::from_str("configured hermes shared skills: "),
    };
    r.append(path);
    r
}

/// The directory `configure` writes: the one the manifest declares, which must
/// exist, since pointing Hermes at a directory that is not there is worse than
/// doing nothing.
pub fn configure_source(skills: Option<&str>, present: bool) -> (r: Result<String, CommandError>)
    ensures
        match skills {
            None => r matches Err(CommandError::NoSharedSkills),
            Some(d) => if present {
                r matches Ok(s) && s@ == d@
            } else {
                r matches Err(CommandError::SharedSkillsMissing(m)) && m@ == d@
            },
        },
{
    match skills {
        None => Err(CommandError::NoSharedSkills),
        Some(d) => if present {
            Ok(String::from_str(d))
        } else {
            Err(CommandError::SharedSkillsMissing(String::from_str(d)))
        },
    }
}

/// The edit `configure` makes to the configuration at `config`: the edited
/// text, or `None` when the directory is already listed. A refusal names the
/// file; the editor's own message supplies the remedy.
pub fn configure_edit(config: &str, text: &str, path: &str) -> (r: Result<
    Option<String>,
    CommandError,
>)
    requires
        utf8_len(text@) <= isize::MAX,
    ensures
        match r {
            Ok(Some(e)) => spec_add_external_dir(text@, path@) == Ok::<_, crate::hermes::Refusal>(
                Some(e@),
            ),
            Ok(None) => spec_add_external_dir(text@, path@) == Ok::<_, crate::hermes::Refusal>(
                None::<Seq<char>>,
            ),
            Err(CommandError::Refused(c, e)) => c@ == config@ && spec_add_external_dir(
                text@,
                path@,
            ) == Err::<Option<Seq<char>>, _>(e@),
            Err(_) => false,
        },
{
    match add_external_dir(text, path) {
        Ok(edited) => Ok(edited),
        Err(e) => Err(CommandError::Refused(String::from_str(config), e)),
    }
}

/// The user's home directory, from the value of `$HOME`: an unset or blank
/// value is an error, since there is no sensible fallback for another
/// program's configuration file.
pub fn home_dir_from(value: Option<&str>) -> (r: Result<String, CommandError>)
    ensures
        match value {
            Some(v) => if trim(v@).len() > 0 {
                r matches Ok(h) && h@ == v@
            } else {
                r matches Err(CommandError::HomeNotSet)
            },
            None => r matches Err(CommandError::HomeNotSet),
        },
{
    match value {
        Some(v) => {
            if trimmed(&chars_of(v)).len() > 0 {
                Ok(String::from_str(v))
            } else {
                Err(CommandError::HomeNotSet)
            }
        },
        None => Err(CommandError::HomeNotSet),
    }
}

/// The `shared skills` field reads `configured` exactly when our directory is
/// one of the listed directories, wherever in the list it stands; otherwise
/// it reads `not configured` for an empty list and `configured elsewhere`
/// followed by the number of directories listed.
pub proof fn lemma_configured_exactly_when_listed(dirs: Seq<Seq<char>>, ours: Option<Seq<char>>)
    ensures
        listed_text(dirs, ours) == "configured"@ <==> (ours matches Some(o) && exists|i: int|
            0 <= i < dirs.len() && dirs[i] == o),
        !(ours matches Some(o) && exists|i: int| 0 <= i < dirs.len() && dirs[i] == o) ==> (if dirs.len()
            == 0 {
            listed_text(dirs, ours) == "not configured"@
        } else {
            listed_text(dirs, ours) == "configured elsewhere ("@ + decimal(dirs.len())
                + " other director"@ + plural_y_text(dirs.len()) + ")"@
        }),
{
    reveal_strlit("configured");
    reveal_strlit("not configured");
    reveal_strlit("configured elsewhere (");
    let listed = ours matches Some(o) && exists|i: int| 0 <= i < dirs.len() && dirs[i] == o;
    if let Some(o) = ours {
        if dirs.contains(o) {
            let i = choose|i: int| 0 <= i < dirs.len() && dirs[i] == o;
            assert(0 <= i < dirs.len() && dirs[i] == o);
        }
        if listed {
            let i = choose|i: int| 0 <= i < dirs.len() && dirs[i] == o;
            assert(dirs.contains(o)) by {
                assert(dirs[i] == o);
            }
        }
    }
    if !listed {
        if dirs.len() == 0 {
            assert("not configured"@.len() != "configured"@.len());
        } else {
            let t = "configured elsewhere ("@ + decimal(dirs.len()) + " other director"@
                + plural_y_text(dirs.len()) + ")"@;
            assert(t.len() >= 22);
        }
    }
}

} // verus!

use zpr_dev::agent::{
    configure_action, configure_edit, configure_source, configured_message, context_field,
    field_line,
    foreign_file_count, home_dir_from, hunk_lines, installed_field, shared_skills_field,
    skill_source_field, ConfigRead, ConfigureAction,
};
use zpr_dev::error::CommandError;
use zpr_dev::references::{broken_references, doc_references};
use zpr_dev::status::{
    context_state, porcelain_lines, repo_status, select, table_lines, width, Action, FilePlan,
    RepoPlan, RepoProbe, RepoState, RepoStatus,
};
use zpr_dev::validate::{
    check_generated, check_references, check_repositories, check_shared_skills, plural, plural_y,
    check_shared_context, step_finding, validate_next, RepoCheck, Report, SharedContext,
    ValidateStep,
};
use zpr_dev::workspace::{
    clone_message, clone_step, generation_lines, missing_count, setup_summary, update_next,
    update_result, update_start, update_targets, ApplySummary, CloneStep, SetupTally, UpdateCheck,
    UpdateStep,
};

fn row(name: &str, branch: &str, state: RepoState, tracking: Option<(usize, usize)>) -> RepoStatus {
    RepoStatus {
        name: name.to_string(),
        branch: branch.to_string(),
        state,
        tracking,
    }
}

fn plan(name: &str, action: Action, files: Vec<(&str, Action)>) -> RepoPlan {
    RepoPlan {
        name: name.to_string(),
        action,
        files: files
            .into_iter()
            .map(|(path, action)| FilePlan {
                path: path.to_string(),
                action,
            })
            .collect(),
    }
}

// ---- documentation references ---------------------------------------------

/// A reference to the documentation directory itself resolves; a reference to
/// a file that is not there does not. Which paths exist is given directly:
/// `docs/` and `docs/HERE.md` do, `docs/GONE.md` does not.
#[test]
fn directory_reference_is_not_broken_but_missing_file_is() {
    let body = "- `docs/` -> knowledge. See [here](docs/HERE.md) and docs/GONE.md.";
    let refs = doc_references(body, "docs");
    assert_eq!(refs, vec!["docs/", "docs/HERE.md", "docs/GONE.md"]);
    let resolves: Vec<bool> = refs.iter().map(|r| r != "docs/GONE.md").collect();
    assert_eq!(
        broken_references(&refs, &resolves),
        vec!["docs/GONE.md".to_string()]
    );
}

#[test]
fn references_drop_a_leading_dot_slash_and_trailing_dots() {
    let body = "see ./docs/A.md... and <docs/B.md>, 'docs/C.md'; docs/A.md! notdocs/X.md docs";
    assert_eq!(
        doc_references(body, "docs"),
        vec!["docs/A.md", "docs/B.md", "docs/C.md", "docs/A.md"]
    );
}

#[test]
fn a_broken_reference_is_named_once_in_first_appearance_order() {
    let refs: Vec<String> = ["docs/B.md", "docs/A.md", "docs/B.md", "docs/C.md"]
        .iter()
        .map(|s| s.to_string())
        .collect();
    let resolves = vec![false, false, false, true];
    assert_eq!(
        broken_references(&refs, &resolves),
        vec!["docs/B.md".to_string(), "docs/A.md".to_string()]
    );
}

// ---- status -----------------------------------------------------------------

#[test]
fn upstream_column_covers_every_tracking_state() {
    assert_eq!(row("a", "main", RepoState::Clean, None).upstream(), "no upstream");
    assert_eq!(row("a", "main", RepoState::Clean, Some((0, 0))).upstream(), "current");
    assert_eq!(row("a", "main", RepoState::Clean, Some((3, 0))).upstream(), "ahead 3");
    assert_eq!(row("a", "main", RepoState::Clean, Some((0, 12))).upstream(), "behind 12");
    assert_eq!(
        row("a", "main", RepoState::Clean, Some((1, 205))).upstream(),
        "ahead 1 behind 205"
    );
}

#[test]
fn repo_status_reads_each_probe() {
    let r = repo_status("gone", RepoProbe::Missing);
    assert_eq!((r.name.as_str(), r.branch.as_str()), ("gone", "-"));
    assert_eq!(r.state, RepoState::Missing);
    assert_eq!(r.tracking, None);

    let r = repo_status("plain", RepoProbe::NotGitRepository);
    assert_eq!(r.branch, "-");
    assert_eq!(r.state, RepoState::NotGitRepository);

    let r = repo_status(
        "x",
        RepoProbe::Checkout {
            branch: None,
            dirty: true,
            tracking: Some((2, 1)),
        },
    );
    assert_eq!(r.branch, "detached");
    assert_eq!(r.state, RepoState::Modified);
    assert_eq!(r.tracking, Some((2, 1)));

    let r = repo_status(
        "x",
        RepoProbe::Checkout {
            branch: Some("main".to_string()),
            dirty: false,
            tracking: None,
        },
    );
    assert_eq!(r.branch, "main");
    assert_eq!(r.state, RepoState::Clean);
}

#[test]
fn context_state_names_each_action() {
    assert_eq!(context_state(Action::Create), "stale");
    assert_eq!(context_state(Action::Update), "stale");
    assert_eq!(context_state(Action::Unchanged), "current");
    assert_eq!(context_state(Action::Foreign), "not generated by zpr-dev");
    assert_eq!(context_state(Action::RepoMissing), "missing repository");
}

#[test]
fn width_is_the_widest_of_header_and_values() {
    assert_eq!(width("REPOSITORY", &vec![]), 10);
    assert_eq!(width("REPOSITORY", &vec![3, 14, 2]), 14);
    assert_eq!(width("BRANCH", &vec![4, 6]), 6);
}

#[test]
fn table_aligns_columns_to_the_widest_value() {
    let rows = vec![
        row("zpr-dev-context", "main", RepoState::Clean, Some((0, 0))),
        row("api", "-", RepoState::Missing, None),
    ];
    let plans = vec![plan("api", Action::RepoMissing, vec![])];
    let lines = table_lines("/w", &rows, &plans);
    assert_eq!(
        lines,
        vec![
            "WORKSPACE /w",
            "",
            "REPOSITORY       BRANCH  STATUS   UPSTREAM",
            "zpr-dev-context  main    clean    current",
            "api              -       missing  no upstream",
            "",
            "AGENT CONTEXT",
            "api              missing repository",
        ]
    );
}

#[test]
fn table_without_plans_has_no_agent_context_section() {
    let rows = vec![row("a", "main", RepoState::Modified, Some((1, 0)))];
    let lines = table_lines("/w", &rows, &vec![]);
    assert_eq!(
        lines,
        vec![
            "WORKSPACE /w",
            "",
            "REPOSITORY  BRANCH  STATUS    UPSTREAM",
            "a           main    modified  ahead 1",
        ]
    );
}

#[test]
fn table_cells_are_padded_to_the_column_width_in_characters() {
    // "dépôt-très-long" is 15 characters but 18 bytes: the column is 18 wide,
    // and every name cell is padded to 18 characters.
    let rows = vec![
        row("dépôt-très-long", "main", RepoState::Clean, None),
        row("a", "main", RepoState::Clean, None),
    ];
    let lines = table_lines("/w", &rows, &vec![]);
    assert_eq!(lines[2], "REPOSITORY          BRANCH  STATUS  UPSTREAM");
    assert_eq!(lines[3], "dépôt-très-long     main    clean   no upstream");
    assert_eq!(lines[4], "a                   main    clean   no upstream");
    for line in &lines[2..] {
        assert_eq!(line.chars().position(|c| c == 'm' || c == 'B'), Some(20));
    }
}

#[test]
fn porcelain_records_are_tab_separated() {
    let rows = vec![
        row("a", "main", RepoState::Clean, Some((2, 3))),
        row("b", "-", RepoState::NotGitRepository, None),
    ];
    let plans = vec![plan("a", Action::Update, vec![])];
    assert_eq!(
        porcelain_lines(&rows, &plans),
        vec![
            "repo\ta\tmain\tclean\t2\t3",
            "repo\tb\t-\tnot a git repository\t-\t-",
            "agent\ta\tstale",
        ]
    );
}

#[test]
fn select_keeps_one_repository_or_names_the_unknown_one() {
    let rows = || {
        vec![
            row("ctx", "main", RepoState::Clean, None),
            row("a", "main", RepoState::Clean, None),
        ]
    };
    let plans = || vec![plan("a", Action::Unchanged, vec![])];

    let (r, p) = match select(rows(), plans(), Some("ctx")) {
        Ok(kept) => kept,
        Err(_) => panic!("ctx is known"),
    };
    assert_eq!(r.len(), 1);
    assert_eq!(r[0].name, "ctx");
    assert!(p.is_empty());

    let (r, p) = match select(rows(), plans(), None) {
        Ok(kept) => kept,
        Err(_) => panic!("no filter"),
    };
    assert_eq!((r.len(), p.len()), (2, 1));

    match select(rows(), plans(), Some("nope")) {
        Err(e) => assert_eq!(e.message(), "unknown repository: nope"),
        Ok(_) => panic!("unknown name accepted"),
    }
}

// ---- validate ---------------------------------------------------------------

#[test]
fn plural_suffixes() {
    assert_eq!(plural(0), "s");
    assert_eq!(plural(1), "");
    assert_eq!(plural(2), "s");
    assert_eq!(plural_y(1), "y");
    assert_eq!(plural_y(3), "ies");
}

#[test]
fn findings_are_tagged_and_aligned() {
    let mut report = Report::new();
    assert_eq!(report.ok("context repository"), "[OK]   context repository");
    assert_eq!(report.info("note"), "[INFO] note");
    assert_eq!(report.warn("w"), "[WARN] w");
    assert_eq!(report.error("e"), "[ERROR] e");
    assert_eq!((report.errors, report.warnings), (1, 1));
}

#[test]
fn finish_reports_failure_when_any_check_failed() {
    let mut report = Report::new();
    report.error("a");
    report.error("b");
    report.warn("c");
    let (lines, code) = report.finish();
    assert_eq!(
        lines,
        vec!["", "Validation failed with 2 errors and 1 warning."]
    );
    assert_eq!(code, 1);
}

#[test]
fn finish_succeeds_with_only_warnings() {
    let report = Report::new();
    let (lines, code) = report.finish();
    assert_eq!(lines, vec!["", "Validation completed with 0 warnings."]);
    assert_eq!(code, 0);
}

#[test]
fn repository_checks_report_each_problem_and_the_tally() {
    let repos = vec![
        RepoCheck {
            name: "a".to_string(),
            present: true,
            git: true,
            local_context: true,
        },
        RepoCheck {
            name: "b".to_string(),
            present: false,
            git: false,
            local_context: false,
        },
        RepoCheck {
            name: "c".to_string(),
            present: true,
            git: false,
            local_context: false,
        },
    ];
    let mut report = Report::new();
    assert_eq!(
        check_repositories(&mut report, &repos),
        vec![
            "[ERROR] b: missing",
            "[ERROR] c: not a git repository",
            "[INFO] repository-specific context in 1 of 3 repositories",
        ]
    );
    assert_eq!(report.errors, 2);

    let healthy = vec![RepoCheck {
        name: "a".to_string(),
        present: true,
        git: true,
        local_context: true,
    }];
    let mut report = Report::new();
    assert_eq!(
        check_repositories(&mut report, &healthy),
        vec![
            "[OK]   1 source repositories",
            "[INFO] repository-specific context in 1 of 1 repositories",
        ]
    );
    assert_eq!(report.errors, 0);
}

#[test]
fn generated_context_checks_name_foreign_files_and_count_stale() {
    let plans = vec![
        plan("a", Action::Update, vec![("a/AGENTS.md", Action::Foreign)]),
        plan("b", Action::Create, vec![("b/AGENTS.md", Action::Create)]),
        plan("c", Action::Unchanged, vec![]),
    ];
    let mut report = Report::new();
    assert_eq!(
        check_generated(&mut report, &plans),
        vec![
            "[ERROR] a: a/AGENTS.md exists but was not generated by zpr-dev; rename it to AGENTS.repo.md to have it included, or delete it",
            "[WARN] generated context stale in 2 repositories (run: zpr-dev sync)",
        ]
    );
    assert_eq!((report.errors, report.warnings), (1, 1));

    let mut report = Report::new();
    let fresh = vec![plan("c", Action::Unchanged, vec![])];
    assert_eq!(
        check_generated(&mut report, &fresh),
        vec!["[OK]   generated context"]
    );
}

#[test]
fn reference_and_skills_checks() {
    let mut report = Report::new();
    assert_eq!(
        check_references(&mut report, &vec![]),
        vec!["[OK]   documentation references"]
    );
    assert_eq!(
        check_references(&mut report, &vec!["docs/GONE.md".to_string()]),
        vec!["[ERROR] documentation reference does not resolve: docs/GONE.md"]
    );
    assert_eq!(
        check_shared_skills(&mut report, "skills", "/ctx/skills", true),
        "[OK]   shared skills skills"
    );
    assert_eq!(
        check_shared_skills(&mut report, "skills", "/ctx/skills", false),
        "[WARN] shared skills directory missing: /ctx/skills (declared as agent.hermes.shared_skills)"
    );
    assert_eq!((report.errors, report.warnings), (1, 1));
}

// ---- agent --------------------------------------------------------------------

#[test]
fn agent_status_fields() {
    assert_eq!(
        field_line("installed", "yes (/h/.hermes/config.yaml)"),
        "  installed          yes (/h/.hermes/config.yaml)"
    );
    assert_eq!(installed_field("/c", true), "yes (/c)");
    assert_eq!(installed_field("/c", false), "no (/c not found)");
    assert_eq!(skill_source_field(None, false), "not declared in the manifest");
    assert_eq!(skill_source_field(Some("/s"), false), "missing: /s");
    assert_eq!(skill_source_field(Some("/s"), true), "/s");
}

#[test]
fn shared_skills_field_reports_each_state() {
    let text = |t: &str| ConfigRead::Text(t.to_string());
    assert_eq!(shared_skills_field(&ConfigRead::NotFound, Some("/s")), "not configured");
    assert_eq!(
        shared_skills_field(&ConfigRead::Failed("denied".to_string()), Some("/s")),
        "unreadable: denied"
    );
    assert_eq!(
        shared_skills_field(&text("skills:\n  external_dirs:\n    - /s\n"), Some("/s")),
        "configured"
    );
    assert_eq!(
        shared_skills_field(&text("skills:\n  external_dirs: []\n"), Some("/s")),
        "not configured"
    );
    assert_eq!(
        shared_skills_field(&text("skills:\n  external_dirs:\n    - /a\n"), Some("/s")),
        "configured elsewhere (1 other directory)"
    );
    assert_eq!(
        shared_skills_field(&text("skills:\n  external_dirs:\n    - /a\n    - /b\n"), None),
        "configured elsewhere (2 other directories)"
    );
    assert_eq!(
        shared_skills_field(&text("skills: 3\n"), Some("/s")),
        "unreadable: `skills` is not a mapping; edit the file by hand"
    );
}

#[test]
fn context_field_rolls_up_worst_first() {
    let foreign = vec![
        plan("a", Action::Create, vec![("x", Action::Foreign), ("y", Action::Foreign)]),
        plan("b", Action::RepoMissing, vec![]),
    ];
    assert_eq!(foreign_file_count(&foreign), Some(2));
    assert_eq!(
        context_field(&foreign),
        "2 files not generated by zpr-dev (run: zpr-dev validate)"
    );
    let stale = vec![
        plan("a", Action::Create, vec![]),
        plan("b", Action::RepoMissing, vec![]),
    ];
    assert_eq!(context_field(&stale), "stale in 1 repository (run: zpr-dev sync)");
    let missing = vec![
        plan("a", Action::Unchanged, vec![]),
        plan("b", Action::RepoMissing, vec![]),
        plan("c", Action::RepoMissing, vec![]),
    ];
    assert_eq!(context_field(&missing), "2 repositories not checked out");
    assert_eq!(context_field(&vec![plan("a", Action::Unchanged, vec![])]), "ready");
}

#[test]
fn hunk_shows_only_the_changed_lines() {
    let before = "skills:\n  external_dirs: []\n  template_vars: true\n";
    let after = "skills:\n  external_dirs:\n    - /s\n  template_vars: true\n";
    assert_eq!(
        hunk_lines(before, after),
        vec![
            "@@ -2,1 +2,2 @@",
            "-  external_dirs: []",
            "+  external_dirs:",
            "+    - /s",
        ]
    );
}

#[test]
fn hunk_of_an_insertion_has_no_removed_lines() {
    let before = "a\nb\n";
    let after = "a\nx\nb\n";
    assert_eq!(hunk_lines(before, after), vec!["@@ -2,0 +2,1 @@", "+x"]);
}

#[test]
fn configure_messages_and_sources() {
    assert_eq!(configure_action(false, true, true), ConfigureAction::Already);
    assert_eq!(configure_action(true, true, true), ConfigureAction::Preview { hunk: true });
    assert_eq!(configure_action(true, true, false), ConfigureAction::Preview { hunk: false });
    assert_eq!(configure_action(true, false, true), ConfigureAction::Write);
    assert_eq!(
        configured_message(ConfigureAction::Already, "/s"),
        "hermes shared skills already configured: /s"
    );
    assert_eq!(
        configured_message(ConfigureAction::Preview { hunk: false }, "/s"),
        "would configure hermes shared skills: /s"
    );
    assert_eq!(
        configured_message(ConfigureAction::Write, "/s"),
        "configured hermes shared skills: /s"
    );
    assert!(matches!(configure_source(None, true), Err(CommandError::NoSharedSkills)));
    match configure_source(Some("/s"), false) {
        Err(e) => assert_eq!(e.message(), "shared skills directory missing: /s"),
        Ok(_) => panic!("a missing directory was accepted"),
    }
    assert!(matches!(configure_source(Some("/s"), true), Ok(s) if s == "/s"));
}

#[test]
fn configure_edit_prefixes_a_refusal_with_the_file() {
    match configure_edit("/h/.hermes/config.yaml", "skills:\n\tx: 1\n", "/s") {
        Err(e) => assert_eq!(
            e.message(),
            "/h/.hermes/config.yaml: the file contains a tab character; edit the file by hand"
        ),
        Ok(_) => panic!("a tab was accepted"),
    }
    match configure_edit("/c", "skills:\n  external_dirs: []\n", "/s") {
        Ok(Some(t)) => assert_eq!(t, "skills:\n  external_dirs:\n    - /s\n"),
        _ => panic!("edit expected"),
    }
    match configure_edit("/c", "skills:\n  external_dirs:\n    - /s\n", "/s") {
        Ok(None) => {}
        _ => panic!("no-op expected"),
    }
}

#[test]
fn home_must_be_set_and_not_blank() {
    assert!(matches!(home_dir_from(Some("/home/dev")), Ok(h) if h == "/home/dev"));
    assert!(matches!(home_dir_from(Some("  ")), Err(CommandError::HomeNotSet)));
    assert!(matches!(home_dir_from(None), Err(CommandError::HomeNotSet)));
    assert_eq!(
        CommandError::HomeNotSet.message(),
        "cannot locate the hermes configuration: $HOME is not set"
    );
    assert_eq!(
        CommandError::ConfigNotFound("/c".to_string()).message(),
        "hermes configuration not found: /c (run hermes once to create it)"
    );
    assert_eq!(
        CommandError::ConfigUnreadable("/c".to_string(), "denied".to_string()).message(),
        "cannot read /c: denied"
    );
    assert_eq!(
        CommandError::NoSharedSkills.message(),
        "manifest declares no agent.hermes.shared_skills; nothing to configure"
    );
}

// ---- setup, update, sync ---------------------------------------------------------

fn names(targets: &[zpr_dev::workspace::Target]) -> Vec<(String, Option<usize>)> {
    targets
        .iter()
        .map(|t| (t.name.clone(), t.repository))
        .collect()
}

#[test]
fn update_targets_the_context_alone_by_default() {
    let repos = vec!["a".to_string(), "b".to_string()];
    match update_targets("ctx", &repos, false, None) {
        Ok(t) => assert_eq!(names(&t), vec![("ctx".to_string(), None)]),
        Err(_) => panic!("default targets"),
    }
    match update_targets("ctx", &repos, true, None) {
        Ok(t) => assert_eq!(
            names(&t),
            vec![
                ("ctx".to_string(), None),
                ("a".to_string(), Some(0)),
                ("b".to_string(), Some(1)),
            ]
        ),
        Err(_) => panic!("all targets"),
    }
    match update_targets("ctx", &repos, false, Some("b")) {
        Ok(t) => assert_eq!(names(&t), vec![("b".to_string(), Some(1))]),
        Err(_) => panic!("named target"),
    }
    match update_targets("ctx", &repos, false, Some("ctx")) {
        Ok(t) => assert_eq!(names(&t), vec![("ctx".to_string(), None)]),
        Err(_) => panic!("the context checkout is a target"),
    }
    match update_targets("ctx", &repos, true, Some("zzz")) {
        Err(e) => assert_eq!(e.message(), "unknown repository: zzz"),
        Ok(_) => panic!("unknown name accepted"),
    }
}

/// Runs the update decisions against fixed answers.
fn run(repo: bool, dirty: bool, branch: bool, upstream: bool, dry_run: bool) -> UpdateStep {
    let mut step = update_start();
    loop {
        match step {
            UpdateStep::Ask(check) => {
                let answer = match check {
                    UpdateCheck::IsRepo => repo,
                    UpdateCheck::IsDirty => dirty,
                    UpdateCheck::OnBranch => branch,
                    UpdateCheck::HasUpstream => upstream,
                };
                step = update_next(check, answer, dry_run);
            }
            done => return done,
        }
    }
}

#[test]
fn update_skips_with_a_reason_before_touching_anything() {
    assert!(matches!(run(false, false, true, true, false), UpdateStep::Report("skipped, not a git repository")));
    assert!(matches!(run(true, true, true, true, false), UpdateStep::Report("skipped, local modifications")));
    assert!(matches!(run(true, false, false, false, false), UpdateStep::Report("skipped, detached HEAD")));
    assert!(matches!(run(true, false, true, false, false), UpdateStep::Report("skipped, no upstream")));
    assert!(matches!(run(true, false, true, true, true), UpdateStep::Report("would fetch and fast-forward")));
    assert!(matches!(run(true, false, true, true, false), UpdateStep::FetchAndMerge));
}

#[test]
fn update_result_lines() {
    assert_eq!(update_result(false, "abc", "abc"), "skipped, cannot fast-forward");
    assert_eq!(update_result(true, "abc", "abc"), "current");
    assert_eq!(update_result(true, "abc", "def"), "abc -> def");
}

#[test]
fn clone_steps_and_messages() {
    assert_eq!(clone_step(true, false), CloneStep::LeaveAlone);
    assert_eq!(clone_step(false, true), CloneStep::Pretend);
    assert_eq!(clone_step(false, false), CloneStep::Clone);
    assert_eq!(
        clone_message(CloneStep::LeaveAlone, "u", "/d"),
        "/d already present, left untouched"
    );
    assert_eq!(clone_message(CloneStep::Pretend, "u", "/d"), "would clone u into /d");
    assert_eq!(clone_message(CloneStep::Clone, "u", "/d"), "cloning u into /d");
}

#[test]
fn setup_and_generation_summaries() {
    assert_eq!(
        setup_summary(false, 5, 2, 1),
        "cloned 2 repositories, 2 already present, 1 skipped"
    );
    assert_eq!(
        setup_summary(true, 3, 3, 0),
        "would clone 3 repositories, 0 already present, 0 skipped"
    );
    let plans = vec![
        plan("a", Action::RepoMissing, vec![]),
        plan("b", Action::Unchanged, vec![]),
    ];
    assert_eq!(missing_count(&plans), 1);
    let summary = ApplySummary {
        created: 1,
        updated: 2,
        unchanged: 3,
        skipped_foreign: 1,
    };
    assert_eq!(
        generation_lines(false, &summary, 1),
        vec![
            "wrote generated context: 1 created, 2 updated, 3 unchanged",
            "skipped 1 repository not checked out",
            "left 1 file alone: not generated by zpr-dev (run: zpr-dev validate)",
        ]
    );
    let quiet = ApplySummary {
        created: 0,
        updated: 0,
        unchanged: 4,
        skipped_foreign: 0,
    };
    assert_eq!(
        generation_lines(true, &quiet, 0),
        vec!["would write generated context: 0 created, 0 updated, 4 unchanged"]
    );
}

/// The steps a validation run takes, given whether the context checkout exists
/// and the manifest loads.
fn validation_steps(present: bool, manifest: bool) -> Vec<ValidateStep> {
    let mut step = ValidateStep::ContextPresent;
    let mut steps = vec![step];
    while step != ValidateStep::Finish {
        let passed = match step {
            ValidateStep::ContextPresent => present,
            ValidateStep::Manifest => manifest,
            _ => true,
        };
        step = validate_next(step, passed);
        steps.push(step);
    }
    steps
}

#[test]
fn validation_runs_every_check_unless_context_or_manifest_is_missing() {
    assert_eq!(
        validation_steps(true, true),
        vec![
            ValidateStep::ContextPresent,
            ValidateStep::ContextRepository,
            ValidateStep::Manifest,
            ValidateStep::Repositories,
            ValidateStep::SharedContext,
            ValidateStep::SharedSkills,
            ValidateStep::Finish,
        ]
    );
    assert_eq!(
        validation_steps(true, false),
        vec![
            ValidateStep::ContextPresent,
            ValidateStep::ContextRepository,
            ValidateStep::Manifest,
            ValidateStep::Finish,
        ]
    );
    assert_eq!(
        validation_steps(false, true),
        vec![ValidateStep::ContextPresent, ValidateStep::Finish]
    );
    // A failed repository check does not stop the run.
    assert_eq!(validate_next(ValidateStep::Repositories, false), ValidateStep::SharedContext);
    assert_eq!(validate_next(ValidateStep::ContextRepository, false), ValidateStep::Manifest);
}

#[test]
fn validation_step_findings() {
    let mut report = Report::new();
    assert_eq!(step_finding(&mut report, ValidateStep::ContextPresent, true, "/ctx"), None);
    assert_eq!(
        step_finding(&mut report, ValidateStep::ContextPresent, false, "/ctx"),
        Some("[ERROR] context repository missing: /ctx".to_string())
    );
    assert_eq!(
        step_finding(&mut report, ValidateStep::ContextRepository, true, "/ctx"),
        Some("[OK]   context repository".to_string())
    );
    assert_eq!(
        step_finding(&mut report, ValidateStep::ContextRepository, false, "/ctx"),
        Some("[ERROR] context repository is not a git repository: /ctx".to_string())
    );
    assert_eq!(
        step_finding(&mut report, ValidateStep::Manifest, false, "version must be 1"),
        Some("[ERROR] workspace manifest: version must be 1".to_string())
    );
    assert_eq!(
        step_finding(&mut report, ValidateStep::Manifest, true, ""),
        Some("[OK]   workspace manifest".to_string())
    );
    assert_eq!(step_finding(&mut report, ValidateStep::SharedSkills, false, "x"), None);
    assert_eq!(report.errors, 3);
}

#[test]
fn setup_tally_counts_clones_and_skips() {
    let mut tally = SetupTally::new();
    assert_eq!(tally.record(false, true, false), Some(CloneStep::LeaveAlone));
    assert_eq!(tally.record(false, false, false), Some(CloneStep::Clone));
    assert_eq!(tally.record(true, false, false), None);
    assert_eq!(tally.record(true, true, false), Some(CloneStep::LeaveAlone));
    assert_eq!(
        tally.summary(false),
        "cloned 1 repositories, 2 already present, 1 skipped"
    );
    let mut dry = SetupTally::new();
    assert_eq!(dry.record(false, false, true), Some(CloneStep::Pretend));
    assert_eq!(
        dry.summary(true),
        "would clone 1 repositories, 0 already present, 0 skipped"
    );
}

#[test]
fn shared_context_findings_in_order() {
    let mut report = Report::new();
    assert_eq!(
        check_shared_context(
            &mut report,
            "/ctx/AGENTS.md",
            &SharedContext::Unreadable("No such file".to_string())
        ),
        vec!["[ERROR] shared context /ctx/AGENTS.md: No such file"]
    );
    let read = SharedContext::Read {
        plans: Err("manifest broken".to_string()),
        broken: vec!["docs/GONE.md".to_string()],
    };
    assert_eq!(
        check_shared_context(&mut report, "/ctx/AGENTS.md", &read),
        vec![
            "[OK]   shared context",
            "[ERROR] generated context: manifest broken",
            "[ERROR] documentation reference does not resolve: docs/GONE.md",
        ]
    );
    let read = SharedContext::Read {
        plans: Ok(vec![plan("a", Action::Unchanged, vec![])]),
        broken: vec![],
    };
    assert_eq!(
        check_shared_context(&mut report, "/ctx/AGENTS.md", &read),
        vec![
            "[OK]   shared context",
            "[OK]   generated context",
            "[OK]   documentation references",
        ]
    );
    assert_eq!((report.errors, report.warnings), (3, 0));
}

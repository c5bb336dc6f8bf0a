use zpr_dev::text::{chars_of, join, lines_of};
use zpr_dev::hermes::{add_external_dir, external_dirs, verify};

const PATH: &str = "/home/dev/src/zpr/zpr-dev-context/skills";

/// One document for each way an edit is made.
const SHAPES: [&str; 7] = [
    "model:\n  default: a\n",
    "model:\n  default: a",
    "",
    "skills:\n  template_vars: true\n",
    "skills:\n  external_dirs: []  # by hand\n",
    "skills:\n  external_dirs:\n    - /opt/skills\n\n  # trailing comment\n  template_vars: true\n",
    "skills:\n  external_dirs:\n  template_vars: true",
];

fn edit(text: &str) -> String {
    match add_external_dir(text, PATH) {
        Ok(Some(out)) => out,
        Ok(None) => panic!("no edit for {text:?}"),
        Err(err) => panic!("refused {text:?}: {}", err.message()),
    }
}

#[test]
fn a_second_run_is_a_no_op_for_every_shape() {
    for text in SHAPES {
        let once = edit(text);
        assert!(
            matches!(add_external_dir(&once, PATH), Ok(None)),
            "second run edited {once:?}"
        );
    }
}

#[test]
fn every_edit_passes_verification_and_lists_the_path() {
    for text in SHAPES {
        let once = edit(text);
        assert!(verify(text, &once, PATH).is_ok(), "{once:?}");
        match external_dirs(&once) {
            Ok(dirs) => assert!(dirs.iter().any(|d| d == PATH), "{once:?}"),
            Err(err) => panic!("{}", err.message()),
        }
    }
}

#[test]
fn an_edit_keeps_every_other_line_in_order() {
    for text in SHAPES {
        let once = edit(text);
        if once.starts_with(text) {
            continue;
        }
        // Every original line but the `external_dirs` key line survives, in order.
        let mut rest = once.lines();
        for line in text.lines() {
            if line.trim_start().starts_with("external_dirs:") {
                continue;
            }
            assert!(rest.any(|l| l == line), "lost {line:?} from {once:?}");
        }
        assert_eq!(once.ends_with('\n'), text.ends_with('\n'), "{once:?}");
    }
}

#[test]
fn refusals_agree_with_external_dirs() {
    for text in [
        "- one\n",
        "skills: [\n",
        "skills:\n  external_dirs: nope\n",
        "skills:\n  external_dirs:\n    - 7\n",
        "skills:\n  - one\n",
    ] {
        let read = match external_dirs(text) {
            Err(err) => err.message(),
            Ok(_) => panic!("readable {text:?}"),
        };
        let refused = match add_external_dir(text, PATH) {
            Err(err) => err.message(),
            Ok(_) => panic!("edited {text:?}"),
        };
        assert_eq!(read, refused);
    }
}

#[test]
fn a_path_with_a_tab_is_not_idempotent() {
    let path = "/opt/a\tb";
    let once = match add_external_dir("model: 1\n", path) {
        Ok(Some(out)) => out,
        _ => panic!("edit expected"),
    };
    match add_external_dir(&once, path) {
        Err(err) => assert!(err.message().contains("tab character")),
        Ok(_) => panic!("a tab in the edited document was accepted"),
    }
}

#[test]
fn joining_the_lines_of_a_text_without_cr_gives_it_back() {

    for text in ["", "\n", "a", "a\n", "a\n\nb", "a\n\nb\n\n"] {
        let chars = chars_of(text);
        let joined = join(&lines_of(&chars), text.ends_with('\n'));
        assert_eq!(joined.iter().collect::<String>(), text);
    }
}

#[test]
fn a_key_put_in_anywhere_is_undone_by_reverting() {
    // A `skills` block put in first, before the document's own keys.
    assert!(verify("model: 1\nother: 2\n", "skills:\n  external_dirs:\n    - /p\nmodel: 1\nother: 2\n", "/p").is_ok());
    // `external_dirs` put in before a sibling key of an existing `skills`.
    assert!(verify(
        "skills:\n  template_vars: true\n  other: 1\n",
        "skills:\n  external_dirs:\n    - /p\n  template_vars: true\n  other: 1\n",
        "/p"
    )
    .is_ok());
    // Changing a sibling as well is caught.
    assert!(verify(
        "skills:\n  template_vars: true\n",
        "skills:\n  external_dirs:\n    - /p\n  template_vars: false\n",
        "/p"
    )
    .is_err());
}

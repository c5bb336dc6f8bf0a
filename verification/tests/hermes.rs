use zpr_dev::hermes::{add_external_dir, config_path, external_dirs, verify};

/// A small stand-in for a real Hermes configuration: machine-serialized keys,
/// the `_config_version` Hermes maintains, an inline comment, and a trailing
/// commented-out block.
const CONFIG: &str = "\
# Hermes configuration.
model:
  default: fable-5
agent:
  max_turns: 150
skills:
  external_dirs: []
  template_vars: true    # comment inside the block
_config_version: 38

# \u{2500}\u{2500} Fallback Model \u{2500}\u{2500}
# Uncomment to enable.
# fallback_model:
#   provider: openrouter
";

const PATH: &str = "/home/dev/src/zpr/zpr-dev-context/skills";

/// The edited document, asserting that an edit happened.
fn edited(text: &str) -> String {
    match add_external_dir(text, PATH) {
        Ok(Some(out)) => out,
        Ok(None) => panic!("no edit produced"),
        Err(err) => panic!("edit refused: {}", err.message()),
    }
}

fn dirs(text: &str) -> Vec<String> {
    match external_dirs(text) {
        Ok(dirs) => dirs,
        Err(err) => panic!("unreadable: {}", err.message()),
    }
}

#[test]
fn empty_flow_sequence_becomes_a_block_sequence() {
    let out = edited(CONFIG);
    assert!(
        out.contains(&format!("  external_dirs:\n    - {PATH}\n")),
        "{out}"
    );
    assert!(!out.contains("external_dirs: []"), "{out}");
    assert_eq!(dirs(&out), vec![PATH.to_string()]);
}

#[test]
fn missing_external_dirs_key_becomes_the_blocks_first_entry() {
    let text = CONFIG.replace("  external_dirs: []\n", "");
    let out = edited(&text);
    assert!(
        out.contains(&format!("skills:\n  external_dirs:\n    - {PATH}\n")),
        "{out}"
    );
    assert!(out.contains("  template_vars: true"), "{out}");
}

#[test]
fn missing_skills_block_is_appended() {
    let text = CONFIG
        .replace("skills:\n", "")
        .replace("  external_dirs: []\n", "")
        .replace("  template_vars: true    # comment inside the block\n", "");
    let out = edited(&text);
    assert!(
        out.ends_with(&format!("skills:\n  external_dirs:\n    - {PATH}\n")),
        "{out}"
    );
    assert!(out.contains("# Uncomment to enable."), "{out}");
    assert_eq!(dirs(&out), vec![PATH.to_string()]);
}

#[test]
fn existing_item_gains_a_sibling_and_keeps_the_first() {
    let text = CONFIG.replace("  external_dirs: []", "  external_dirs:\n    - /opt/skills");
    let out = edited(&text);
    assert_eq!(
        dirs(&out),
        vec!["/opt/skills".to_string(), PATH.to_string()]
    );
    assert!(
        out.contains(&format!("    - /opt/skills\n    - {PATH}\n  template_vars")),
        "{out}"
    );
}

#[test]
fn a_path_already_present_is_a_no_op() {
    let out = edited(CONFIG);
    assert!(matches!(add_external_dir(&out, PATH), Ok(None)));
}

#[test]
fn indentation_is_taken_from_the_block_not_assumed() {
    let text = "skills:\n    template_vars: true\n";
    let out = edited(text);
    assert_eq!(
        out,
        format!("skills:\n    external_dirs:\n      - {PATH}\n    template_vars: true\n")
    );
}

#[test]
fn a_comment_on_the_external_dirs_line_survives() {
    let text = "skills:\n  external_dirs: []  # set by hand once\n";
    let out = edited(text);
    assert_eq!(
        out,
        format!("skills:\n  external_dirs:  # set by hand once\n    - {PATH}\n")
    );
}

#[test]
fn an_empty_external_dirs_value_gains_an_item() {
    let text = "skills:\n  external_dirs:\n  template_vars: true\n";
    let out = edited(text);
    assert_eq!(
        out,
        format!("skills:\n  external_dirs:\n    - {PATH}\n  template_vars: true\n")
    );
}

#[test]
fn every_comment_in_the_document_is_preserved_byte_for_byte() {
    let out = edited(CONFIG);
    for line in CONFIG.lines().filter(|l| l.trim_start().starts_with('#')) {
        assert!(out.contains(line), "lost comment {line:?} from\n{out}");
    }
    assert!(out.contains("    # comment inside the block"), "{out}");
    assert!(out.contains("_config_version: 38"), "{out}");
}

#[test]
fn a_document_without_a_trailing_newline_does_not_gain_one() {
    let text = "skills:\n  external_dirs: []";
    let out = edited(text);
    assert_eq!(out, format!("skills:\n  external_dirs:\n    - {PATH}"));
}

/// Every guard refuses, and every refusal names the remedy.
fn refuses(text: &str, expected: &str) {
    let message = match add_external_dir(text, PATH) {
        Err(err) => err.message(),
        Ok(_) => panic!("expected a refusal"),
    };
    assert!(
        message.contains(expected),
        "message {message:?} does not mention {expected:?}"
    );
    assert!(
        message.contains("edit the file by hand"),
        "refusal without a remedy: {message}"
    );
}

#[test]
fn a_tab_character_is_refused() {
    refuses("skills:\n\texternal_dirs: []\n", "tab character");
}

#[test]
fn a_second_document_is_refused() {
    refuses(
        "skills:\n  external_dirs: []\n---\nother: 1\n",
        "more than one YAML document",
    );
}

#[test]
fn a_populated_flow_sequence_is_refused() {
    refuses(
        "skills:\n  external_dirs: [/opt/skills]\n",
        "written as `[/opt/skills]`",
    );
}

#[test]
fn a_flow_mapping_for_skills_is_refused() {
    refuses(
        "skills: {external_dirs: []}\n",
        "not written as a plain top-level block",
    );
}

#[test]
fn a_non_mapping_root_is_refused() {
    assert!(add_external_dir("- one\n- two\n", PATH).is_err());
}

#[test]
fn invalid_yaml_is_refused() {
    assert!(add_external_dir("skills: [\n", PATH).is_err());
}

#[test]
fn a_non_sequence_external_dirs_is_refused() {
    assert!(add_external_dir("skills:\n  external_dirs: nope\n", PATH).is_err());
}

#[test]
fn a_non_string_entry_is_refused() {
    assert!(add_external_dir("skills:\n  external_dirs:\n    - 7\n", PATH).is_err());
}

#[test]
fn a_non_mapping_skills_is_refused() {
    assert!(add_external_dir("skills:\n  - one\n", PATH).is_err());
}

#[test]
fn verification_rejects_an_edit_that_changes_anything_else() {
    let original = "model:\n  default: a\nskills:\n  external_dirs: []\n";
    let good = format!("model:\n  default: a\nskills:\n  external_dirs:\n    - {PATH}\n");
    assert!(verify(original, &good, PATH).is_ok());

    // A neighboring value changed as well.
    let bad = good.replace("default: a", "default: b");
    assert!(verify(original, &bad, PATH).is_err());

    // A key removed as well.
    let bad = good.replace("model:\n  default: a\n", "");
    assert!(verify(original, &bad, PATH).is_err());

    // A key's type changed as well.
    let bad = good.replace("  default: a", "  default: 7");
    assert!(verify(original, &bad, PATH).is_err());

    // A nesting level changed as well.
    let bad = good.replace("model:\n  default: a", "model:\n  inner:\n    default: a");
    assert!(verify(original, &bad, PATH).is_err());

    // The path not added at all.
    assert!(verify(original, original, PATH).is_err());
}

#[test]
fn verification_accepts_an_appended_block() {
    let original = "model:\n  default: a\n";
    let good = format!("model:\n  default: a\n\nskills:\n  external_dirs:\n    - {PATH}\n");
    assert!(verify(original, &good, PATH).is_ok());
}

#[test]
fn external_dirs_reports_every_empty_shape_as_empty() {
    for text in [
        "model:\n  default: a\n",
        "skills:\n  template_vars: true\n",
        "skills:\n  external_dirs: []\n",
        "skills:\n  external_dirs:\n",
        "",
    ] {
        assert_eq!(dirs(text), Vec::<String>::new(), "{text:?}");
    }
}

#[test]
fn external_dirs_reports_block_items_in_order() {
    let text = "skills:\n  external_dirs:\n    - /a\n    - /b\n";
    assert_eq!(dirs(text), vec!["/a".to_string(), "/b".to_string()]);
}

#[test]
fn config_path_is_under_the_given_home() {
    assert_eq!(config_path("/home/dev"), "/home/dev/.hermes/config.yaml");
}

#[test]
fn crlf_line_endings_are_kept_on_every_untouched_line() {
    let text = "model: 1\r\n# note\r\nskills:\r\n  external_dirs: []\r\n  template_vars: true\r\n";
    let out = edited(text);
    assert_eq!(
        out,
        format!("model: 1\r\n# note\r\nskills:\r\n  external_dirs:\n    - {PATH}\r\n  template_vars: true\r\n")
    );
    assert_eq!(dirs(&out), vec![PATH.to_string()]);
}

#[test]
fn crlf_items_gain_a_sibling_without_losing_their_endings() {
    let text = "skills:\r\n  external_dirs:\r\n    - /a\r\n";
    let out = edited(text);
    assert_eq!(out, format!("skills:\r\n  external_dirs:\r\n    - /a\r\n    - {PATH}\n"));
    assert_eq!(dirs(&out), vec!["/a".to_string(), PATH.to_string()]);
}

#[test]
fn an_appended_block_carries_the_missing_final_newline() {
    let out = edited("model: 1");
    assert_eq!(out, format!("model: 1\n\nskills:\n  external_dirs:\n    - {PATH}"));
    let out = edited("model: 1\n");
    assert_eq!(out, format!("model: 1\n\nskills:\n  external_dirs:\n    - {PATH}\n"));
}

#[test]
fn an_item_after_an_unterminated_last_line_ends_the_text() {
    let text = "skills:\n  external_dirs:\n    - /a";
    let out = edited(text);
    assert_eq!(out, format!("skills:\n  external_dirs:\n    - /a\n    - {PATH}"));
}

#[test]
fn every_refusal_about_the_document_names_the_remedy() {
    for text in [
        "- one\n",
        "skills: [\n",
        "skills:\n  external_dirs: nope\n",
        "skills:\n  external_dirs:\n    - 7\n",
        "skills:\n  - one\n",
    ] {
        match add_external_dir(text, PATH) {
            Err(err) => assert!(
                err.message().ends_with("; edit the file by hand"),
                "{}",
                err.message()
            ),
            Ok(_) => panic!("accepted {text:?}"),
        }
    }
}

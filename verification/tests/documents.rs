use zpr_dev::hermes::{check_edit, dirs_of_root, revert_external_dirs, root_mapping};
use zpr_dev::yaml::Yaml;

const PATH: &str = "/home/dev/src/zpr/zpr-dev-context/skills";

fn s(text: &str) -> Yaml {
    Yaml::Str(text.to_string())
}

fn map(entries: Vec<(&str, Yaml)>) -> Yaml {
    Yaml::Mapping(entries.into_iter().map(|(k, v)| (s(k), v)).collect())
}

fn root(entries: Vec<(&str, Yaml)>) -> Vec<(Yaml, Yaml)> {
    match map(entries) {
        Yaml::Mapping(m) => m,
        _ => unreachable!(),
    }
}

fn dirs(r: &Vec<(Yaml, Yaml)>) -> Vec<String> {
    match dirs_of_root(r) {
        Ok(d) => d,
        Err(e) => panic!("{}", e.message()),
    }
}

fn refusal(r: Result<(), zpr_dev::hermes::HermesError>) -> String {
    match r {
        Err(e) => e.message(),
        Ok(()) => panic!("accepted"),
    }
}

#[test]
fn a_null_root_reads_as_an_empty_mapping_and_a_sequence_is_refused() {
    assert!(matches!(root_mapping(Yaml::Null), Ok(m) if m.is_empty()));
    match root_mapping(Yaml::Sequence(vec![s("a")])) {
        Err(e) => assert_eq!(e.message(), "the document root is not a mapping; edit the file by hand"),
        Ok(_) => panic!("a sequence root was accepted"),
    }
}

#[test]
fn tags_are_looked_through_when_reading_the_directories() {
    let r = root(vec![(
        "skills",
        Yaml::Tagged(
            "!t".to_string(),
            Box::new(map(vec![(
                "external_dirs",
                Yaml::Sequence(vec![Yaml::Tagged("!x".to_string(), Box::new(s("/a"))), s("/b")]),
            )])),
        ),
    )]);
    assert_eq!(dirs(&r), vec!["/a".to_string(), "/b".to_string()]);
}

#[test]
fn an_explicit_null_lists_nothing_and_other_shapes_are_refused() {
    let r = root(vec![("skills", map(vec![("external_dirs", Yaml::Null)]))]);
    assert!(dirs(&r).is_empty());

    let r = root(vec![(
        "skills",
        map(vec![("external_dirs", Yaml::Sequence(vec![Yaml::Number("7".to_string())]))]),
    )]);
    match dirs_of_root(&r) {
        Err(e) => assert_eq!(e.message(), "`skills.external_dirs` contains a non-string entry; edit the file by hand"),
        Ok(_) => panic!("a number entry was accepted"),
    }

    let r = root(vec![("skills", map(vec![("external_dirs", Yaml::Bool(true))]))]);
    match dirs_of_root(&r) {
        Err(e) => assert_eq!(e.message(), "`skills.external_dirs` is not a sequence; edit the file by hand"),
        Ok(_) => panic!("a boolean was accepted"),
    }
}

fn model(default: Yaml) -> (&'static str, Yaml) {
    ("model", map(vec![("default", default)]))
}

fn skills_with(path: &str) -> (&'static str, Yaml) {
    ("skills", map(vec![("external_dirs", Yaml::Sequence(vec![s(path)]))]))
}

#[test]
fn check_edit_accepts_the_one_key_added() {
    let old = root(vec![model(s("a"))]);
    assert!(check_edit(&old, root(vec![model(s("a")), skills_with(PATH)]), PATH).is_ok());
    // Entries compare without regard to their order.
    assert!(check_edit(&old, root(vec![skills_with(PATH), model(s("a"))]), PATH).is_ok());
}

#[test]
fn check_edit_treats_the_two_zeros_as_equal() {
    let old = root(vec![model(Yaml::Number("0.0".to_string()))]);
    let new = root(vec![model(Yaml::Number("-0.0".to_string())), skills_with(PATH)]);
    assert!(check_edit(&old, new, PATH).is_ok());
}

#[test]
fn check_edit_refuses_any_other_change() {
    let old = root(vec![model(s("a"))]);
    assert_eq!(
        refusal(check_edit(&old, root(vec![model(s("b")), skills_with(PATH)]), PATH)),
        "refusing to write: the edit changed more than skills.external_dirs (this is a bug; please report it)"
    );
    assert_eq!(
        refusal(check_edit(&old, root(vec![model(Yaml::Number("7".to_string())), skills_with(PATH)]), PATH)),
        "refusing to write: the edit changed more than skills.external_dirs (this is a bug; please report it)"
    );
    assert_eq!(
        refusal(check_edit(&old, root(vec![model(s("a")), skills_with("/elsewhere")]), PATH)),
        format!("refusing to write: the edit did not add {PATH} (this is a bug; please report it)")
    );
}

#[test]
fn reverting_removes_the_key_and_an_emptied_skills_block() {
    let old = root(vec![model(s("a"))]);
    let mut new = root(vec![model(s("a")), skills_with(PATH)]);
    revert_external_dirs(&mut new, &old);
    assert_eq!(new.len(), 1);
    assert!(matches!(&new[0].0, Yaml::Str(k) if k == "model"));

    let old = root(vec![("skills", map(vec![("template_vars", Yaml::Bool(true))]))]);
    let mut new = root(vec![(
        "skills",
        map(vec![
            ("external_dirs", Yaml::Sequence(vec![s(PATH)])),
            ("template_vars", Yaml::Bool(true)),
        ]),
    )]);
    revert_external_dirs(&mut new, &old);
    match &new[0].1 {
        Yaml::Mapping(m) => {
            assert_eq!(m.len(), 1);
            assert!(matches!(&m[0].0, Yaml::Str(k) if k == "template_vars"));
        }
        _ => panic!("skills is no longer a mapping"),
    }
}

#[test]
fn reverting_puts_the_old_value_back() {
    let old = root(vec![("skills", map(vec![("external_dirs", Yaml::Sequence(vec![]))]))]);
    let mut new = root(vec![skills_with(PATH)]);
    revert_external_dirs(&mut new, &old);
    match &new[0].1 {
        Yaml::Mapping(m) => assert!(matches!(&m[0].1, Yaml::Sequence(v) if v.is_empty())),
        _ => panic!("skills is no longer a mapping"),
    }
}

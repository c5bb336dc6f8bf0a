//! Hermes agent configuration: locating `config.yaml`, reading the directories
//! listed in its `skills.external_dirs` key, and adding one to that key.
//!
//! The edit is made on the text, never by re-emitting a parse tree, so every
//! comment survives; only the lines that must change are rewritten. Before an
//! edit is handed back it is checked against the parsed documents: the edited
//! document must list the path, and reverting that one key must give back a
//! document equal to the original.
use vstd::prelude::*;
use crate::text::{
    chars_of, contains_char, ends_with_newline, join, join_lines, lemma_find_from, lemma_line_start,
    lemma_lines_from_bytes, line_start, find_from,
    lines, lines_of, push_all, push_spaces, push_str, slice,
    spaces, string_from_chars, trail_of, trim, trim_end, trimmed, views, chars_eq, utf8_len,
};
use crate::scan::{
    child_indent, find_child_key, find_top_level_block, fits, item, last_item, spec_child_indent,
    spec_find_block, spec_find_child_key, spec_item, spec_last_item, spec_split_comment,
    spec_value_after_key, split_comment, value_after_key, Block,
};
use crate::yaml::{
    clone_yaml, entries_eq, entries_equal, entries_view, find_key, lemma_mapping_view,
    lemma_sequence_view, lemma_view_kind, map_delete, map_find, map_insert, map_remove, map_set,
    parse_yaml, seq_view, strings_view, untag, untag_ref, yaml_parse, Yaml,
    YamlV,
};

verus! {

broadcast use vstd::string::group_string_axioms;

/// The top-level key that holds skills settings.
pub open spec fn skills_name() -> Seq<char> {
    seq!['s', 'k', 'i', 'l', 'l', 's']
}

/// The key, inside `skills`, that lists the directories Hermes loads skills
/// from. It is the only key this module ever writes.
pub open spec fn dirs_name() -> Seq<char> {
    seq!['e', 'x', 't', 'e', 'r', 'n', 'a', 'l', '_', 'd', 'i', 'r', 's']
}

/// A YAML document separator.
pub open spec fn separator() -> Seq<char> {
    seq!['-', '-', '-']
}

/// An empty flow sequence.
pub open spec fn empty_flow() -> Seq<char> {
    seq!['[', ']']
}

fn skills_key() -> (r: Vec<char>)
    ensures
        r@ == skills_name(),
{
    let r = vec!['s', 'k', 'i', 'l', 'l', 's'];
    assert(r@ =~= skills_name());
    r
}

fn dirs_key() -> (r: Vec<char>)
    ensures
        r@ == dirs_name(),
{
    let r = vec!['e', 'x', 't', 'e', 'r', 'n', 'a', 'l', '_', 'd', 'i', 'r', 's'];
    assert(r@ =~= dirs_name());
    r
}

/// Why an edit was refused, or a document could not be read.
pub enum HermesError {
    /// The text is not YAML; the parser's own message.
    InvalidYaml(String),
    RootNotMapping,
    SkillsNotMapping,
    DirsNotSequence,
    NonStringEntry,
    TabCharacter,
    SecondDocument,
    SkillsNotPlainBlock,
    /// `external_dirs` holds a value this module will not rewrite, as written.
    UnsupportedDirsValue(String),
    /// The edited document does not list the path.
    PathNotAdded(String),
    ChangedMoreThanKey,
}

/// The kind of a refusal, with what it names.
pub enum Refusal {
    InvalidYaml(Seq<char>),
    RootNotMapping,
    SkillsNotMapping,
    DirsNotSequence,
    NonStringEntry,
    TabCharacter,
    SecondDocument,
    SkillsNotPlainBlock,
    UnsupportedDirsValue(Seq<char>),
    PathNotAdded(Seq<char>),
    ChangedMoreThanKey,
}

impl View for HermesError {
    type V = Refusal;

    open spec fn view(&self) -> Refusal {
        match self {
            HermesError::InvalidYaml(m) => Refusal::InvalidYaml(m@),
            HermesError::RootNotMapping => Refusal::RootNotMapping,
            HermesError::SkillsNotMapping => Refusal::SkillsNotMapping,
            HermesError::DirsNotSequence => Refusal::DirsNotSequence,
            HermesError::NonStringEntry => Refusal::NonStringEntry,
            HermesError::TabCharacter => Refusal::TabCharacter,
            HermesError::SecondDocument => Refusal::SecondDocument,
            HermesError::SkillsNotPlainBlock => Refusal::SkillsNotPlainBlock,
            HermesError::UnsupportedDirsValue(v) => Refusal::UnsupportedDirsValue(v@),
            HermesError::PathNotAdded(p) => Refusal::PathNotAdded(p@),
            HermesError::ChangedMoreThanKey => Refusal::ChangedMoreThanKey,
        }
    }
}

/// The message a refusal is reported with.
pub open spec fn message_of(e: HermesError) -> Seq<char> {
    match e {
        HermesError::InvalidYaml(m) => "not valid YAML: "@ + m@ + "; edit the file by hand"@,
        HermesError::RootNotMapping => "the document root is not a mapping; edit the file by hand"@,
        HermesError::SkillsNotMapping => "`skills` is not a mapping; edit the file by hand"@,
        HermesError::DirsNotSequence => "`skills.external_dirs` is not a sequence; edit the file by hand"@,
        HermesError::NonStringEntry => "`skills.external_dirs` contains a non-string entry; edit the file by hand"@,
        HermesError::TabCharacter => "the file contains a tab character; edit the file by hand"@,
        HermesError::SecondDocument => "the file holds more than one YAML document; edit the file by hand"@,
        HermesError::SkillsNotPlainBlock => "`skills` is not written as a plain top-level block; edit the file by hand"@,
        HermesError::UnsupportedDirsValue(v) => "`skills.external_dirs` is written as `"@ + v@
            + "`, which this tool will not rewrite; edit the file by hand"@,
        HermesError::PathNotAdded(p) => "refusing to write: the edit did not add "@ + p@
            + " (this is a bug; please report it)"@,
        HermesError::ChangedMoreThanKey => "refusing to write: the edit changed more than skills.external_dirs (this is a bug; please report it)"@,
    }
}

impl HermesError {
    /// The message this refusal is reported with. Every refusal about the
    /// shape of the text names the remedy: editing the file by hand.
    pub fn message(&self) -> (r: String)
        ensures
            r@ == message_of(*self),
    {
        let mut r = String::new();
        match self {
            HermesError::InvalidYaml(m) => {
                r.append("not valid YAML: ");
                r.append(m.as_str());
                r.append("; edit the file by hand");
            },
            HermesError::RootNotMapping => r.append("the document root is not a mapping; edit the file by hand"),
            HermesError::SkillsNotMapping => r.append("`skills` is not a mapping; edit the file by hand"),
            HermesError::DirsNotSequence => r.append("`skills.external_dirs` is not a sequence; edit the file by hand"),
            HermesError::NonStringEntry => r.append("`skills.external_dirs` contains a non-string entry; edit the file by hand"),
            HermesError::TabCharacter => r.append(
                "the file contains a tab character; edit the file by hand",
            ),
            HermesError::SecondDocument => r.append(
                "the file holds more than one YAML document; edit the file by hand",
            ),
            HermesError::SkillsNotPlainBlock => r.append(
                "`skills` is not written as a plain top-level block; edit the file by hand",
            ),
            HermesError::UnsupportedDirsValue(v) => {
                r.append("`skills.external_dirs` is written as `");
                r.append(v.as_str());
                r.append("`, which this tool will not rewrite; edit the file by hand");
            },
            HermesError::PathNotAdded(p) => {
                r.append("refusing to write: the edit did not add ");
                r.append(p.as_str());
                r.append(" (this is a bug; please report it)");
            },
            HermesError::ChangedMoreThanKey => r.append(
                "refusing to write: the edit changed more than skills.external_dirs (this is a bug; please report it)",
            ),
        }
        r
    }
}

// ---------------------------------------------------------------------------
// The documents, as the parser reads them
// ---------------------------------------------------------------------------

/// The root mapping of a document. An empty document parses as null and reads
/// as an empty mapping.
pub open spec fn spec_parse_root(text: Seq<char>) -> Result<Seq<(YamlV, YamlV)>, Refusal> {
    match yaml_parse(text) {
        Err(m) => Err(Refusal::InvalidYaml(m)),
        Ok(doc) => spec_root_of(doc),
    }
}

/// The string of a string value.
pub open spec fn str_of(y: YamlV) -> Seq<char> {
    match y {
        YamlV::Str(s) => s,
        _ => Seq::empty(),
    }
}

/// Every item is a string, once its tags are taken off.
pub open spec fn all_strings(items: Seq<YamlV>) -> bool {
    forall|k: int| 0 <= k < items.len() ==> #[trigger] untag(items[k]) is Str
}

/// The directories a root mapping lists in `skills.external_dirs`. An absent
/// `skills` key, an absent `external_dirs` key and an explicit null all mean
/// none; any other shape than a mapping of a sequence of strings is refused.
pub open spec fn spec_dirs_of_root(root: Seq<(YamlV, YamlV)>) -> Result<Seq<Seq<char>>, Refusal> {
    match map_find(root, skills_name()) {
        None => Ok(Seq::empty()),
        Some(i) => match untag(root[i].1) {
            YamlV::Mapping(sk) => match map_find(sk, dirs_name()) {
                None => Ok(Seq::empty()),
                Some(j) => if sk[j].1 is Null {
                    Ok(Seq::empty())
                } else {
                    match untag(sk[j].1) {
                        YamlV::Sequence(items) => if all_strings(items) {
                            Ok(Seq::new(items.len(), |k: int| str_of(untag(items[k]))))
                        } else {
                            Err(Refusal::NonStringEntry)
                        },
                        _ => Err(Refusal::DirsNotSequence),
                    }
                },
            },
            _ => Err(Refusal::SkillsNotMapping),
        },
    }
}

/// The directories the document `text` lists in `skills.external_dirs`.
pub open spec fn spec_external_dirs(text: Seq<char>) -> Result<Seq<Seq<char>>, Refusal> {
    match spec_parse_root(text) {
        Err(e) => Err(e),
        Ok(root) => spec_dirs_of_root(root),
    }
}

// ---------------------------------------------------------------------------
// The edit, on the text
// ---------------------------------------------------------------------------

/// The two guards that are questions about the text: no tab character, and no
/// document separator after the first line.
pub open spec fn spec_guards(text: Seq<char>) -> Result<(), Refusal> {
    if text.contains('\t') {
        Err(Refusal::TabCharacter)
    } else if exists|k: int|
        1 <= k < lines(text).len() && trim_end(#[trigger] lines(text)[k]) == separator() {
        Err(Refusal::SecondDocument)
    } else {
        Ok(())
    }
}

/// `text` with a `skills` block holding `path` appended, after a blank line,
/// and ending in a newline exactly when `text` did.
pub open spec fn spec_append_block(text: Seq<char>, path: Seq<char>) -> Seq<char> {
    let head = if text.len() == 0 {
        text
    } else if ends_with_newline(text) {
        text + seq!['\n']
    } else {
        text + seq!['\n', '\n']
};
    let block = skills_name() + seq![':', '\n'] + spaces(2) + dirs_name() + seq![':', '\n'] + spec_item(
        4,
        path,
    );
    // Whether the text ended in a newline is carried through.
    if ends_with_newline(text) {
        head + block + seq!['\n']
    } else {
        head + block
    }
}

/// The `external_dirs` key line at `indent`, followed by `rest`.
pub open spec fn key_line(indent: nat, rest: Seq<char>) -> Seq<char> {
    spaces(indent) + dirs_name() + seq![':'] + rest
}

/// `text` with the lines `new` put in before its line `a`, each ending in a
/// `\n`. Past its last line, when `text` lacks a final newline, they follow a
/// `\n` of their own and the last of them ends the text, as `text` did. Every
/// byte of `text` is kept.
pub open spec fn insert_lines(text: Seq<char>, a: int, new: Seq<Seq<char>>) -> Seq<char> {
    if a < lines(text).len() {
        let p = line_start(text, a as nat);
        text.take(p) + join_lines(new) + seq!['\n'] + text.skip(p)
    } else if ends_with_newline(text) {
        text + join_lines(new) + seq!['\n']
    } else {
        text + seq!['\n'] + join_lines(new)
    }
}

/// `text` with the content of its line `a` replaced by the lines `new`. The
/// line's own ending, `\n`, `\r\n` or none, ends the last of them; every
/// other byte of `text` is kept.
pub open spec fn replace_line(text: Seq<char>, a: int, new: Seq<Seq<char>>) -> Seq<char> {
    let p = line_start(text, a as nat);
    text.take(p) + join_lines(new) + text.skip(p + lines(text)[a].len())
}

/// The edit inside an existing `skills` block of `text`, whose key is on line
/// `key` and whose lines end before line `end`.
pub open spec fn spec_insert_into_block(
    text: Seq<char>,
    key: int,
    end: int,
    path: Seq<char>,
) -> Result<Seq<char>, Refusal> {
    let ls = lines(text);
    let indent = spec_child_indent(ls, key, end);
    match spec_find_child_key(ls, key, end, indent, dirs_name()) {
        // No `external_dirs:` key: it becomes the block's first entry.
        None => Ok(
            insert_lines(
                text,
                key + 1,
                seq![key_line(indent, Seq::empty()), spec_item(indent + 2, path)],
            ),
        ),
        Some(at) => {
            let (value, comment) = spec_split_comment(spec_value_after_key(ls[at], dirs_name()));
            let comment = if comment.len() == 0 {
                comment
            } else {
                spaces(2) + comment
            };
            let v = trim(value);
            if v == empty_flow() {
                // `external_dirs: []`: the flow sequence becomes a block sequence.
                Ok(
                    replace_line(
                        text,
                        at,
                        seq![key_line(indent, comment), spec_item(indent + 2, path)],
                    ),
                )
            } else if v.len() == 0 {
                match spec_last_item(ls, at, indent) {
                    // After the last item of a block sequence.
                    Some((last, item_indent)) => Ok(
                        insert_lines(text, last + 1, seq![spec_item(item_indent, path)]),
                    ),
                    // Beneath an empty value.
                    None => Ok(insert_lines(text, at + 1, seq![spec_item(indent + 2, path)])),
                }
            } else {
                Err(Refusal::UnsupportedDirsValue(v))
            }
        },
    }
}

/// The edited document. The parsed document decides whether `skills` exists;
/// the line scanner must then agree that it is a plain top-level block.
pub open spec fn spec_insert(text: Seq<char>, path: Seq<char>) -> Result<Seq<char>, Refusal> {
    match spec_parse_root(text) {
        Err(e) => Err(e),
        Ok(root) => {
            let ls = lines(text);
            match (map_find(root, skills_name()) is Some, spec_find_block(ls, skills_name())) {
                (false, None) => Ok(spec_append_block(text, path)),
                (true, Some((key, end))) => spec_insert_into_block(text, key, end, path),
                _ => Err(Refusal::SkillsNotPlainBlock),
            }
        },
    }
}

// ---------------------------------------------------------------------------
// Verification of an edit, on the parse trees
// ---------------------------------------------------------------------------

/// `old`'s `skills.external_dirs`, put back into `new`: the key is removed
/// when `old` has none, and the `skills` block with it when `old` had no
/// `skills` and nothing else is left in it.
pub open spec fn spec_revert(new: Seq<(YamlV, YamlV)>, old: Seq<(YamlV, YamlV)>) -> Seq<
    (YamlV, YamlV),
> {
    let old_skills = map_find(old, skills_name());
    let old_dirs: Option<YamlV> = match old_skills {
        Some(i) => match untag(old[i].1) {
            YamlV::Mapping(m) => match map_find(m, dirs_name()) {
                Some(j) => Some(m[j].1),
                None => None,
            },
            _ => None,
        },
        None => None,
};
    match map_find(new, skills_name()) {
        Some(i) => match new[i].1 {
            YamlV::Mapping(ns) => {
                let ns2 = match old_dirs {
                    Some(v) => map_insert(ns, dirs_name(), v),
                    None => map_remove(ns, dirs_name()),
                };
                let updated = new.update(i, (new[i].0, YamlV::Mapping(ns2)));
                if old_skills is None && ns2.len() == 0 {
                    map_remove(updated, skills_name())
                } else {
                    updated
                }
            },
            _ => new,
        },
        None => new,
    }
}

/// The check of an edit on the parsed documents: the edited root lists `path`
/// in `skills.external_dirs`, and putting `old`'s `skills.external_dirs` back
/// into it gives a document equal to `old`.
pub open spec fn spec_check_edit(
    old: Seq<(YamlV, YamlV)>,
    new: Seq<(YamlV, YamlV)>,
    path: Seq<char>,
) -> Result<(), Refusal> {
    match spec_dirs_of_root(new) {
        Err(e) => Err(e),
        Ok(dirs) => if !dirs.contains(path) {
            Err(Refusal::PathNotAdded(path))
        } else if !entries_eq(spec_revert(new, old), old) {
            Err(Refusal::ChangedMoreThanKey)
        } else {
            Ok(())
        },
    }
}

/// The check an edit must pass: both documents parse, and the edit passes
/// `spec_check_edit`.
pub open spec fn spec_verify(original: Seq<char>, edited: Seq<char>, path: Seq<char>) -> Result<
    (),
    Refusal,
> {
    match spec_parse_root(original) {
        Err(e) => Err(e),
        Ok(old) => match spec_parse_root(edited) {
            Err(e) => Err(e),
            Ok(new) => spec_check_edit(old, new, path),
        },
    }
}

/// The outcome of adding `path` to the document `text`: the edited document,
/// `None` when `path` is already listed, or the refusal.
pub open spec fn spec_add_external_dir(text: Seq<char>, path: Seq<char>) -> Result<
    Option<Seq<char>>,
    Refusal,
> {
    match spec_guards(text) {
        Err(e) => Err(e),
        Ok(_) => match spec_external_dirs(text) {
            Err(e) => Err(e),
            Ok(dirs) => if dirs.contains(path) {
                Ok(None)
            } else {
                match spec_insert(text, path) {
                    Err(e) => Err(e),
                    Ok(edited) => match spec_verify(text, edited, path) {
                        Err(e) => Err(e),
                        Ok(_) => Ok(Some(edited)),
                    },
                }
            },
        },
    }
}

// ---------------------------------------------------------------------------
// Executable code
// ---------------------------------------------------------------------------

/// Where Hermes keeps its configuration, given the user's home directory:
/// `<home>/.hermes/config.yaml`, joined as `Path::join` joins relative parts.
/// Takes `home` rather than reading `$HOME`, so the caller owns that failure.
pub open spec fn spec_config_path(home: Seq<char>) -> Seq<char> {
    let rel = ".hermes/config.yaml"@;
    if home.len() == 0 {
        rel
    } else if home.last() == '/' {
        home + rel
    } else {
        home + seq!['/'] + rel
    }
}

pub fn config_path(home: &str) -> (r: String)
    ensures
        r@ == spec_config_path(home@),
{
    let h = chars_of(home);
    let mut out: Vec<char> = Vec::new();
    push_all(&mut out, &h);
    if h.len() > 0 && h[h.len() - 1] != '/' {
        out.push('/');
    }
    push_str(&mut out, ".hermes/config.yaml");
    string_from_chars(&out)
}

/// The root mapping of a parsed document: an empty document parses as null
/// and reads as an empty mapping; any other root is refused.
pub open spec fn spec_root_of(doc: YamlV) -> Result<Seq<(YamlV, YamlV)>, Refusal> {
    match doc {
        YamlV::Mapping(m) => Ok(m),
        YamlV::Null => Ok(Seq::empty()),
        _ => Err(Refusal::RootNotMapping),
    }
}

pub fn root_mapping(doc: Yaml) -> (r: Result<Vec<(Yaml, Yaml)>, HermesError>)
    ensures
        match r {
            Ok(m) => spec_root_of(doc@) == Ok::<_, Refusal>(entries_view(m@)),
            Err(e) => spec_root_of(doc@) == Err::<Seq<(YamlV, YamlV)>, _>(e@),
        },
{
    proof {
        lemma_view_kind(doc);
    }
    match doc {
        Yaml::Mapping(m) => {
            proof {
                lemma_mapping_view(m);
            }
            Ok(m)
        },
        Yaml::Null => {
            let e: Vec<(Yaml, Yaml)> = Vec::new();
            assert(entries_view(e@) =~= Seq::empty());
            Ok(e)
        },
        _ => Err(HermesError::RootNotMapping),
    }
}

/// Parses the document and requires a mapping at its root.
fn parse_root(text: &str) -> (r: Result<Vec<(Yaml, Yaml)>, HermesError>)
    ensures
        match r {
            Ok(m) => spec_parse_root(text@) == Ok::<_, Refusal>(entries_view(m@)),
            Err(e) => spec_parse_root(text@) == Err::<Seq<(YamlV, YamlV)>, _>(e@),
        },
{
    match parse_yaml(text) {
        Err(m) => Err(HermesError::InvalidYaml(m)),
        Ok(doc) => root_mapping(doc),
    }
}

/// The directories a root mapping lists in `skills.external_dirs`.
#[verifier::loop_isolation(false)]
pub fn dirs_of_root(root: &Vec<(Yaml, Yaml)>) -> (r: Result<Vec<String>, HermesError>)
    ensures
        match r {
            Ok(v) => spec_dirs_of_root(entries_view(root@)) == Ok::<_, Refusal>(strings_view(v@)),
            Err(e) => spec_dirs_of_root(entries_view(root@)) == Err::<Seq<Seq<char>>, _>(e@),
        },
{
    let ghost rv = entries_view(root@);
    let sk_key = skills_key();
    let dk = dirs_key();
    let empty: Vec<String> = Vec::new();
    assert(strings_view(empty@) =~= Seq::<Seq<char>>::empty());
    match find_key(root, &sk_key) {
        None => Ok(empty),
        Some(i) => {
            assert(rv[i as int] == (root@[i as int].0@, root@[i as int].1@));
            let sk = untag_ref(&root[i].1);
            proof {
                lemma_view_kind(*sk);
            }
            match sk {
                Yaml::Mapping(m) => {
                    proof {
                        lemma_mapping_view(*m);
                    }
                    let ghost mv = entries_view(m@);
                    match find_key(m, &dk) {
                        None => Ok(empty),
                        Some(j) => {
                            assert(mv[j as int] == (m@[j as int].0@, m@[j as int].1@));
                            let v = &m[j].1;
                            proof {
                                lemma_view_kind(*v);
                            }
                            if let Yaml::Null = v {
                                return Ok(empty);
                            }
                            let u = untag_ref(v);
                            proof {
                                lemma_view_kind(*u);
                            }
                            match u {
                                Yaml::Sequence(items) => {
                                    proof {
                                        lemma_sequence_view(*items);
                                    }
                                    let ghost iv = seq_view(items@);
                                    let mut out: Vec<String> = Vec::new();
                                    let mut k: usize = 0;
                                    while k < items.len()
                                        invariant
                                            0 <= k <= items@.len(),
                                            iv == seq_view(items@),
                                            out@.len() == k,
                                            forall|q: int|
                                                0 <= q < k ==> #[trigger] untag(iv[q]) is Str,
                                            forall|q: int|
                                                0 <= q < k ==> #[trigger] out@[q]@ == str_of(
                                                    untag(iv[q]),
                                                ),
                                        decreases items.len() - k,
                                    {
                                        assert(iv[k as int] == items@[k as int]@);
                                        let e = untag_ref(&items[k]);
                                        proof {
                                            lemma_view_kind(*e);
                                        }
                                        match e {
                                            Yaml::Str(s) => {
                                                out.push(s.clone());
                                            },
                                            _ => {
                                                assert(!all_strings(iv));
                                                return Err(HermesError::NonStringEntry);
                                            },
                                        }
                                        k = k + 1;
                                    }
                                    assert(all_strings(iv));
                                    assert(strings_view(out@) =~= Seq::new(
                                        iv.len(),
                                        |q: int| str_of(untag(iv[q])),
                                    ));
                                    Ok(out)
                                },
                                _ => Err(HermesError::DirsNotSequence),
                            }
                        },
                    }
                },
                _ => Err(HermesError::SkillsNotMapping),
            }
        },
    }
}

/// The directories currently listed in `skills.external_dirs`.
///
/// An absent `skills` block, an absent `external_dirs` key and an explicit null
/// all mean "none listed": states to report, not problems. `Err` is reserved
/// for a document whose shape says it must not be touched.
pub fn external_dirs(text: &str) -> (r: Result<Vec<String>, HermesError>)
    ensures
        match r {
            Ok(v) => spec_external_dirs(text@) == Ok::<_, Refusal>(strings_view(v@)),
            Err(e) => spec_external_dirs(text@) == Err::<Seq<Seq<char>>, _>(e@),
        },
{
    let root = parse_root(text)?;
    dirs_of_root(&root)
}

/// `dirs` holds `path`.
pub fn lists(dirs: &Vec<String>, path: &Vec<char>) -> (r: bool)
    ensures
        r == strings_view(dirs@).contains(path@),
{
    let mut k: usize = 0;
    while k < dirs.len()
        invariant
            0 <= k <= dirs@.len(),
            forall|q: int| 0 <= q < k ==> dirs@[q]@ != path@,
        decreases dirs.len() - k,
    {
        let d = chars_of(dirs[k].as_str());
        if chars_eq(&d, path) {
            assert(strings_view(dirs@)[k as int] == path@);
            return true;
        }
        k = k + 1;
    }
    false
}

/// The two guards that are questions about the text rather than the parse tree.
#[verifier::loop_isolation(false)]
fn check_textual_guards(text: &Vec<char>, lines: &Vec<Vec<char>>) -> (r: Result<(), HermesError>)
    requires
        views(lines@) == crate::text::lines(text@),
    ensures
        match r {
            Ok(_) => spec_guards(text@) == Ok::<(), Refusal>(()),
            Err(e) => spec_guards(text@) == Err::<(), _>(e@),
        },
{
    if contains_char(text, '\t') {
        return Err(HermesError::TabCharacter);
    }
    let ghost ls = views(lines@);
    let mut k: usize = 1;
    while k < lines.len()
        invariant
            1 <= k,
            k <= lines@.len() || lines@.len() == 0,
            ls == views(lines@),
            forall|q: int| 1 <= q < k && q < ls.len() ==> trim_end(#[trigger] ls[q]) != separator(),
        decreases lines.len() - k,
    {
        let line = &lines[k];
        assert(ls[k as int] == line@);
        let b = trail_of(line);
        let t = slice(line, 0, b);
        assert(t@ =~= trim_end(line@));
        let sep = vec!['-', '-', '-'];
        assert(sep@ =~= separator());
        if chars_eq(&t, &sep) {
            return Err(HermesError::SecondDocument);
        }
        k = k + 1;
    }
    Ok(())
}

/// Where line `a` of `text` starts.
fn line_start_of(text: &Vec<char>, a: usize) -> (r: usize)
    requires
        a < crate::text::lines(text@).len(),
    ensures
        r == line_start(text@, a as nat),
        r < text@.len(),
{
    let mut pos: usize = 0;
    let mut k: usize = 0;
    while k < a
        invariant
            0 <= k <= a < crate::text::lines(text@).len(),
            pos == line_start(text@, k as nat),
        decreases a - k,
    {
        proof {
            lemma_line_start(text@, k as nat);
            lemma_line_start(text@, (k + 1) as nat);
            lemma_find_from(text@, '\n', pos as int);
        }
        let mut e: usize = pos;
        while e < text.len() && text[e] != '\n'
            invariant
                pos <= e <= text@.len(),
                find_from(text@, '\n', pos as int) == find_from(text@, '\n', e as int),
            decreases text.len() - e,
        {
            e = e + 1;
        }
        pos = e + 1;
        k = k + 1;
    }
    proof {
        lemma_line_start(text@, a as nat);
    }
    pos
}

/// Appends `s[from..to)`.
fn push_range(out: &mut Vec<char>, s: &Vec<char>, from: usize, to: usize)
    requires
        from <= to <= s@.len(),
    ensures
        final(out)@ == old(out)@ + s@.subrange(from as int, to as int),
{
    let part = slice(s, from, to);
    push_all(out, &part);
}

/// `insert_lines`.
fn insert_lines_of(text: &Vec<char>, lines: &Vec<Vec<char>>, a: usize, new: &Vec<Vec<char>>) -> (r:
    Vec<char>)
    requires
        views(lines@) == crate::text::lines(text@),
    ensures
        r@ == insert_lines(text@, a as int, views(new@)),
{
    let joined = join(new, false);
    let mut out: Vec<char> = Vec::new();
    if a < lines.len() {
        let p = line_start_of(text, a);
        push_range(&mut out, text, 0, p);
        push_all(&mut out, &joined);
        out.push('\n');
        push_range(&mut out, text, p, text.len());
        assert(out@ =~= insert_lines(text@, a as int, views(new@)));
    } else if text.len() > 0 && text[text.len() - 1] == '\n' {
        push_all(&mut out, text);
        push_all(&mut out, &joined);
        out.push('\n');
        assert(out@ =~= insert_lines(text@, a as int, views(new@)));
    } else {
        push_all(&mut out, text);
        out.push('\n');
        push_all(&mut out, &joined);
        assert(out@ =~= insert_lines(text@, a as int, views(new@)));
    }
    out
}

/// `replace_line`.
fn replace_line_of(text: &Vec<char>, lines: &Vec<Vec<char>>, a: usize, new: &Vec<Vec<char>>) -> (r:
    Vec<char>)
    requires
        views(lines@) == crate::text::lines(text@),
        a < lines@.len(),
    ensures
        r@ == replace_line(text@, a as int, views(new@)),
{
    let joined = join(new, false);
    let p = line_start_of(text, a);
    proof {
        lemma_line_start(text@, a as nat);
        assert(views(lines@)[a as int] == lines@[a as int]@);
        assert(p + lines@[a as int]@.len() <= find_from(text@, '\n', p as int));
        assert(find_from(text@, '\n', p as int) <= text@.len());
    }
    assert(lines[a as int]@.len() == lines[a as int].len());
    assert(p + lines[a as int].len() <= text.len());
    let q = p + lines[a].len();
    let mut out: Vec<char> = Vec::new();
    push_range(&mut out, text, 0, p);
    push_all(&mut out, &joined);
    push_range(&mut out, text, q, text.len());
    assert(out@ =~= replace_line(text@, a as int, views(new@)));
    out
}

/// Appends a whole `skills` block, after any trailing comment block; the blank
/// line keeps it from reading as part of that comment.
fn append_block(text: &Vec<char>, path: &Vec<char>) -> (r: Vec<char>)
    ensures
        r@ == spec_append_block(text@, path@),
{
    let mut out: Vec<char> = Vec::new();
    push_all(&mut out, text);
    if text.len() > 0 {
        if text[text.len() - 1] != '\n' {
            out.push('\n');
        }
        out.push('\n');
    }
    push_all(&mut out, &skills_key());
    out.push(':');
    out.push('\n');
    push_spaces(&mut out, 2);
    push_all(&mut out, &dirs_key());
    out.push(':');
    out.push('\n');
    let it = item(4, path);
    push_all(&mut out, &it);
    let trailing = text.len() > 0 && text[text.len() - 1] == '\n';
    if trailing {
        out.push('\n');
    }
    proof {
        let t = text@;
        let head = if t.len() == 0 {
            t
        } else if ends_with_newline(t) {
            t + seq!['\n']
        } else {
            t + seq!['\n', '\n']
        };
        let block = skills_name() + seq![':', '\n'] + spaces(2) + dirs_name() + seq![':', '\n']
            + spec_item(4, path@);
        if trailing {
            assert(out@ =~= head + block + seq!['\n']);
        } else {
            assert(out@ =~= head + block);
        }
    }
    out
}

/// The `external_dirs` key line at `indent`, followed by `rest`.
fn make_key_line(indent: usize, rest: &Vec<char>) -> (r: Vec<char>)
    ensures
        r@ == key_line(indent as nat, rest@),
{
    let mut out: Vec<char> = Vec::new();
    push_spaces(&mut out, indent);
    push_all(&mut out, &dirs_key());
    out.push(':');
    push_all(&mut out, rest);
    assert(out@ =~= key_line(indent as nat, rest@));
    out
}

/// The three in-block cases: no `external_dirs` key, an empty flow sequence,
/// and a block sequence or empty value.
fn insert_into_block(
    text: &Vec<char>,
    lines: &Vec<Vec<char>>,
    block: &Block,
    path: &Vec<char>,
) -> (r: Result<Vec<char>, HermesError>)
    requires
        views(lines@) == crate::text::lines(text@),
        block.key < block.end <= lines@.len(),
        fits(views(lines@)),
    ensures
        match r {
            Ok(t) => spec_insert_into_block(text@, block.key as int, block.end as int, path@)
                == Ok::<_, Refusal>(t@),
            Err(e) => spec_insert_into_block(text@, block.key as int, block.end as int, path@)
                == Err::<Seq<char>, _>(e@),
        },
{
    let ghost ls = views(lines@);
    let indent = child_indent(lines, block);
    let dk = dirs_key();
    match find_child_key(lines, block, indent, &dk) {
        None => {
            let empty: Vec<char> = Vec::new();
            let new = vec![make_key_line(indent, &empty), item(indent + 2, path)];
            proof {
                assert(views(new@) =~= seq![
                    key_line(indent as nat, Seq::empty()),
                    spec_item((indent + 2) as nat, path@),
                ]);
            }
            Ok(insert_lines_of(text, lines, block.key + 1, &new))
        },
        Some(at) => {
            assert(ls[at as int] == lines@[at as int]@);
            let after = value_after_key(&lines[at], &dk);
            let (value, comment) = split_comment(&after);
            let comment2 = if comment.len() == 0 {
                comment
            } else {
                let mut c: Vec<char> = Vec::new();
                push_spaces(&mut c, 2);
                push_all(&mut c, &comment);
                c
            };
            let v = trimmed(&value);
            let flow = vec!['[', ']'];
            assert(flow@ =~= empty_flow());
            if chars_eq(&v, &flow) {
                let new = vec![make_key_line(indent, &comment2), item(indent + 2, path)];
                proof {
                    assert(views(new@) =~= seq![
                        key_line(indent as nat, comment2@),
                        spec_item((indent + 2) as nat, path@),
                    ]);
                }
                Ok(replace_line_of(text, lines, at, &new))
            } else if v.len() == 0 {
                match last_item(lines, at, indent) {
                    Some((last, item_indent)) => {
                        assert(last < lines.len());
                        let new = vec![item(item_indent, path)];
                        proof {
                            assert(views(new@) =~= seq![spec_item(item_indent as nat, path@)]);
                        }
                        Ok(insert_lines_of(text, lines, last + 1, &new))
                    },
                    None => {
                        let new = vec![item(indent + 2, path)];
                        proof {
                            assert(views(new@) =~= seq![spec_item((indent + 2) as nat, path@)]);
                        }
                        Ok(insert_lines_of(text, lines, at + 1, &new))
                    },
                }
            } else {
                Err(HermesError::UnsupportedDirsValue(string_from_chars(&v)))
            }
        },
    }
}

/// Produces the edited document.
fn insert(text: &str, chars: &Vec<char>, lines: &Vec<Vec<char>>, path: &Vec<char>) -> (r: Result<
    Vec<char>,
    HermesError,
>)
    requires
        chars@ == text@,
        views(lines@) == crate::text::lines(text@),
        fits(views(lines@)),
    ensures
        match r {
            Ok(t) => spec_insert(text@, path@) == Ok::<_, Refusal>(t@),
            Err(e) => spec_insert(text@, path@) == Err::<Seq<char>, _>(e@),
        },
{
    let root = parse_root(text)?;
    let sk = skills_key();
    let has_skills = find_key(&root, &sk).is_some();
    match find_top_level_block(lines, &sk) {
        None => {
            if has_skills {
                Err(HermesError::SkillsNotPlainBlock)
            } else {
                Ok(append_block(chars, path))
            }
        },
        Some(block) => {
            if has_skills {
                insert_into_block(chars, lines, &block, path)
            } else {
                Err(HermesError::SkillsNotPlainBlock)
            }
        },
    }
}

/// Puts `old`'s `skills.external_dirs` back into `new`, removing the key, and
/// the `skills` block with it if `old` had none, when `old` did not have it.
pub fn revert_external_dirs(new: &mut Vec<(Yaml, Yaml)>, prev: &Vec<(Yaml, Yaml)>)
    ensures
        entries_view(final(new)@) == spec_revert(entries_view(old(new)@), entries_view(prev@)),
{
    let ghost nv = entries_view(new@);
    let ghost ov = entries_view(prev@);
    let sk = skills_key();
    let dk = dirs_key();
    let old_skills = find_key(prev, &sk);
    let old_dirs: Option<Yaml> = match old_skills {
        Some(i) => {
            assert(ov[i as int] == (prev@[i as int].0@, prev@[i as int].1@));
            let u = untag_ref(&prev[i].1);
            proof {
                lemma_view_kind(*u);
            }
            match u {
                Yaml::Mapping(m) => {
                    proof {
                        lemma_mapping_view(*m);
                    }
                    match find_key(m, &dk) {
                        Some(j) => {
                            assert(entries_view(m@)[j as int] == (m@[j as int].0@, m@[j as int].1@));
                            Some(clone_yaml(&m[j].1))
                        },
                        None => None,
                    }
                },
                _ => None,
            }
        },
        None => None,
};
    let ghost od: Option<YamlV> = match &old_dirs {
        Some(v) => Some(v@),
        None => None,
};
    match find_key(new, &sk) {
        None => {},
        Some(i) => {
            assert(nv[i as int] == (new@[i as int].0@, new@[i as int].1@));
            let (k, v) = new.remove(i);
            proof {
                lemma_view_kind(v);
            }
            match v {
                Yaml::Mapping(mut ns) => {
                    proof {
                        lemma_mapping_view(ns);
                    }
                    let ghost ns0 = entries_view(ns@);
                    match old_dirs {
                        Some(d) => map_set(&mut ns, &dk, d),
                        None => map_delete(&mut ns, &dk),
                    }
                    let ghost ns2 = entries_view(ns@);
                    assert(ns2 == match od {
                        Some(x) => map_insert(ns0, dirs_name(), x),
                        None => map_remove(ns0, dirs_name()),
                    });
                    let empty = ns.len() == 0;
                    let node = Yaml::Mapping(ns);
                    proof {
                        lemma_mapping_view(ns);
                    }
                    new.insert(i, (k, node));
                    assert(entries_view(new@) =~= nv.update(i as int, (nv[i as int].0, YamlV::Mapping(ns2))));
                    if old_skills.is_none() && empty {
                        map_delete(new, &sk);
                    }
                },
                other => {
                    new.insert(i, (k, other));
                    assert(entries_view(new@) =~= nv);
                },
            }
        },
    }
}

/// The check of an edit on the parsed documents, `old` and `new`.
pub fn check_edit(old: &Vec<(Yaml, Yaml)>, new: Vec<(Yaml, Yaml)>, path: &str) -> (r: Result<
    (),
    HermesError,
>)
    ensures
        match r {
            Ok(_) => spec_check_edit(entries_view(old@), entries_view(new@), path@) == Ok::<
                (),
                Refusal,
            >(()),
            Err(e) => spec_check_edit(entries_view(old@), entries_view(new@), path@) == Err::<
                (),
                _,
            >(e@),
        },
{
    let dirs = dirs_of_root(&new)?;
    let p = chars_of(path);
    if !lists(&dirs, &p) {
        return Err(HermesError::PathNotAdded(string_from_chars(&p)));
    }
    let mut reverted = new;
    revert_external_dirs(&mut reverted, old);
    if !entries_equal(&reverted, old) {
        return Err(HermesError::ChangedMoreThanKey);
    }
    Ok(())
}

/// Proves the edit changed exactly one key: the edited text parses, its
/// `skills.external_dirs` lists `path`, and reverting only that key yields a
/// document deep-equal to the original. It rules out a changed neighbouring
/// value, a changed nesting level and a changed key type.
pub fn verify(original: &str, edited: &str, path: &str) -> (r: Result<(), HermesError>)
    ensures
        match r {
            Ok(_) => spec_verify(original@, edited@, path@) == Ok::<(), Refusal>(()),
            Err(e) => spec_verify(original@, edited@, path@) == Err::<(), _>(e@),
        },
{
    let old_root = parse_root(original)?;
    let new_root = parse_root(edited)?;
    check_edit(&old_root, new_root, path)
}

/// Adds `path` to `skills.external_dirs`, returning the edited document, or
/// `None` when `path` is already listed: the idempotent no-op every second run
/// takes. `Err` is a refusal to edit, never an I/O failure. The result always
/// passes `verify` before it is returned, so no caller can skip that check.
pub fn add_external_dir(text: &str, path: &str) -> (r: Result<Option<String>, HermesError>)
    requires
        utf8_len(text@) <= isize::MAX,
    ensures
        match r {
            Ok(Some(t)) => spec_add_external_dir(text@, path@) == Ok::<_, Refusal>(Some(t@)),
            Ok(None) => spec_add_external_dir(text@, path@) == Ok::<_, Refusal>(None::<Seq<char>>),
            Err(e) => spec_add_external_dir(text@, path@) == Err::<Option<Seq<char>>, _>(e@),
        },
{
    let chars = chars_of(text);
    let lines = lines_of(&chars);
    proof {
        lemma_lines_from_bytes(text@, 0);
        assert forall|k: int| 0 <= k < views(lines@).len() implies utf8_len(
            #[trigger] views(lines@)[k],
        ) <= isize::MAX by {
            assert(views(lines@)[k] == crate::text::lines(text@)[k]);
        }
    }
    check_textual_guards(&chars, &lines)?;
    let p = chars_of(path);
    let dirs = external_dirs(text)?;
    if lists(&dirs, &p) {
        return Ok(None);
    }
    let edited = insert(text, &chars, &lines, &p)?;
    let edited_text = string_from_chars(&edited);
    verify(text, edited_text.as_str(), path)?;
    Ok(Some(edited_text))
}

} // verus!

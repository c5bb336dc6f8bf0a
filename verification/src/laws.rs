//! What holds of `add_external_dir` across calls and across all inputs: a
//! second run is a no-op, every edit has been verified, an edit keeps every
//! line it does not have to change, its refusals are those of
//! `external_dirs`, every refusal names its remedy, and reverting a one-key
//! edit gives the original document back.
use vstd::prelude::*;
use crate::text::{
    ends_with_newline, find_from, has_prefix_then, join_lines, lemma_concat_lacks, lemma_find_from,
    lemma_join_extend_last, lemma_join_front, lemma_join_lacks, lemma_line_start,
    lemma_lines_concat, lemma_lines_extend_last, lemma_lines_lack, lemma_lines_no_newline,
    lemma_lines_prefixed, lemma_lines_push_newline, lemma_lines_rest, lemma_lines_single,
    lemma_lines_split_at, lemma_spaces_lack, lemma_subrange_lacks, lemma_trim_end_separator,
    lemma_trim_end_strip_cr, line_start, lines, no_newline, spaces, strip_cr, trim, trim_end,
    trim_start,
};
use crate::scan::{
    child_key, is_content, is_dash, is_outdented, lemma_find_block, lemma_first_from,
    lemma_last_item, lemma_last_item_is_last, lemma_value_lacks,
    spec_child_indent, spec_find_block, spec_find_child_key, spec_item, spec_last_item,
    spec_split_comment, spec_value_after_key,
};
use crate::yaml::{
    entries_eq, has_entry, lemma_entry_refl, lemma_find_first, lemma_find_none, lemma_find_push,
    lemma_find_same_keys, lemma_remove_inserted, lemma_yaml_eq_refl, map_find, map_insert,
    map_remove, yaml_eq, YamlV,
};
use crate::hermes::{
    dirs_name, empty_flow, key_line, message_of, separator, skills_name, spec_add_external_dir,
    spec_append_block, spec_external_dirs, spec_guards, spec_insert, spec_insert_into_block,
    spec_parse_root, spec_revert, spec_verify, HermesError,
};

verus! {

/// A line that does not separate documents: its end does not trim to `---`.
pub open spec fn not_separator(x: Seq<char>) -> bool {
    trim_end(x) != separator()
}

/// No line of `s` separates documents.
pub open spec fn no_separator_line(s: Seq<char>) -> bool {
    forall|k: int| 0 <= k < lines(s).len() ==> not_separator(#[trigger] lines(s)[k])
}

/// No line of `s` after its first separates documents.
pub open spec fn no_later_separator(s: Seq<char>) -> bool {
    forall|k: int| 1 <= k < lines(s).len() ==> not_separator(#[trigger] lines(s)[k])
}

/// A line an in-block edit writes: never empty; whenever no line of the path
/// after its first is a separator, neither the line nor the line ended by `\n`
/// or `\r\n` holds a separator line; it ends in `\n` only if the path does;
/// and it is free of tabs whenever the text and the path are.
pub open spec fn written_line(x: Seq<char>, text: Seq<char>, path: Seq<char>) -> bool {
    &&& x.len() > 0
    &&& no_later_separator(path) ==> no_separator_line(x) && no_separator_line(x + seq!['\n'])
        && no_separator_line(x + seq!['\r', '\n'])
    &&& !ends_with_newline(path) ==> x.last() != '\n'
    &&& (!text.contains('\t') && !path.contains('\t')) ==> !x.contains('\t')
}

/// `edited` is `text` with the bytes `[p, q)` replaced by `mid`, where what is
/// replaced, if anything, is the content of the `external_dirs` key line and
/// nothing else: every other byte of `text`, line endings included, is kept in
/// place.
pub open spec fn kept_apart(text: Seq<char>, edited: Seq<char>, p: int, q: int, mid: Seq<char>) -> bool {
    &&& 0 <= p <= q <= text.len()
    &&& edited == text.take(p) + mid + text.skip(q)
    &&& p < q ==> no_newline(text.subrange(p, q)) && has_prefix_then(
        trim_start(text.subrange(p, q)),
        dirs_name(),
        ':',
    )
}

/// An in-block edit that puts the written lines `new` in before line `a`.
pub open spec fn inserted(
    text: Seq<char>,
    edited: Seq<char>,
    a: int,
    new: Seq<Seq<char>>,
    path: Seq<char>,
) -> bool {
    &&& 1 <= a <= lines(text).len()
    &&& new.len() >= 1
    &&& forall|k: int| 0 <= k < new.len() ==> written_line(#[trigger] new[k], text, path)
    &&& edited == crate::hermes::insert_lines(text, a, new)
}

/// An in-block edit that replaces the `external_dirs` key line `a` by the
/// written lines `new`.
pub open spec fn replaced(
    text: Seq<char>,
    edited: Seq<char>,
    a: int,
    new: Seq<Seq<char>>,
    path: Seq<char>,
) -> bool {
    &&& 1 <= a < lines(text).len()
    &&& new.len() >= 1
    &&& forall|k: int| 0 <= k < new.len() ==> written_line(#[trigger] new[k], text, path)
    &&& has_prefix_then(trim_start(lines(text)[a]), dirs_name(), ':')
    &&& edited == crate::hermes::replace_line(text, a, new)
}

/// A line without `\n` that is no separator stays none when `\n` or `\r\n`
/// ends it.
proof fn lemma_plain_line_ok(x: Seq<char>)
    requires
        no_newline(x),
        not_separator(x),
    ensures
        no_separator_line(x),
        no_separator_line(x + seq!['\n']),
        no_separator_line(x + seq!['\r', '\n']),
{
    lemma_lines_single(x);
    lemma_trim_end_strip_cr(x);
    let y = x + seq!['\r'];
    assert forall|m: int| 0 <= m < y.len() implies y[m] != '\n' by {
        if m < x.len() {
            assert(y[m] == x[m]);
            assert(x.contains(x[m]));
        }
    }
    lemma_lines_single(y);
    assert(strip_cr(y) =~= x);
    assert(y + seq!['\n'] =~= x + seq!['\r', '\n']);
}

/// Lines that hold no separator line, put before text that holds none, hold
/// none together with it; and a text none of whose later lines is a
/// separator keeps that with such text after it.
proof fn lemma_concat_ok(a: Seq<char>, b: Seq<char>)
    requires
        a.len() == 0 || a.last() == '\n',
        no_separator_line(b),
    ensures
        no_separator_line(a) ==> no_separator_line(a + b),
        no_later_separator(a) ==> no_later_separator(a + b),
{
    lemma_lines_concat(a, b, 0);
    let la = lines(a);
    let l = lines(a + b);
    assert(l == la + lines(b));
    if a.len() > 0 {
        assert(la.len() >= 1);
    }
    assert forall|k: int| 0 <= k < l.len() && (k < la.len() ==> not_separator(la[k])) implies not_separator(
        #[trigger] l[k],
    ) by {
        if k < la.len() {
            assert(l[k] == la[k]);
        } else {
            assert(l[k] == lines(b)[k - la.len()]);
        }
    }
    if no_later_separator(a) {
        assert forall|k: int| 1 <= k < l.len() implies not_separator(#[trigger] l[k]) by {
            if k < la.len() {
                assert(l[k] == la[k]);
                assert(not_separator(la[k]));
            }
        }
    }
}

/// A text that does not end in `\n` keeps its later lines apart from
/// separators when a `\n` is added.
proof fn lemma_push_newline_ok(s: Seq<char>)
    requires
        s.len() > 0,
        s.last() != '\n',
        no_later_separator(s),
    ensures
        no_later_separator(s + seq!['\n']),
{
    lemma_lines_push_newline(s, 0);
    let l = lines(s + seq!['\n']);
    assert forall|k: int| 1 <= k < l.len() implies not_separator(#[trigger] l[k]) by {
        lemma_trim_end_strip_cr(lines(s)[k]);
        assert(l[k] == lines(s)[k] || l[k] == strip_cr(lines(s)[k]));
    }
}

/// A path none of whose later lines is a separator keeps that when `\n` or
/// `\r\n` ends it.
proof fn lemma_path_then(path: Seq<char>)
    requires
        no_later_separator(path),
    ensures
        no_later_separator(path + seq!['\n']),
        no_later_separator(path + seq!['\r', '\n']),
{
    let nl = seq!['\n'];
    let crnl = seq!['\r', '\n'];
    assert(trim_end(Seq::<char>::empty()).len() == 0);
    lemma_plain_line_ok(Seq::<char>::empty());
    assert(Seq::<char>::empty() + nl =~= nl);
    assert(Seq::<char>::empty() + crnl =~= crnl);
    if path.len() == 0 || path.last() == '\n' {
        lemma_concat_ok(path, nl);
        lemma_concat_ok(path, crnl);
    } else {
        lemma_push_newline_ok(path);
        let y = path + seq!['\r'];
        assert(no_newline(seq!['\r'])) by {
            assert forall|m: int| 0 <= m < 1 implies seq!['\r'][m] != '\n' by {}
        }
        lemma_lines_extend_last(path, seq!['\r'], 0);
        lemma_lines_push_newline(y, 0);
        assert(y + nl =~= path + crnl);
        let lp = lines(path);
        let ly = lines(y);
        let l = lines(path + crnl);
        assert forall|k: int| 1 <= k < l.len() implies not_separator(#[trigger] l[k]) by {
            assert(l[k] == ly[k] || l[k] == strip_cr(ly[k]));
            lemma_trim_end_strip_cr(ly[k]);
            if k < lp.len() - 1 {
                assert(ly[k] == lp[k]);
            } else {
                let z = lp.last();
                assert(ly[k] == z + seq!['\r']);
                lemma_trim_end_strip_cr(z + seq!['\r']);
                assert(strip_cr(z + seq!['\r']) =~= z);
                assert(lp[k] == z);
            }
        }
    }
}

/// Text behind a prefix that starts with a space, or with one character and
/// then a space, holds no separator line when no later line of the text is
/// one.
proof fn lemma_prefixed_ok(pre: Seq<char>, s: Seq<char>)
    requires
        no_newline(pre),
        pre.len() >= 2,
        pre.last() != '\r',
        pre[0] == ' ' || pre[1] == ' ',
        no_later_separator(s),
    ensures
        no_separator_line(pre + s),
{
    lemma_lines_prefixed(pre, s);
    let l = lines(pre + s);
    let l0 = l[0];
    assert(l0[0] == pre[0] && l0[1] == pre[1]) by {
        assert(l0.take(pre.len() as int)[0] == l0[0]);
        assert(l0.take(pre.len() as int)[1] == l0[1]);
    }
    lemma_trim_end_separator(l0);
    assert forall|k: int| 0 <= k < l.len() implies not_separator(#[trigger] l[k]) by {
        if k >= 1 {
            assert(l[k] == lines(s)[k]);
        }
    }
}

proof fn lemma_key_line_written(indent: nat, rest: Seq<char>, text: Seq<char>, path: Seq<char>)
    requires
        no_newline(rest),
        !text.contains('\t') ==> !rest.contains('\t'),
    ensures
        written_line(key_line(indent, rest), text, path),
{
    let x = key_line(indent, rest);
    let head = spaces(indent) + dirs_name() + seq![':'];
    assert(x == head + rest);
    assert(x.len() > 0);
    lemma_trim_end_separator(x);
    if indent > 0 {
        assert(x[0] == ' ');
    } else {
        assert(x[0] == 'e');
    }
    assert forall|m: int| 0 <= m < head.len() implies head[m] != '\n' && head[m] != '\t' by {
        if m < indent {
            assert(head[m] == ' ');
        } else if m < indent + 13 {
            assert(head[m] == dirs_name()[m - indent]);
        } else {
            assert(head[m] == ':');
        }
    }
    lemma_concat_lacks(head, rest, '\n');
    if !text.contains('\t') {
        lemma_concat_lacks(head, rest, '\t');
    }
    lemma_plain_line_ok(x);
    assert(x.contains(x.last()));
}

proof fn lemma_item_written(indent: nat, path: Seq<char>, text: Seq<char>)
    ensures
        written_line(spec_item(indent, path), text, path),
{
    let x = spec_item(indent, path);
    let head = spaces(indent) + seq!['-', ' '];
    assert(x == head + path);
    assert(x.len() > 0);
    assert forall|m: int| 0 <= m < head.len() implies head[m] != '\n' && head[m] != '\t' && head[m]
        != '\r' by {
        if m < indent {
            assert(head[m] == ' ');
        }
    }
    assert(head[0] == ' ' || head[1] == ' ') by {
        if indent > 0 {
            assert(head[0] == ' ');
        } else {
            assert(head[1] == ' ');
        }
    }
    if !path.contains('\t') {
        lemma_concat_lacks(head, path, '\t');
    }
    if path.len() == 0 {
        assert(x.last() == ' ');
    } else {
        assert(x.last() == path.last());
    }
    if no_later_separator(path) {
        let nl = seq!['\n'];
        let crnl = seq!['\r', '\n'];
        lemma_path_then(path);
        lemma_prefixed_ok(head, path);
        lemma_prefixed_ok(head, path + nl);
        lemma_prefixed_ok(head, path + crnl);
        assert(x + nl =~= head + (path + nl));
        assert(x + crnl =~= head + (path + crnl));
    }
}

/// The three shapes of an edit: a `skills` block appended to the text, written
/// lines put in before a line, or the key line replaced by written lines.
#[verifier::rlimit(50)]
#[verifier::spinoff_prover]
proof fn lemma_insert_cases(text: Seq<char>, path: Seq<char>, edited: Seq<char>)
    requires
        spec_insert(text, path) == Ok::<Seq<char>, crate::hermes::Refusal>(edited),
    ensures
        (edited == spec_append_block(text, path) && spec_find_block(lines(text), skills_name()) is None)
            || (exists|a: int, new: Seq<Seq<char>>| inserted(text, edited, a, new, path))
            || (exists|a: int, new: Seq<Seq<char>>| replaced(text, edited, a, new, path)),
{
    let ls = lines(text);
    lemma_find_block(ls, skills_name());
    lemma_lines_no_newline(text);
    if !text.contains('\t') {
        lemma_lines_lack(text, '\t');
    }
    match spec_find_block(ls, skills_name()) {
        None => {},
        Some((key, end)) => {
            let indent = spec_child_indent(ls, key, end);
            assert(spec_insert_into_block(text, key, end, path) == Ok::<
                Seq<char>,
                crate::hermes::Refusal,
            >(edited));
            lemma_first_from(ls, child_key(indent, dirs_name()), key + 1, end);
            lemma_item_written(indent + 2, path, text);
            match spec_find_child_key(ls, key, end, indent, dirs_name()) {
                None => {
                    lemma_key_line_written(indent, Seq::empty(), text, path);
                    let new = seq![key_line(indent, Seq::empty()), spec_item(indent + 2, path)];
                    assert(inserted(text, edited, key + 1, new, path));
                },
                Some(at) => {
                    let line = ls[at];
                    assert(no_newline(line));
                    let (value, comment) = spec_split_comment(
                        spec_value_after_key(line, dirs_name()),
                    );
                    let comment2 = if comment.len() == 0 {
                        comment
                    } else {
                        spaces(2) + comment
                    };
                    let v = trim(value);
                    if v == empty_flow() {
                        lemma_value_lacks(line, dirs_name(), '\n');
                        lemma_spaces_lack(2, '\n');
                        lemma_concat_lacks(spaces(2), comment, '\n');
                        if !text.contains('\t') {
                            assert(!line.contains('\t'));
                            lemma_value_lacks(line, dirs_name(), '\t');
                            lemma_spaces_lack(2, '\t');
                            lemma_concat_lacks(spaces(2), comment, '\t');
                        }
                        lemma_key_line_written(indent, comment2, text, path);
                        let new = seq![key_line(indent, comment2), spec_item(indent + 2, path)];
                        assert(replaced(text, edited, at, new, path));
                    } else {
                        assert(v.len() == 0);
                        lemma_last_item(ls, at, indent);
                        match spec_last_item(ls, at, indent) {
                            Some((last, item_indent)) => {
                                lemma_item_written(item_indent, path, text);
                                let new = seq![spec_item(item_indent, path)];
                                assert(inserted(text, edited, last + 1, new, path));
                            },
                            None => {
                                let new = seq![spec_item(indent + 2, path)];
                                assert(inserted(text, edited, at + 1, new, path));
                            },
                        }
                    }
                },
            }
        },
    }
}

/// The guards of `spec_guards`, as facts about the lines.
proof fn lemma_guards_ok(text: Seq<char>)
    ensures
        spec_guards(text) == Ok::<(), crate::hermes::Refusal>(()) <==> (!text.contains('\t')
            && no_later_separator(text)),
{
    if !text.contains('\t') {
        if spec_guards(text) == Ok::<(), crate::hermes::Refusal>(()) {
            assert forall|k: int| 1 <= k < lines(text).len() implies not_separator(
                #[trigger] lines(text)[k],
            ) by {
                if !not_separator(lines(text)[k]) {
                    assert(1 <= k < lines(text).len() && trim_end(lines(text)[k]) == separator());
                }
            }
        }
    }
}

/// The appended `skills` block, with a final newline when `t` holds.
pub open spec fn block_text(path: Seq<char>, t: bool) -> Seq<char> {
    let b = skills_name() + seq![':', '\n'] + spaces(2) + dirs_name() + seq![':', '\n'] + spec_item(
        4,
        path,
    );
    if t {
        b + seq!['\n']
    } else {
        b
    }
}

/// An appended `skills` block holds no separator line and no tab, for a path
/// without a tab none of whose later lines is a separator.
proof fn lemma_block_lines(path: Seq<char>, t: bool)
    requires
        no_later_separator(path),
        !path.contains('\t'),
    ensures
        no_separator_line(block_text(path, t)),
        !block_text(path, t).contains('\t'),
{
    let nl = seq!['\n'];
    let s = skills_name() + seq![':'];
    let kl = spaces(2) + dirs_name() + seq![':'];
    let it = spec_item(4, path);
    let b = block_text(path, t);
    let r2 = if t {
        it + nl
    } else {
        it
    };
    assert(b =~= (s + nl) + ((kl + nl) + r2));
    assert forall|m: int| 0 <= m < s.len() implies s[m] != '\n' && s[m] != '\t' by {
        if m < 6 {
            assert(s[m] == skills_name()[m]);
        }
    }
    assert forall|m: int| 0 <= m < kl.len() implies kl[m] != '\n' && kl[m] != '\t' by {
        if m < 2 {
            assert(kl[m] == ' ');
        } else if m < 15 {
            assert(kl[m] == dirs_name()[m - 2]);
        }
    }
    lemma_trim_end_separator(s);
    lemma_trim_end_separator(kl);
    assert(s[0] == 's');
    assert(kl[0] == ' ');
    lemma_plain_line_ok(s);
    lemma_plain_line_ok(kl);
    lemma_item_written(4, path, Seq::empty());
    lemma_concat_ok(kl + nl, r2);
    lemma_concat_ok(s + nl, (kl + nl) + r2);
    assert(!nl.contains('\t')) by {
        assert forall|m: int| 0 <= m < 1 implies nl[m] != '\t' by {}
    }
    lemma_concat_lacks(s, nl, '\t');
    lemma_concat_lacks(kl, nl, '\t');
    if t {
        lemma_concat_lacks(it, nl, '\t');
    }
    lemma_concat_lacks(kl + nl, r2, '\t');
    lemma_concat_lacks(s + nl, (kl + nl) + r2, '\t');
}

/// Appending a `skills` block keeps both textual guards.
#[verifier::rlimit(50)]
#[verifier::spinoff_prover]
proof fn lemma_append_keeps_guards(text: Seq<char>, path: Seq<char>)
    requires
        spec_guards(text) == Ok::<(), crate::hermes::Refusal>(()),
        !path.contains('\t'),
        no_later_separator(path),
    ensures
        spec_guards(spec_append_block(text, path)) == Ok::<(), crate::hermes::Refusal>(()),
{
    let e = spec_append_block(text, path);
    let t = ends_with_newline(text);
    let b = block_text(path, t);
    lemma_guards_ok(text);
    lemma_block_lines(path, t);
    let nl = seq!['\n'];
    let nb = nl + b;
    assert(!nl.contains('\t')) by {
        assert forall|m: int| 0 <= m < 1 implies nl[m] != '\t' by {}
    }
    lemma_concat_lacks(nl, b, '\t');
    assert(trim_end(Seq::<char>::empty()).len() == 0);
    lemma_plain_line_ok(Seq::<char>::empty());
    assert(Seq::<char>::empty() + nl =~= nl);
    lemma_concat_ok(nl, b);
    if text.len() == 0 {
        assert(e =~= b);
    } else if t {
        assert(e =~= text + nb);
        lemma_concat_lacks(text, nb, '\t');
        lemma_concat_ok(text, nb);
    } else {
        let p = text + nl;
        assert(e =~= p + nb);
        lemma_concat_lacks(text, nl, '\t');
        lemma_concat_lacks(p, nb, '\t');
        lemma_push_newline_ok(text);
        lemma_concat_ok(p, nb);
    }
    lemma_guards_ok(e);
}

/// Written lines hold no tab, and neither they nor they ended by `\n` or
/// `\r\n` hold a separator line, when the text and the path hold no tab and no
/// later line of the path is a separator.
proof fn lemma_written(new: Seq<Seq<char>>, text: Seq<char>, path: Seq<char>)
    requires
        forall|k: int| 0 <= k < new.len() ==> written_line(#[trigger] new[k], text, path),
        !text.contains('\t'),
        !path.contains('\t'),
        no_later_separator(path),
    ensures
        forall|k: int|
            0 <= k < new.len() ==> !(#[trigger] new[k]).contains('\t') && no_separator_line(new[k])
                && no_separator_line(new[k] + seq!['\n']) && no_separator_line(
                new[k] + seq!['\r', '\n'],
            ),
        !join_lines(new).contains('\t'),
{
    assert forall|k: int| 0 <= k < new.len() implies !(#[trigger] new[k]).contains('\t')
        && no_separator_line(new[k]) && no_separator_line(new[k] + seq!['\n']) && no_separator_line(
        new[k] + seq!['\r', '\n'],
    ) by {
        assert(written_line(new[k], text, path));
    }
    lemma_join_lacks(new, '\t');
}

/// Lines joined by `\n` and followed by `t` hold no separator line when each
/// but the last, ended by `\n`, holds none, and the last followed by `t` holds
/// none.
proof fn lemma_join_ok(ls: Seq<Seq<char>>, t: Seq<char>)
    requires
        ls.len() >= 1,
        forall|k: int|
            #![trigger ls[k]]
            0 <= k < ls.len() - 1 ==> no_separator_line(ls[k] + seq!['\n']),
        no_separator_line(ls.last() + t),
    ensures
        no_separator_line(join_lines(ls) + t),
    decreases ls.len(),
{
    if ls.len() == 1 {
        assert(join_lines(ls) == ls[0]);
    } else {
        lemma_join_front(ls);
        let rest = ls.drop_first();
        assert forall|k: int| #![trigger rest[k]] 0 <= k < rest.len() - 1 implies no_separator_line(
            rest[k] + seq!['\n'],
        ) by {
            assert(rest[k] == ls[k + 1]);
        }
        assert(rest.last() == ls.last());
        lemma_join_ok(rest, t);
        let a = ls[0] + seq!['\n'];
        assert(join_lines(ls) + t =~= a + (join_lines(rest) + t));
        lemma_concat_ok(a, join_lines(rest) + t);
    }
}

/// A newline holds no tab.
proof fn lemma_newline_lacks_tab()
    ensures
        !seq!['\n'].contains('\t'),
{
    assert forall|m: int| 0 <= m < 1 implies seq!['\n'][m] != '\t' by {}
}

/// The text before line `a`, `a` at least 1, keeps its later lines apart from
/// separators, and the text from line `a` on holds no separator line, when
/// the text's later lines hold none.
proof fn lemma_split_ok(text: Seq<char>, a: nat)
    requires
        1 <= a < lines(text).len(),
        no_later_separator(text),
    ensures
        ({
            let p = line_start(text, a);
            &&& 1 <= p <= text.len()
            &&& text.take(p).last() == '\n'
            &&& no_later_separator(text.take(p))
            &&& no_separator_line(text.skip(p))
        }),
{
    let ls = lines(text);
    let p = line_start(text, a);
    lemma_line_start(text, a);
    lemma_lines_split_at(text, a);
    assert(text.take(p).last() == text[p - 1]);
    assert forall|k: int| 1 <= k < lines(text.take(p)).len() implies not_separator(
        #[trigger] lines(text.take(p))[k],
    ) by {
        assert(lines(text.take(p))[k] == ls[k]);
    }
    assert forall|k: int| 0 <= k < lines(text.skip(p)).len() implies not_separator(
        #[trigger] lines(text.skip(p))[k],
    ) by {
        assert(lines(text.skip(p))[k] == ls[k + a]);
    }
}

/// Putting written lines in before a line keeps both textual guards.
#[verifier::rlimit(50)]
#[verifier::spinoff_prover]
proof fn lemma_inserted_keeps_guards(
    text: Seq<char>,
    path: Seq<char>,
    edited: Seq<char>,
    a: int,
    new: Seq<Seq<char>>,
)
    requires
        spec_guards(text) == Ok::<(), crate::hermes::Refusal>(()),
        !path.contains('\t'),
        no_later_separator(path),
        inserted(text, edited, a, new, path),
    ensures
        spec_guards(edited) == Ok::<(), crate::hermes::Refusal>(()),
{
    let ls = lines(text);
    let j = join_lines(new);
    let nl = seq!['\n'];
    lemma_guards_ok(text);
    lemma_written(new, text, path);
    lemma_newline_lacks_tab();
    lemma_join_ok(new, nl);
    if a < ls.len() {
        lemma_split_ok(text, a as nat);
        let p = line_start(text, a as nat);
        let front = text.take(p);
        let back = text.skip(p);
        assert(edited =~= front + ((j + nl) + back));
        lemma_concat_ok(j + nl, back);
        lemma_concat_ok(front, (j + nl) + back);
        assert(front =~= text.subrange(0, p));
        assert(back =~= text.subrange(p, text.len() as int));
        lemma_subrange_lacks(text, 0, p, '\t');
        lemma_subrange_lacks(text, p, text.len() as int, '\t');
        lemma_concat_lacks(j, nl, '\t');
        lemma_concat_lacks(j + nl, back, '\t');
        lemma_concat_lacks(front, (j + nl) + back, '\t');
    } else if ends_with_newline(text) {
        assert(edited =~= text + (j + nl));
        lemma_concat_ok(text, j + nl);
        lemma_concat_lacks(j, nl, '\t');
        lemma_concat_lacks(text, j + nl, '\t');
    } else {
        assert(text.len() > 0) by {
            if text.len() == 0 {
                assert(ls =~= Seq::<Seq<char>>::empty());
            }
        }
        let q = text + nl;
        assert(edited =~= q + j);
        lemma_push_newline_ok(text);
        assert(new.last() + Seq::<char>::empty() =~= new.last());
        assert(j + Seq::<char>::empty() =~= j);
        lemma_join_ok(new, Seq::empty());
        lemma_concat_ok(q, j);
        lemma_concat_lacks(text, nl, '\t');
        lemma_concat_lacks(q, j, '\t');
    }
    lemma_guards_ok(edited);
}

/// Replacing the key line by written lines keeps both textual guards.
#[verifier::rlimit(50)]
#[verifier::spinoff_prover]
proof fn lemma_replaced_keeps_guards(
    text: Seq<char>,
    path: Seq<char>,
    edited: Seq<char>,
    a: int,
    new: Seq<Seq<char>>,
)
    requires
        spec_guards(text) == Ok::<(), crate::hermes::Refusal>(()),
        !path.contains('\t'),
        no_later_separator(path),
        replaced(text, edited, a, new, path),
    ensures
        spec_guards(edited) == Ok::<(), crate::hermes::Refusal>(()),
{
    let ls = lines(text);
    let j = join_lines(new);
    let nl = seq!['\n'];
    lemma_guards_ok(text);
    lemma_written(new, text, path);
    lemma_newline_lacks_tab();
    lemma_split_ok(text, a as nat);
    let p = line_start(text, a as nat);
    lemma_line_start(text, a as nat);
    lemma_find_from(text, '\n', p);
    let e = find_from(text, '\n', p);
    let raw = text.subrange(p, e);
    let q = p + ls[a].len();
    let front = text.take(p);
    assert(front =~= text.subrange(0, p));
    lemma_subrange_lacks(text, 0, p, '\t');
    if e < text.len() {
        let x = text.subrange(q, e);
        let last = new.last();
        let n2 = new.update(new.len() - 1, last + x);
        lemma_join_extend_last(new, x);
        if raw.len() > 0 && raw.last() == '\r' {
            assert(x =~= seq!['\r']);
            assert((last + x) + nl =~= last + seq!['\r', '\n']);
        } else {
            assert(x =~= Seq::<char>::empty());
            assert(last + x =~= last);
        }
        assert forall|m: int| 0 <= m < x.len() implies x[m] != '\t' by {
            assert(x[m] == text[q + m]);
            assert(text.contains(text[q + m]));
        }
        lemma_concat_lacks(last, x, '\t');
        let rest = text.skip(e + 1);
        assert(text.skip(q) =~= x + nl + rest);
        assert(edited =~= front + ((join_lines(n2) + nl) + rest));
        assert forall|k: int| #![trigger n2[k]] 0 <= k < n2.len() - 1 implies no_separator_line(
            n2[k] + nl,
        ) by {
            assert(n2[k] == new[k]);
        }
        lemma_join_ok(n2, nl);
        lemma_lines_rest(text, e + 1);
        assert forall|k: int| 0 <= k < lines(rest).len() implies not_separator(
            #[trigger] lines(rest)[k],
        ) by {
            assert(lines(rest)[k] == ls[k + a + 1]);
        }
        lemma_concat_ok(join_lines(n2) + nl, rest);
        lemma_concat_ok(front, (join_lines(n2) + nl) + rest);
        assert forall|k: int| 0 <= k < n2.len() implies !(#[trigger] n2[k]).contains('\t') by {
            if k < n2.len() - 1 {
                assert(n2[k] == new[k]);
            }
        }
        lemma_join_lacks(n2, '\t');
        assert(rest =~= text.subrange(e + 1, text.len() as int));
        lemma_subrange_lacks(text, e + 1, text.len() as int, '\t');
        lemma_concat_lacks(join_lines(n2), nl, '\t');
        lemma_concat_lacks(join_lines(n2) + nl, rest, '\t');
        lemma_concat_lacks(front, (join_lines(n2) + nl) + rest, '\t');
    } else {
        assert(q == text.len());
        assert(edited =~= front + j);
        assert(new.last() + Seq::<char>::empty() =~= new.last());
        assert(j + Seq::<char>::empty() =~= j);
        lemma_join_ok(new, Seq::empty());
        lemma_concat_ok(front, j);
        lemma_concat_lacks(front, j, '\t');
    }
    lemma_guards_ok(edited);
}

/// An edit keeps both textual guards: it adds no tab character and no
/// document separator, provided the path holds no tab and no line of it after
/// the first is a separator.
proof fn lemma_insert_keeps_guards(text: Seq<char>, path: Seq<char>, edited: Seq<char>)
    requires
        spec_guards(text) == Ok::<(), crate::hermes::Refusal>(()),
        spec_insert(text, path) == Ok::<Seq<char>, crate::hermes::Refusal>(edited),
        !path.contains('\t'),
        no_later_separator(path),
    ensures
        spec_guards(edited) == Ok::<(), crate::hermes::Refusal>(()),
{
    lemma_insert_cases(text, path, edited);
    if edited == spec_append_block(text, path) && spec_find_block(lines(text), skills_name()) is None {
        lemma_append_keeps_guards(text, path);
    } else if exists|a: int, new: Seq<Seq<char>>| inserted(text, edited, a, new, path) {
        let (a, new) = choose|a: int, new: Seq<Seq<char>>| inserted(text, edited, a, new, path);
        lemma_inserted_keeps_guards(text, path, edited, a, new);
    } else {
        let (a, new) = choose|a: int, new: Seq<Seq<char>>| replaced(text, edited, a, new, path);
        lemma_replaced_keeps_guards(text, path, edited, a, new);
    }
}

/// Adding a directory is idempotent: once an edit has added `path`, adding it
/// again to the edited document changes nothing. This holds for every path
/// without a tab none of whose lines after the first trims at its end to
/// `---`; a path with a tab, or with such a line, would put that tab or that
/// document separator into the edited document, and the second run refuses
/// it.
pub proof fn lemma_add_is_idempotent(text: Seq<char>, path: Seq<char>, edited: Seq<char>)
    requires
        spec_add_external_dir(text, path) == Ok::<_, crate::hermes::Refusal>(Some(edited)),
        !path.contains('\t'),
        no_later_separator(path),
    ensures
        spec_add_external_dir(edited, path) == Ok::<_, crate::hermes::Refusal>(None::<Seq<char>>),
{
    assert(spec_guards(text) == Ok::<(), crate::hermes::Refusal>(()));
    assert(spec_insert(text, path) == Ok::<Seq<char>, crate::hermes::Refusal>(edited));
    assert(spec_verify(text, edited, path) == Ok::<(), crate::hermes::Refusal>(()));
    lemma_insert_keeps_guards(text, path, edited);
}

/// Every edit handed back has been verified: both documents parse, the path
/// was not listed before and is listed after, and putting the original's
/// `skills.external_dirs` back into the edited document gives a document equal
/// to the original.
pub proof fn lemma_edit_is_verified(text: Seq<char>, path: Seq<char>, edited: Seq<char>)
    requires
        spec_add_external_dir(text, path) == Ok::<_, crate::hermes::Refusal>(Some(edited)),
    ensures
        spec_verify(text, edited, path) == Ok::<(), crate::hermes::Refusal>(()),
        spec_external_dirs(text) matches Ok(before) && !before.contains(path),
        spec_external_dirs(edited) matches Ok(after) && after.contains(path),
        spec_parse_root(text) matches Ok(old) && spec_parse_root(edited) matches Ok(new)
            && entries_eq(spec_revert(new, old), old),
{
}

/// An edit rewrites only what it must: the edited document is the original
/// with one stretch `[p, q)` replaced, where the stretch is empty or is the
/// content of the `external_dirs` key line. Every other byte, each line's own
/// ending included, is kept, so every comment survives byte for byte. Whether
/// the document ended in a newline is carried through, for a path that does
/// not itself end in one.
#[verifier::rlimit(50)]
#[verifier::spinoff_prover]
pub proof fn lemma_edit_keeps_other_lines(text: Seq<char>, path: Seq<char>, edited: Seq<char>)
    requires
        spec_add_external_dir(text, path) == Ok::<_, crate::hermes::Refusal>(Some(edited)),
    ensures
        exists|p: int, q: int, mid: Seq<char>| kept_apart(text, edited, p, q, mid),
        !ends_with_newline(path) ==> (ends_with_newline(edited) == ends_with_newline(text)),
{
    assert(spec_insert(text, path) == Ok::<Seq<char>, crate::hermes::Refusal>(edited));
    lemma_insert_cases(text, path, edited);
    let ls = lines(text);
    let n = text.len() as int;
    if edited == spec_append_block(text, path) && spec_find_block(ls, skills_name()) is None {
        let t = ends_with_newline(text);
        let head = if text.len() == 0 {
            text
        } else if t {
            text + seq!['\n']
        } else {
            text + seq!['\n', '\n']
        };
        let b = block_text(path, t);
        let blk = skills_name() + seq![':', '\n'] + spaces(2) + dirs_name() + seq![':', '\n']
            + spec_item(4, path);
        if t {
            assert(edited =~= head + b);
        } else {
            assert(edited =~= head + blk);
            assert(b == blk);
        }
        assert(edited.take(n) =~= text);
        assert(edited =~= text.take(n) + edited.skip(n) + text.skip(n));
        assert(kept_apart(text, edited, n, n, edited.skip(n)));
        if !ends_with_newline(path) && !t {
            let it = spec_item(4, path);
            lemma_item_written(4, path, text);
            assert(edited.last() == it.last());
        }
    } else if exists|a: int, new: Seq<Seq<char>>| inserted(text, edited, a, new, path) {
        let (a, new) = choose|a: int, new: Seq<Seq<char>>| inserted(text, edited, a, new, path);
        let j = join_lines(new);
        lemma_join_extend_last(new, Seq::empty());
        assert(written_line(new.last(), text, path));
        if a < ls.len() {
            let p = line_start(text, a as nat);
            lemma_line_start(text, a as nat);
            assert(edited =~= text.take(p) + (j + seq!['\n']) + text.skip(p));
            assert(kept_apart(text, edited, p, p, j + seq!['\n']));
            let rest = text.skip(p);
            assert(rest.len() > 0);
            assert(edited =~= (text.take(p) + j + seq!['\n']) + rest);
            assert(edited.last() == rest.last());
            assert(rest.last() == text.last());
        } else if ends_with_newline(text) {
            assert(edited =~= text.take(n) + (j + seq!['\n']) + text.skip(n));
            assert(kept_apart(text, edited, n, n, j + seq!['\n']));
        } else {
            assert(edited =~= text.take(n) + (seq!['\n'] + j) + text.skip(n));
            assert(kept_apart(text, edited, n, n, seq!['\n'] + j));
            if !ends_with_newline(path) {
                assert(edited.last() == j.last());
            }
        }
    } else {
        let (a, new) = choose|a: int, new: Seq<Seq<char>>| replaced(text, edited, a, new, path);
        let j = join_lines(new);
        lemma_join_extend_last(new, Seq::empty());
        assert(written_line(new.last(), text, path));
        let p = line_start(text, a as nat);
        lemma_line_start(text, a as nat);
        lemma_lines_no_newline(text);
        lemma_find_from(text, '\n', p);
        let e = find_from(text, '\n', p);
        let q = p + ls[a].len();
        assert(text.subrange(p, q) =~= ls[a]);
        assert(edited =~= text.take(p) + j + text.skip(q));
        assert(kept_apart(text, edited, p, q, j));
        if q < n {
            assert(edited.last() == text.last());
        } else {
            assert(text.last() == text[n - 1]);
            if !ends_with_newline(path) {
                assert(edited.last() == j.last());
            }
        }
    }
}

/// Refusals are those of `external_dirs`: once the textual guards pass, a
/// document `external_dirs` cannot read is refused for the same reason, and
/// the edit is skipped exactly when `external_dirs` already lists the path.
pub proof fn lemma_add_agrees_with_external_dirs(text: Seq<char>, path: Seq<char>)
    requires
        spec_guards(text) == Ok::<(), crate::hermes::Refusal>(()),
    ensures
        spec_external_dirs(text) matches Err(e) ==> spec_add_external_dir(text, path) == Err::<
            Option<Seq<char>>,
            _,
        >(e),
        spec_external_dirs(text) matches Ok(dirs) ==> (dirs.contains(path)
            <==> spec_add_external_dir(text, path) == Ok::<_, crate::hermes::Refusal>(
            None::<Seq<char>>,
        )),
{
}

/// `s` ends with `t`.
pub open spec fn ends_with(s: Seq<char>, t: Seq<char>) -> bool {
    t.len() <= s.len() && s.skip(s.len() - t.len()) == t
}

proof fn lemma_ends_with_concat(a: Seq<char>, b: Seq<char>, t: Seq<char>)
    requires
        ends_with(b, t),
    ensures
        ends_with(a + b, t),
{
    assert((a + b).skip((a + b).len() - t.len()) =~= b.skip(b.len() - t.len()));
}

/// Every refusal about the document names the remedy, editing the file by
/// hand; every refusal of an edit that failed verification asks for a bug
/// report instead.
pub proof fn lemma_refusals_name_the_remedy(e: HermesError)
    ensures
        !(e is PathNotAdded || e is ChangedMoreThanKey) ==> ends_with(
            message_of(e),
            "; edit the file by hand"@,
        ),
        (e is PathNotAdded || e is ChangedMoreThanKey) ==> ends_with(
            message_of(e),
            " (this is a bug; please report it)"@,
        ),
{
    let remedy = "; edit the file by hand"@;
    reveal_strlit("; edit the file by hand");
    reveal_strlit(" (this is a bug; please report it)");
    assert(remedy.skip(0) =~= remedy);
    match e {
        HermesError::InvalidYaml(m) => {
            lemma_ends_with_concat("not valid YAML: "@ + m@, remedy, remedy);
        },
        HermesError::RootNotMapping => {
            reveal_strlit("the document root is not a mapping; edit the file by hand");
            assert(message_of(e).skip(message_of(e).len() - 23) =~= remedy);
        },
        HermesError::SkillsNotMapping => {
            reveal_strlit("`skills` is not a mapping; edit the file by hand");
            assert(message_of(e).skip(message_of(e).len() - 23) =~= remedy);
        },
        HermesError::DirsNotSequence => {
            reveal_strlit("`skills.external_dirs` is not a sequence; edit the file by hand");
            assert(message_of(e).skip(message_of(e).len() - 23) =~= remedy);
        },
        HermesError::NonStringEntry => {
            reveal_strlit(
                "`skills.external_dirs` contains a non-string entry; edit the file by hand",
            );
            assert(message_of(e).skip(message_of(e).len() - 23) =~= remedy);
        },
        HermesError::TabCharacter => {
            reveal_strlit("the file contains a tab character; edit the file by hand");
            assert(message_of(e).skip(message_of(e).len() - 23) =~= remedy);
        },
        HermesError::SecondDocument => {
            reveal_strlit("the file holds more than one YAML document; edit the file by hand");
            assert(message_of(e).skip(message_of(e).len() - 23) =~= remedy);
        },
        HermesError::SkillsNotPlainBlock => {
            reveal_strlit(
                "`skills` is not written as a plain top-level block; edit the file by hand",
            );
            assert(message_of(e).skip(message_of(e).len() - 23) =~= remedy);
        },
        HermesError::UnsupportedDirsValue(v) => {
            let tail = "`, which this tool will not rewrite; edit the file by hand"@;
            reveal_strlit("`, which this tool will not rewrite; edit the file by hand");
            assert(tail.skip(tail.len() - 23) =~= remedy);
            lemma_ends_with_concat("`skills.external_dirs` is written as `"@ + v@, tail, remedy);
        },
        HermesError::PathNotAdded(p) => {
            let tail = " (this is a bug; please report it)"@;
            assert(tail.skip(0) =~= tail);
            lemma_ends_with_concat("refusing to write: the edit did not add "@ + p@, tail, tail);
        },
        HermesError::ChangedMoreThanKey => {
            reveal_strlit(
                "refusing to write: the edit changed more than skills.external_dirs (this is a bug; please report it)",
            );
            assert(message_of(e).skip(message_of(e).len() - 34) =~= " (this is a bug; please report it)"@);
        },
    }
}

/// `old` with `skills.external_dirs` set to `v`: replaced in place, or added
/// last, in an existing `skills` mapping, or, without `skills`, in a new
/// `skills` mapping of that one key, added last.
pub open spec fn set_external_dirs(old: Seq<(YamlV, YamlV)>, v: YamlV) -> Seq<(YamlV, YamlV)> {
    match map_find(old, skills_name()) {
        Some(i) => match old[i].1 {
            YamlV::Mapping(sk) => old.update(
                i,
                (old[i].0, YamlV::Mapping(map_insert(sk, dirs_name(), v))),
            ),
            _ => old,
        },
        None => old.push(
            (YamlV::Str(skills_name()), YamlV::Mapping(seq![(YamlV::Str(dirs_name()), v)])),
        ),
    }
}

/// Reverting undoes a one-key edit: setting `skills.external_dirs` and then
/// putting the old value back, or taking the key, and a `skills` created for
/// it, away again, gives back exactly the old mapping. `skills`, where it
/// exists, is an untagged mapping, the only shape an edit is made in.
pub proof fn lemma_revert_undoes_one_key_edit(old: Seq<(YamlV, YamlV)>, v: YamlV)
    requires
        map_find(old, skills_name()) matches Some(i) ==> old[i].1 is Mapping,
    ensures
        spec_revert(set_external_dirs(old, v), old) == old,
{
    let new = set_external_dirs(old, v);
    crate::yaml::lemma_find_from(old, skills_name(), 0);
    match map_find(old, skills_name()) {
        None => {
            let e = (YamlV::Str(skills_name()), YamlV::Mapping(seq![(YamlV::Str(dirs_name()), v)]));
            lemma_find_push(old, e, skills_name(), 0);
            let i = old.len() as int;
            assert(map_find(new, skills_name()) == Some(i));
            let ns = seq![(YamlV::Str(dirs_name()), v)];
            assert(map_find(ns, dirs_name()) == Some(0int));
            assert(map_remove(ns, dirs_name()) =~= Seq::<(YamlV, YamlV)>::empty());
            let updated = new.update(i, (new[i].0, YamlV::Mapping(Seq::empty())));
            lemma_find_same_keys(updated, new, skills_name(), 0);
            assert(map_remove(updated, skills_name()) =~= old);
        },
        Some(i) => {
            let sk = old[i].1->Mapping_0;
            let ns = map_insert(sk, dirs_name(), v);
            assert(new == old.update(i, (old[i].0, YamlV::Mapping(ns))));
            lemma_find_same_keys(new, old, skills_name(), 0);
            crate::yaml::lemma_find_from(sk, dirs_name(), 0);
            match map_find(sk, dirs_name()) {
                Some(j) => {
                    assert(ns == sk.update(j, (sk[j].0, v)));
                    lemma_find_same_keys(ns, sk, dirs_name(), 0);
                    assert(map_insert(ns, dirs_name(), sk[j].1) =~= sk);
                },
                None => {
                    let d = (YamlV::Str(dirs_name()), v);
                    assert(ns == sk.push(d));
                    lemma_find_push(sk, d, dirs_name(), 0);
                    assert(map_remove(ns, dirs_name()) =~= sk);
                },
            }
            assert(new.update(i, (new[i].0, YamlV::Mapping(sk))) =~= old);
        },
    }
}

/// `new` is `old` with `skills.external_dirs` set to `v`, the key put in at
/// any position: its value replaced in place where `skills` already holds the
/// key; the key put in at position `q` of an untagged `skills` mapping that
/// lacks it; or, where `old` has no `skills`, a `skills` mapping of that one
/// key put in at position `q` of `old`.
pub open spec fn dirs_set_at(
    old: Seq<(YamlV, YamlV)>,
    new: Seq<(YamlV, YamlV)>,
    v: YamlV,
    q: int,
) -> bool {
    match map_find(old, skills_name()) {
        Some(i) => match old[i].1 {
            YamlV::Mapping(sk) => match map_find(sk, dirs_name()) {
                Some(j) => new == old.update(
                    i,
                    (old[i].0, YamlV::Mapping(sk.update(j, (sk[j].0, v)))),
                ),
                None => 0 <= q <= sk.len() && new == old.update(
                    i,
                    (old[i].0, YamlV::Mapping(sk.insert(q, (YamlV::Str(dirs_name()), v)))),
                ),
            },
            _ => false,
        },
        None => 0 <= q <= old.len() && new == old.insert(
            q,
            (YamlV::Str(skills_name()), YamlV::Mapping(seq![(YamlV::Str(dirs_name()), v)])),
        ),
    }
}

/// Reverting undoes a one-key edit wherever the edit put the key: setting
/// `skills.external_dirs` at any position and then putting the old value
/// back, or taking the key, and a `skills` created for it, away again, gives
/// a mapping deeply equal to the old one, as `Value`'s `==` compares
/// mappings: the same entries, in an order that may differ.
pub proof fn lemma_revert_undoes_key_edit_anywhere(
    old: Seq<(YamlV, YamlV)>,
    new: Seq<(YamlV, YamlV)>,
    v: YamlV,
    q: int,
)
    requires
        dirs_set_at(old, new, v, q),
    ensures
        entries_eq(spec_revert(new, old), old),
{
    crate::yaml::lemma_find_from(old, skills_name(), 0);
    match map_find(old, skills_name()) {
        None => {
            let e = (YamlV::Str(skills_name()), YamlV::Mapping(seq![(YamlV::Str(dirs_name()), v)]));
            old.insert_ensures(q, e);
            lemma_find_none(old, skills_name(), 0);
            assert forall|k: int| 0 <= k < q implies (#[trigger] new[k]).0 != YamlV::Str(
                skills_name(),
            ) by {
                assert(new[k] == old[k]);
            }
            lemma_find_first(new, skills_name(), 0, q);
            let ns = seq![(YamlV::Str(dirs_name()), v)];
            assert(map_find(ns, dirs_name()) == Some(0int));
            assert(map_remove(ns, dirs_name()) =~= Seq::<(YamlV, YamlV)>::empty());
            let e2 = (YamlV::Str(skills_name()), YamlV::Mapping(Seq::empty()));
            let updated = new.update(q, (new[q].0, YamlV::Mapping(Seq::empty())));
            assert(updated =~= old.insert(q, e2));
            lemma_remove_inserted(old, q, e2, skills_name());
        },
        Some(i) => {
            let sk = old[i].1->Mapping_0;
            lemma_find_same_keys(new, old, skills_name(), 0);
            crate::yaml::lemma_find_from(sk, dirs_name(), 0);
            match map_find(sk, dirs_name()) {
                Some(j) => {
                    let ns = sk.update(j, (sk[j].0, v));
                    lemma_find_same_keys(ns, sk, dirs_name(), 0);
                    assert(map_insert(ns, dirs_name(), sk[j].1) =~= sk);
                    assert(new.update(i, (new[i].0, YamlV::Mapping(sk))) =~= old);
                    lemma_yaml_eq_refl(YamlV::Mapping(old));
                },
                None => {
                    let d = (YamlV::Str(dirs_name()), v);
                    lemma_remove_inserted(sk, q, d, dirs_name());
                    let ns2 = map_remove(sk.insert(q, d), dirs_name());
                    let updated = old.update(i, (old[i].0, YamlV::Mapping(ns2)));
                    assert(spec_revert(new, old) == updated);
                    assert forall|k: int| 0 <= k < updated.len() implies has_entry(
                        old,
                        #[trigger] updated[k],
                    ) by {
                        if k == i {
                            lemma_yaml_eq_refl(old[i].0);
                            assert(old[i].1 == YamlV::Mapping(sk));
                            assert(yaml_eq(YamlV::Mapping(ns2), old[i].1));
                        } else {
                            assert(updated[k] == old[k]);
                            lemma_entry_refl(old[k]);
                        }
                    }
                },
            }
        },
    }
}

/// The `external_dirs` key line of the `skills` block of `text`, written with
/// nothing after its colon but an optional comment, and the indentation of
/// the block's children.
pub open spec fn list_key(text: Seq<char>) -> Option<(int, nat)> {
    let ls = lines(text);
    match spec_find_block(ls, skills_name()) {
        Some((key, end)) => {
            let indent = spec_child_indent(ls, key, end);
            match spec_find_child_key(ls, key, end, indent, dirs_name()) {
                Some(at) => if trim(
                    spec_split_comment(spec_value_after_key(ls[at], dirs_name())).0,
                ).len() == 0 {
                    Some((at, indent))
                } else {
                    None
                },
                None => None,
            }
        },
        None => None,
    }
}

/// Line `m` of `ls` is an item of the sequence under the key line `at`: a
/// line starting with `-` below the key, with no line between ending the
/// key's block.
pub open spec fn list_item(ls: Seq<Seq<char>>, at: int, indent: nat, m: int) -> bool {
    &&& at < m < ls.len()
    &&& is_dash(ls[m])
    &&& forall|o: int| at < o <= m ==> !is_outdented(#[trigger] ls[o], indent)
}

/// A new item goes after every existing item: when the `external_dirs` list
/// already has an item, the edit puts one line, the item for `path`, in
/// before some line `a`, and every item of the list lies before `a`, so the
/// existing items keep their order and the new one follows them all.
#[verifier::rlimit(50)]
#[verifier::spinoff_prover]
pub proof fn lemma_new_item_follows_every_item(text: Seq<char>, path: Seq<char>, edited: Seq<char>)
    requires
        spec_add_external_dir(text, path) == Ok::<_, crate::hermes::Refusal>(Some(edited)),
    ensures
        forall|at: int, indent: nat, m: int|
            list_key(text) == Some((at, indent)) && #[trigger] list_item(lines(text), at, indent, m)
                ==> exists|a: int, i: nat|
                m < a && edited == crate::hermes::insert_lines(text, a, seq![spec_item(i, path)])
                    && forall|m2: int| list_item(lines(text), at, indent, m2) ==> m2 < a,
{
    let ls = lines(text);
    assert(spec_insert(text, path) == Ok::<Seq<char>, crate::hermes::Refusal>(edited));
    assert forall|at: int, indent: nat, m: int|
        list_key(text) == Some((at, indent)) && #[trigger] list_item(ls, at, indent, m) implies exists|
        a: int,
        i: nat,
    |
        m < a && edited == crate::hermes::insert_lines(text, a, seq![spec_item(i, path)])
            && forall|m2: int| list_item(ls, at, indent, m2) ==> m2 < a by {
        lemma_find_block(ls, skills_name());
        let (key, end) = spec_find_block(ls, skills_name())->0;
        lemma_first_from(ls, child_key(indent, dirs_name()), key + 1, end);
        let v = trim(spec_split_comment(spec_value_after_key(ls[at], dirs_name())).0);
        assert(v.len() == 0);
        assert(v != empty_flow());
        assert(0 <= at < ls.len());
        lemma_last_item_is_last(ls, at, indent);
        match spec_last_item(ls, at, indent) {
            Some((last, item_indent)) => {
                assert(spec_insert_into_block(text, key, end, path) == Ok::<
                    Seq<char>,
                    crate::hermes::Refusal,
                >(crate::hermes::insert_lines(text, last + 1, seq![spec_item(item_indent, path)])));
                assert forall|m2: int| list_item(ls, at, indent, m2) implies m2 < last + 1 by {
                    if m2 > last {
                        assert(is_content(ls[m2]));
                        let o = choose|o: int|
                            #![trigger is_outdented(ls[o], indent)]
                            last < o <= m2 && is_outdented(ls[o], indent);
                        assert(!is_outdented(ls[o], indent));
                    }
                }
            },
            None => {
                let o = choose|o: int|
                    #![trigger is_outdented(ls[o], indent)]
                    at < o <= m && is_outdented(ls[o], indent);
                assert(!is_outdented(ls[o], indent));
            },
        }
    }
}

} // verus!

//! The line scanner: locating a top-level key's block, the indentation of its
//! children, a child key, the value after a key, and the last item of a block
//! sequence. It reads lines of text and never the parse tree.
use vstd::prelude::*;
use crate::text::{
    find_char, find_from, has_prefix_then, indent_bytes, indent_of, is_whitespace, is_ws, lead,
    lead_of, lemma_subrange_lacks, lemma_utf8_len_subrange, lemma_ws_end, push_all, push_spaces,
    slice, spaces, starts_with, trim, trim_start, trimmed, utf8_len, views,
};

verus! {

/// Lines no longer, in bytes, than a `str` can be.
pub open spec fn fits(ls: Seq<Seq<char>>) -> bool {
    forall|k: int| 0 <= k < ls.len() ==> utf8_len(#[trigger] ls[k]) <= isize::MAX
}

/// The first index in `[i, end)` whose line satisfies `p`.
pub open spec fn first_from(
    ls: Seq<Seq<char>>,
    p: spec_fn(Seq<char>) -> bool,
    i: int,
    end: int,
) -> Option<int>
    decreases end - i,
{
    if i >= end {
        None
    } else if p(ls[i]) {
        Some(i)
    } else {
        first_from(ls, p, i + 1, end)
    }
}

pub proof fn lemma_first_from(ls: Seq<Seq<char>>, p: spec_fn(Seq<char>) -> bool, i: int, end: int)
    ensures
        first_from(ls, p, i, end) matches Some(k) ==> i <= k < end && p(ls[k]) && forall|m: int|
            i <= m < k ==> !p(#[trigger] ls[m]),
        first_from(ls, p, i, end) is None ==> forall|m: int| i <= m < end ==> !p(#[trigger] ls[m]),
    decreases end - i,
{
    if i < end && !p(ls[i]) {
        lemma_first_from(ls, p, i + 1, end);
    }
}

/// Extending the range by one line.
pub proof fn lemma_first_from_extend(
    ls: Seq<Seq<char>>,
    p: spec_fn(Seq<char>) -> bool,
    i: int,
    k: int,
)
    requires
        i <= k,
    ensures
        first_from(ls, p, i, k + 1) == (match first_from(ls, p, i, k) {
            Some(x) => Some(x),
            None => if p(ls[k]) {
                Some(k)
            } else {
                None
            },
        }),
    decreases k - i,
{
    reveal_with_fuel(first_from, 2);
    if i < k && !p(ls[i]) {
        lemma_first_from_extend(ls, p, i + 1, k);
    }
}

/// The last index in `[lo, hi)` whose line satisfies `p`.
pub open spec fn last_from(
    ls: Seq<Seq<char>>,
    p: spec_fn(Seq<char>) -> bool,
    lo: int,
    hi: int,
) -> Option<int>
    decreases hi - lo,
{
    if hi <= lo {
        None
    } else if p(ls[hi - 1]) {
        Some(hi - 1)
    } else {
        last_from(ls, p, lo, hi - 1)
    }
}

/// A line with something other than whitespace and a comment on it.
pub open spec fn is_content(line: Seq<char>) -> bool {
    trim_start(line).len() > 0 && trim_start(line)[0] != '#'
}

pub open spec fn content() -> spec_fn(Seq<char>) -> bool {
    |line: Seq<char>| is_content(line)
}

/// A content line at column zero: the start of the next top-level key.
pub open spec fn is_top_level_content(line: Seq<char>) -> bool {
    is_content(line) && !(line.len() > 0 && is_ws(line[0]))
}

pub open spec fn top_level_content() -> spec_fn(Seq<char>) -> bool {
    |line: Seq<char>| is_top_level_content(line)
}

/// `line` is the top-level key `name` with nothing after the colon but an
/// optional comment.
pub open spec fn is_top_level_key(line: Seq<char>, name: Seq<char>) -> bool {
    &&& has_prefix_then(line, name, ':')
    &&& ({
        let rest = trim(line.skip(name.len() + 1 as int));
        rest.len() == 0 || rest[0] == '#'
    })
}

pub open spec fn top_level_key(name: Seq<char>) -> spec_fn(Seq<char>) -> bool {
    |line: Seq<char>| is_top_level_key(line, name)
}

/// A child key `name` at exactly `indent` bytes of indentation.
pub open spec fn is_child_key(line: Seq<char>, indent: nat, name: Seq<char>) -> bool {
    indent_of(line) == indent && has_prefix_then(trim_start(line), name, ':')
}

pub open spec fn child_key(indent: nat, name: Seq<char>) -> spec_fn(Seq<char>) -> bool {
    |line: Seq<char>| is_child_key(line, indent, name)
}

/// A content line indented no deeper than `indent`: the end of a key's items.
pub open spec fn is_outdented(line: Seq<char>, indent: nat) -> bool {
    is_content(line) && indent_of(line) <= indent
}

pub open spec fn outdented(indent: nat) -> spec_fn(Seq<char>) -> bool {
    |line: Seq<char>| is_outdented(line, indent)
}

/// A content line that starts a sequence item.
pub open spec fn is_dash(line: Seq<char>) -> bool {
    trim_start(line).len() > 0 && trim_start(line)[0] == '-'
}

pub open spec fn dash() -> spec_fn(Seq<char>) -> bool {
    |line: Seq<char>| is_dash(line)
}

/// The key line of the top-level block `name`, and the exclusive end of the
/// lines beneath it.
pub open spec fn spec_find_block(ls: Seq<Seq<char>>, name: Seq<char>) -> Option<(int, int)> {
    match first_from(ls, top_level_key(name), 0, ls.len() as int) {
        Some(head) => Some(
            (
                head,
                match first_from(ls, top_level_content(), head + 1, ls.len() as int) {
                    Some(e) => e,
                    None => ls.len() as int,
                },
            ),
        ),
        None => None,
    }
}

/// Indentation of a block's direct children: that of its first content line,
/// or two spaces when it has none.
pub open spec fn spec_child_indent(ls: Seq<Seq<char>>, key: int, end: int) -> nat {
    match first_from(ls, content(), key + 1, end) {
        Some(k) => indent_of(ls[k]),
        None => 2,
    }
}

/// The line of the direct child key `name` of the block.
pub open spec fn spec_find_child_key(
    ls: Seq<Seq<char>>,
    key: int,
    end: int,
    indent: nat,
    name: Seq<char>,
) -> Option<int> {
    first_from(ls, child_key(indent, name), key + 1, end)
}

/// Whatever follows `name:` on the line, comment included.
pub open spec fn spec_value_after_key(line: Seq<char>, name: Seq<char>) -> Seq<char> {
    let t = trim_start(line);
    if has_prefix_then(t, name, ':') {
        t.skip(name.len() + 1 as int)
    } else {
        Seq::empty()
    }
}

/// A value split at its first `#`.
pub open spec fn spec_split_comment(value: Seq<char>) -> (Seq<char>, Seq<char>) {
    let at = find_from(value, '#', 0);
    (value.take(at), value.skip(at))
}

/// The last content line of the sequence under the key at `at`, and the
/// indentation of its first item: `None` when the key has no items.
pub open spec fn spec_last_item(ls: Seq<Seq<char>>, at: int, key_indent: nat) -> Option<(int, nat)> {
    let hi = match first_from(ls, outdented(key_indent), at + 1, ls.len() as int) {
        Some(k) => k,
        None => ls.len() as int,
    };
    match (last_from(ls, content(), at + 1, hi), first_from(ls, dash(), at + 1, hi)) {
        (Some(last), Some(d)) => Some((last, indent_of(ls[d]))),
        _ => None,
    }
}

/// One sequence item line: `indent` spaces, a dash, a space, and the path.
pub open spec fn spec_item(indent: nat, path: Seq<char>) -> Seq<char> {
    spaces(indent) + seq!['-', ' '] + path
}

/// The extent of a top-level key's block: the key's own line, and the
/// exclusive end of the lines beneath it.
pub struct Block {
    pub key: usize,
    pub end: usize,
}

fn is_content_line(line: &Vec<char>) -> (r: bool)
    ensures
        r == is_content(line@),
{
    let a = lead_of(line);
    assert(trim_start(line@) =~= line@.skip(a as int));
    a < line.len() && line[a] != '#'
}

fn is_top_level_content_line(line: &Vec<char>) -> (r: bool)
    ensures
        r == is_top_level_content(line@),
{
    is_content_line(line) && !(line.len() > 0 && is_whitespace(line[0]))
}

/// `line` is the top-level key `name` with nothing but an optional comment
/// after the colon. Matching the raw line is what enforces column zero, and
/// refusing a value after the colon keeps a flow mapping out of the scanner.
pub fn is_top_level_key_line(line: &Vec<char>, name: &Vec<char>) -> (r: bool)
    ensures
        r == is_top_level_key(line@, name@),
{
    if !(starts_with(line, name) && name.len() < line.len() && line[name.len()] == ':') {
        return false;
    }
    let rest = slice(line, name.len() + 1, line.len());
    assert(rest@ =~= line@.skip(name@.len() + 1 as int));
    let t = trimmed(&rest);
    t.len() == 0 || t[0] == '#'
}

/// Locates a top-level key and the block beneath it. The block ends at the
/// next line that is non-empty, not a comment, and has zero indentation.
pub fn find_top_level_block(lines: &Vec<Vec<char>>, name: &Vec<char>) -> (r: Option<Block>)
    ensures
        match r {
            Some(b) => spec_find_block(views(lines@), name@) == Some((b.key as int, b.end as int)),
            None => spec_find_block(views(lines@), name@) is None,
        },
        r matches Some(b) ==> b.key < b.end <= lines@.len(),
{
    let ghost ls = views(lines@);
    let n = lines.len();
    let mut head: usize = 0;
    while head < n && !is_top_level_key_line(&lines[head], name)
        invariant
            n == lines@.len(),
            ls == views(lines@),
            0 <= head <= n,
            first_from(ls, top_level_key(name@), 0, n as int) == first_from(
                ls,
                top_level_key(name@),
                head as int,
                n as int,
            ),
        decreases n - head,
    {
        head = head + 1;
    }
    if head == n {
        return None;
    }
    let mut end: usize = head + 1;
    while end < n && !is_top_level_content_line(&lines[end])
        invariant
            n == lines@.len(),
            ls == views(lines@),
            head < end <= n,
            first_from(ls, top_level_content(), head + 1, n as int) == first_from(
                ls,
                top_level_content(),
                end as int,
                n as int,
            ),
        decreases n - end,
    {
        end = end + 1;
    }
    Some(Block { key: head, end })
}

/// The indentation of a block's direct children, taken from the first line
/// that has any rather than assumed to be two spaces.
pub fn child_indent(lines: &Vec<Vec<char>>, block: &Block) -> (r: usize)
    requires
        block.key < block.end <= lines@.len(),
        fits(views(lines@)),
    ensures
        r == spec_child_indent(views(lines@), block.key as int, block.end as int),
        r <= isize::MAX,
{
    let ghost ls = views(lines@);
    let mut k: usize = block.key + 1;
    while k < block.end
        invariant
            block.key < k <= block.end <= lines@.len(),
            ls == views(lines@),
            fits(ls),
            first_from(ls, content(), block.key + 1, block.end as int) == first_from(
                ls,
                content(),
                k as int,
                block.end as int,
            ),
        decreases block.end - k,
    {
        if is_content_line(&lines[k]) {
            proof {
                assert(ls[k as int] == lines@[k as int]@);
                lemma_ws_end(ls[k as int], 0);
                lemma_utf8_len_subrange(ls[k as int], 0, lead(ls[k as int]));
                assert(ls[k as int].subrange(0, lead(ls[k as int])) =~= ls[k as int].take(
                    lead(ls[k as int]),
                ));
            }
            return indent_bytes(&lines[k]);
        }
        k = k + 1;
    }
    2
}

/// The line index of a direct child key of `block`. The indentation must match
/// exactly, so a key of the same name nested deeper is not mistaken for it.
pub fn find_child_key(lines: &Vec<Vec<char>>, block: &Block, indent: usize, name: &Vec<char>) -> (r:
    Option<usize>)
    requires
        block.key < block.end <= lines@.len(),
        fits(views(lines@)),
    ensures
        match r {
            Some(at) => spec_find_child_key(
                views(lines@),
                block.key as int,
                block.end as int,
                indent as nat,
                name@,
            ) == Some(at as int),
            None => spec_find_child_key(
                views(lines@),
                block.key as int,
                block.end as int,
                indent as nat,
                name@,
            ) is None,
        },
        r matches Some(at) ==> block.key < at < block.end,
{
    let ghost ls = views(lines@);
    let mut k: usize = block.key + 1;
    while k < block.end
        invariant
            block.key < k <= block.end <= lines@.len(),
            ls == views(lines@),
            fits(ls),
            first_from(ls, child_key(indent as nat, name@), block.key + 1, block.end as int)
                == first_from(ls, child_key(indent as nat, name@), k as int, block.end as int),
        decreases block.end - k,
    {
        let line = &lines[k];
        proof {
            assert(ls[k as int] == line@);
        }
        let a = lead_of(line);
        let t = slice(line, a, line.len());
        assert(t@ =~= trim_start(line@));
        let ib = indent_bytes(line);
        if ib == indent && starts_with(&t, name) && name.len() < t.len() && t[name.len()] == ':' {
            proof {
                lemma_first_from(ls, child_key(indent as nat, name@), k as int, block.end as int);
            }
            return Some(k);
        }
        k = k + 1;
    }
    None
}

/// Whatever follows `name:` on its line, comment included.
pub fn value_after_key(line: &Vec<char>, name: &Vec<char>) -> (r: Vec<char>)
    ensures
        r@ == spec_value_after_key(line@, name@),
{
    let a = lead_of(line);
    let t = slice(line, a, line.len());
    assert(t@ =~= trim_start(line@));
    if starts_with(&t, name) && name.len() < t.len() && t[name.len()] == ':' {
        let r = slice(&t, name.len() + 1, t.len());
        assert(r@ =~= t@.skip(name@.len() + 1 as int));
        r
    } else {
        Vec::new()
    }
}

/// Splits a value from its trailing comment, at the first `#`.
pub fn split_comment(value: &Vec<char>) -> (r: (Vec<char>, Vec<char>))
    ensures
        (r.0@, r.1@) == spec_split_comment(value@),
{
    let at = find_char(value, '#');
    let head = slice(value, 0, at);
    let tail = slice(value, at, value.len());
    assert(head@ =~= value@.take(at as int));
    assert(tail@ =~= value@.skip(at as int));
    (head, tail)
}

/// The index of the last content line of the block sequence under the key at
/// `at`, and the indentation of its items; `None` when the key has no items
/// beneath it. Blank lines and comments are skipped rather than counted, so an
/// insertion lands after the last real item.
pub fn last_item(lines: &Vec<Vec<char>>, at: usize, key_indent: usize) -> (r: Option<(usize, usize)>)
    requires
        at < lines@.len(),
        fits(views(lines@)),
    ensures
        match r {
            Some((l, i)) => spec_last_item(views(lines@), at as int, key_indent as nat) == Some(
                (l as int, i as nat),
            ),
            None => spec_last_item(views(lines@), at as int, key_indent as nat) is None,
        },
        r matches Some((l, i)) ==> at < l < lines@.len() && i <= isize::MAX,
{
    let ghost ls = views(lines@);
    let ghost lo = at + 1;
    let n = lines.len();
    let mut last: Option<usize> = None;
    let mut item_indent: Option<usize> = None;
    let mut k: usize = at + 1;
    while k < n
        invariant
            n == lines@.len(),
            ls == views(lines@),
            fits(ls),
            lo == at + 1,
            lo <= k <= n,
            first_from(ls, outdented(key_indent as nat), lo, n as int) == first_from(
                ls,
                outdented(key_indent as nat),
                k as int,
                n as int,
            ),
            match last {
                Some(l) => last_from(ls, content(), lo, k as int) == Some(l as int) && lo <= l < k,
                None => last_from(ls, content(), lo, k as int) is None,
            },
            match item_indent {
                Some(i) => first_from(ls, dash(), lo, k as int) matches Some(d) && indent_of(ls[d])
                    == i && i <= isize::MAX,
                None => first_from(ls, dash(), lo, k as int) is None,
            },
        ensures
            k < n ==> is_outdented(ls[k as int], key_indent as nat),
        decreases n - k,
    {
        let line = &lines[k];
        proof {
            assert(ls[k as int] == line@);
            lemma_first_from_extend(ls, dash(), lo, k as int);
            lemma_first_from(ls, dash(), lo, k as int);
        }
        if !is_content_line(line) {
            proof {
                assert(!is_dash(line@));
            }
            k = k + 1;
            continue;
        }
        let ind = indent_bytes(line);
        if ind <= key_indent {
            break;
        }
        let a = lead_of(line);
        if item_indent.is_none() && line[a] == '-' {
            item_indent = Some(ind);
            proof {
                lemma_utf8_len_subrange(line@, 0, lead(line@));
                lemma_ws_end(line@, 0);
                assert(line@.subrange(0, lead(line@)) =~= line@.take(lead(line@)));
            }
        }
        last = Some(k);
        k = k + 1;
    }
    proof {
        if k < n {
            assert(outdented(key_indent as nat)(ls[k as int]));
            assert(first_from(ls, outdented(key_indent as nat), k as int, n as int) == Some(k as int));
        } else {
            assert(first_from(ls, outdented(key_indent as nat), k as int, n as int) is None);
        }
    }
    match (last, item_indent) {
        (Some(l), Some(i)) => Some((l, i)),
        _ => None,
    }
}

/// One sequence item line, indented by `indent` spaces.
pub fn item(indent: usize, path: &Vec<char>) -> (r: Vec<char>)
    ensures
        r@ == spec_item(indent as nat, path@),
{
    let mut out: Vec<char> = Vec::new();
    push_spaces(&mut out, indent);
    out.push('-');
    out.push(' ');
    push_all(&mut out, path);
    assert(out@ =~= spec_item(indent as nat, path@));
    out
}

/// What `last_from` finds lies in the range and satisfies the predicate.
pub proof fn lemma_last_from(ls: Seq<Seq<char>>, p: spec_fn(Seq<char>) -> bool, lo: int, hi: int)
    ensures
        last_from(ls, p, lo, hi) matches Some(k) ==> lo <= k < hi && p(ls[k]),
    decreases hi - lo,
{
    if hi > lo && !p(ls[hi - 1]) {
        lemma_last_from(ls, p, lo, hi - 1);
    }
}

/// A block found by `spec_find_block` lies within the lines.
pub proof fn lemma_find_block(ls: Seq<Seq<char>>, name: Seq<char>)
    ensures
        spec_find_block(ls, name) matches Some((key, end)) ==> 0 <= key < end <= ls.len(),
{
    lemma_first_from(ls, top_level_key(name), 0, ls.len() as int);
    if let Some(head) = first_from(ls, top_level_key(name), 0, ls.len() as int) {
        lemma_first_from(ls, top_level_content(), head + 1, ls.len() as int);
    }
}

/// The item found by `spec_last_item` lies after the key and within the lines.
pub proof fn lemma_last_item(ls: Seq<Seq<char>>, at: int, key_indent: nat)
    requires
        0 <= at < ls.len(),
    ensures
        spec_last_item(ls, at, key_indent) matches Some((last, _)) ==> at < last < ls.len(),
{
    lemma_first_from(ls, outdented(key_indent), at + 1, ls.len() as int);
    let hi = match first_from(ls, outdented(key_indent), at + 1, ls.len() as int) {
        Some(k) => k,
        None => ls.len() as int,
    };
    lemma_last_from(ls, content(), at + 1, hi);
}

/// The value after a key, and its comment, hold only characters of the line.
pub proof fn lemma_value_lacks(line: Seq<char>, name: Seq<char>, c: char)
    requires
        !line.contains(c),
    ensures
        !spec_value_after_key(line, name).contains(c),
        !spec_split_comment(spec_value_after_key(line, name)).1.contains(c),
{
    lemma_ws_end(line, 0);
    let t = trim_start(line);
    assert(t =~= line.subrange(lead(line), line.len() as int));
    lemma_subrange_lacks(line, lead(line), line.len() as int, c);
    let v = spec_value_after_key(line, name);
    if has_prefix_then(t, name, ':') {
        assert(v =~= t.subrange(name.len() + 1int, t.len() as int));
        lemma_subrange_lacks(t, name.len() + 1int, t.len() as int, c);
    } else {
        assert(v =~= Seq::<char>::empty());
    }
    crate::text::lemma_find_from(v, '#', 0);
    let at = find_from(v, '#', 0);
    assert(v.skip(at) =~= v.subrange(at, v.len() as int));
    lemma_subrange_lacks(v, at, v.len() as int, c);
}

/// Nothing after what `last_from` finds, up to `hi`, satisfies `p`; when it
/// finds nothing, nothing in the range does.
pub proof fn lemma_last_from_is_last(ls: Seq<Seq<char>>, p: spec_fn(Seq<char>) -> bool, lo: int, hi: int)
    ensures
        last_from(ls, p, lo, hi) matches Some(k) ==> forall|m: int| k < m < hi ==> !p(#[trigger] ls[m]),
        last_from(ls, p, lo, hi) is None ==> forall|m: int| lo <= m < hi ==> !p(#[trigger] ls[m]),
    decreases hi - lo,
{
    if hi > lo && !p(ls[hi - 1]) {
        lemma_last_from_is_last(ls, p, lo, hi - 1);
    }
}

/// A new item goes after the last item of the list: the line found is a
/// content line below the key; no line from the key down to it ends the
/// key's items; every content line after it lies at or past a line that ends
/// them; and the indentation is that of the first item line. When nothing is
/// found, every item line below the key lies at or past a line that ends the
/// key's items.
pub proof fn lemma_last_item_is_last(ls: Seq<Seq<char>>, at: int, key_indent: nat)
    requires
        0 <= at < ls.len(),
    ensures
        spec_last_item(ls, at, key_indent) matches Some((last, ind)) ==> at < last < ls.len()
            && is_content(ls[last]) && (forall|m: int|
            at < m <= last ==> !is_outdented(#[trigger] ls[m], key_indent)) && (forall|m: int|
            last < m < ls.len() && is_content(#[trigger] ls[m]) ==> exists|o: int|
                #![trigger is_outdented(ls[o], key_indent)]
                last < o <= m && is_outdented(ls[o], key_indent)) && (exists|d: int|
            #![trigger is_dash(ls[d])]
            at < d <= last && is_dash(ls[d]) && indent_of(ls[d]) == ind && forall|m: int|
                at < m < d ==> !is_dash(#[trigger] ls[m])),
        spec_last_item(ls, at, key_indent) is None ==> forall|m: int|
            at < m < ls.len() && is_dash(#[trigger] ls[m]) ==> exists|o: int|
                #![trigger is_outdented(ls[o], key_indent)]
                at < o <= m && is_outdented(ls[o], key_indent),
{
    let n = ls.len() as int;
    lemma_first_from(ls, outdented(key_indent), at + 1, n);
    let hi = match first_from(ls, outdented(key_indent), at + 1, n) {
        Some(k) => k,
        None => n,
    };
    assert(hi < n ==> is_outdented(ls[hi], key_indent));
    assert forall|m: int| at < m < hi implies !is_outdented(#[trigger] ls[m], key_indent) by {
        assert(!outdented(key_indent)(ls[m]));
    }
    lemma_last_from(ls, content(), at + 1, hi);
    lemma_last_from_is_last(ls, content(), at + 1, hi);
    lemma_first_from(ls, dash(), at + 1, hi);
    let found_last = last_from(ls, content(), at + 1, hi);
    let found_dash = first_from(ls, dash(), at + 1, hi);
    match (found_last, found_dash) {
        (Some(last), Some(d)) => {
            assert(is_content(ls[last]));
            assert(is_dash(ls[d]));
            if d > last {
                assert(!content()(ls[d]));
            }
            assert forall|m: int| last < m < ls.len() && is_content(#[trigger] ls[m]) implies exists|o: int|
                #![trigger is_outdented(ls[o], key_indent)]
                last < o <= m && is_outdented(ls[o], key_indent) by {
                if m < hi {
                    assert(!content()(ls[m]));
                }
                assert(is_outdented(ls[hi], key_indent));
            }
            assert forall|m: int| at < m < d implies !is_dash(#[trigger] ls[m]) by {
                assert(!dash()(ls[m]));
            }
        },
        (l, dd) => {
            assert forall|m: int| at < m < ls.len() && is_dash(#[trigger] ls[m]) implies exists|o: int|
                #![trigger is_outdented(ls[o], key_indent)]
                at < o <= m && is_outdented(ls[o], key_indent) by {
                if m < hi {
                    if dd is None {
                        assert(!dash()(ls[m]));
                    } else {
                        assert(l is None);
                        assert(!content()(ls[m]));
                    }
                }
                assert(is_outdented(ls[hi], key_indent));
            }
        },
    }
}

} // verus!

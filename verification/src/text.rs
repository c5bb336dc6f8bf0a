//! Character-level text primitives: Unicode whitespace, UTF-8 byte counts,
//! trimming, line splitting and joining. Everything here works on `char`
//! sequences, and each operation is specified by a spec function that the
//! line scanner in `scan` and the editor in `hermes` state their contracts in.
use vstd::prelude::*;
use vstd::utf8::encode_utf8;

verus! {

broadcast use vstd::string::group_string_axioms;

/// The Unicode `White_Space` property, which is what `char::is_whitespace`
/// tests and therefore what `trim`, `trim_start` and `trim_end` strip.
pub open spec fn is_ws(c: char) -> bool {
    ||| ('\u{9}' <= c && c <= '\u{d}')
    ||| c == ' '
    ||| c == '\u{85}'
    ||| c == '\u{a0}'
    ||| c == '\u{1680}'
    ||| ('\u{2000}' <= c && c <= '\u{200a}')
    ||| c == '\u{2028}'
    ||| c == '\u{2029}'
    ||| c == '\u{202f}'
    ||| c == '\u{205f}'
    ||| c == '\u{3000}'
}

pub fn is_whitespace(c: char) -> (r: bool)
    ensures
        r == is_ws(c),
{
    ('\u{9}' <= c && c <= '\u{d}') || c == ' ' || c == '\u{85}' || c == '\u{a0}' || c
        == '\u{1680}' || ('\u{2000}' <= c && c <= '\u{200a}') || c == '\u{2028}' || c
        == '\u{2029}' || c == '\u{202f}' || c == '\u{205f}' || c == '\u{3000}'
}

/// Number of bytes of the UTF-8 encoding of `c`.
pub open spec fn utf8_width(c: char) -> nat {
    if c <= '\u{7f}' {
        1
    } else if c <= '\u{7ff}' {
        2
    } else if c <= '\u{ffff}' {
        3
    } else {
        4
    }
}

/// Number of bytes of the UTF-8 encoding of `s`: what `str::len` reports.
pub open spec fn utf8_len(s: Seq<char>) -> nat
    decreases s.len(),
{
    if s.len() == 0 {
        0
    } else {
        utf8_len(s.drop_last()) + utf8_width(s.last())
    }
}

pub proof fn lemma_utf8_len_concat(a: Seq<char>, b: Seq<char>)
    ensures
        utf8_len(a + b) == utf8_len(a) + utf8_len(b),
    decreases b.len(),
{
    if b.len() == 0 {
        assert(a + b =~= a);
    } else {
        lemma_utf8_len_concat(a, b.drop_last());
        assert((a + b).drop_last() =~= a + b.drop_last());
    }
}

pub proof fn lemma_utf8_len_subrange(s: Seq<char>, i: int, j: int)
    requires
        0 <= i <= j <= s.len(),
    ensures
        utf8_len(s.subrange(i, j)) <= utf8_len(s),
        utf8_len(s.subrange(i, j)) + utf8_len(s.take(i)) + utf8_len(s.skip(j)) == utf8_len(s),
{
    assert(s =~= s.take(i) + s.subrange(i, j) + s.skip(j));
    lemma_utf8_len_concat(s.take(i), s.subrange(i, j));
    lemma_utf8_len_concat(s.take(i) + s.subrange(i, j), s.skip(j));
}

proof fn lemma_encode_width(c: char)
    ensures
        vstd::utf8::encode_scalar(c as u32).len() == utf8_width(c),
{
    vstd::utf8::char_is_scalar(c);
}

/// `utf8_len` is the length of vstd's UTF-8 encoding, so it is the byte length
/// that `str::len` returns.
pub proof fn lemma_utf8_len_is_encoding_len(s: Seq<char>)
    ensures
        utf8_len(s) == encode_utf8(s).len(),
    decreases s.len(),
{
    if s.len() > 0 {
        lemma_utf8_len_is_encoding_len(s.drop_first());
        lemma_encode_width(s[0]);
        assert(s =~= seq![s[0]] + s.drop_first());
        lemma_utf8_len_concat(seq![s[0]], s.drop_first());
        assert(seq![s[0]].drop_last() =~= Seq::<char>::empty());
        assert(seq![s[0]].last() == s[0]);
        reveal_with_fuel(utf8_len, 2);
        assert(utf8_len(seq![s[0]]) == utf8_width(s[0]));
        assert(encode_utf8(s) == vstd::utf8::encode_scalar(s[0] as u32) + encode_utf8(s.drop_first()));
    }
}

pub fn utf8_width_of(c: char) -> (r: usize)
    ensures
        r == utf8_width(c),
{
    if c <= '\u{7f}' {
        1
    } else if c <= '\u{7ff}' {
        2
    } else if c <= '\u{ffff}' {
        3
    } else {
        4
    }
}

/// Characters of a `str`.
pub fn chars_of(s: &str) -> (r: Vec<char>)
    ensures
        r@ == s@,
{
    let mut out: Vec<char> = Vec::new();
    for c in it: s.chars()
        invariant
            out@ == it.seq().take(it.index() as int),
            it.seq() == s@,
    {
        out.push(c);
    }
    out
}

/// `String::from_iter` over `char`s.
#[verifier::external_body]
pub(crate) fn string_from_chars(chars: &Vec<char>) -> (r: String)
    ensures
        r@ == chars@,
{
    chars.iter().collect()
}

/// End of the run of whitespace that starts at `i`.
pub open spec fn ws_end(s: Seq<char>, i: int) -> int
    decreases s.len() - i,
{
    if 0 <= i < s.len() && is_ws(s[i]) {
        ws_end(s, i + 1)
    } else {
        i
    }
}

pub proof fn lemma_ws_end(s: Seq<char>, i: int)
    requires
        0 <= i <= s.len(),
    ensures
        i <= ws_end(s, i) <= s.len(),
        forall|k: int| i <= k < ws_end(s, i) ==> is_ws(#[trigger] s[k]),
        ws_end(s, i) < s.len() ==> !is_ws(s[ws_end(s, i)]),
    decreases s.len() - i,
{
    if i < s.len() && is_ws(s[i]) {
        lemma_ws_end(s, i + 1);
    }
}

/// Number of leading whitespace characters.
pub open spec fn lead(s: Seq<char>) -> int {
    ws_end(s, 0)
}

/// `str::trim_start`.
pub open spec fn trim_start(s: Seq<char>) -> Seq<char> {
    s.skip(lead(s))
}

/// Byte length of the leading whitespace: `line.len() - line.trim_start().len()`.
pub open spec fn indent_of(s: Seq<char>) -> nat {
    utf8_len(s.take(lead(s)))
}

/// Start of the run of whitespace that ends at `j`.
pub open spec fn ws_start(s: Seq<char>, j: int) -> int
    decreases j,
{
    if 0 < j <= s.len() && is_ws(s[j - 1]) {
        ws_start(s, j - 1)
    } else {
        j
    }
}

pub proof fn lemma_ws_start(s: Seq<char>, j: int)
    requires
        0 <= j <= s.len(),
    ensures
        0 <= ws_start(s, j) <= j,
        forall|k: int| ws_start(s, j) <= k < j ==> is_ws(#[trigger] s[k]),
        ws_start(s, j) > 0 ==> !is_ws(s[ws_start(s, j) - 1]),
    decreases j,
{
    if 0 < j && is_ws(s[j - 1]) {
        lemma_ws_start(s, j - 1);
    }
}

/// `str::trim_end`.
pub open spec fn trim_end(s: Seq<char>) -> Seq<char> {
    s.take(ws_start(s, s.len() as int))
}

/// `str::trim`.
pub open spec fn trim(s: Seq<char>) -> Seq<char> {
    trim_end(trim_start(s))
}

/// `s` starts with `p`.
pub open spec fn has_prefix(s: Seq<char>, p: Seq<char>) -> bool {
    p.len() <= s.len() && s.take(p.len() as int) == p
}

/// `s` is `p` followed by at least one more character, the first of which is `c`.
pub open spec fn has_prefix_then(s: Seq<char>, p: Seq<char>, c: char) -> bool {
    has_prefix(s, p) && p.len() < s.len() && s[p.len() as int] == c
}

/// First index at or after `i` holding `c`, or the length.
pub open spec fn find_from(s: Seq<char>, c: char, i: int) -> int
    decreases s.len() - i,
{
    if i < 0 || i >= s.len() {
        s.len() as int
    } else if s[i] == c {
        i
    } else {
        find_from(s, c, i + 1)
    }
}

pub proof fn lemma_find_from(s: Seq<char>, c: char, i: int)
    requires
        0 <= i <= s.len(),
    ensures
        i <= find_from(s, c, i) <= s.len(),
        forall|k: int| i <= k < find_from(s, c, i) ==> #[trigger] s[k] != c,
        find_from(s, c, i) < s.len() ==> s[find_from(s, c, i)] == c,
    decreases s.len() - i,
{
    if i < s.len() && s[i] != c {
        lemma_find_from(s, c, i + 1);
    }
}

/// The lines of `s` from position `i`, as `str::lines` yields them: split at
/// `\n`, a `\r` directly before a `\n` dropped, and no empty line after a final
/// `\n`.
pub open spec fn lines_from(s: Seq<char>, i: int) -> Seq<Seq<char>>
    decreases s.len() + 1 - i,
{
    if i < 0 || i >= s.len() {
        Seq::empty()
    } else {
        proof {
            lemma_find_from(s, '\n', i);
        }
        let e = find_from(s, '\n', i);
        let raw = s.subrange(i, e);
        let line = if e < s.len() && raw.len() > 0 && raw.last() == '\r' {
            raw.drop_last()
        } else {
            raw
        };
        seq![line] + lines_from(s, e + 1)
    }
}

/// `str::lines`.
pub open spec fn lines(s: Seq<char>) -> Seq<Seq<char>> {
    lines_from(s, 0)
}

/// `slice::join` with a `\n` separator.
pub open spec fn join_lines(ls: Seq<Seq<char>>) -> Seq<char>
    decreases ls.len(),
{
    if ls.len() == 0 {
        Seq::empty()
    } else if ls.len() == 1 {
        ls[0]
    } else {
        join_lines(ls.drop_last()) + seq!['\n'] + ls.last()
    }
}

/// The joined lines, followed by a `\n` when `trailing_newline` holds.
pub open spec fn join_text(ls: Seq<Seq<char>>, trailing_newline: bool) -> Seq<char> {
    if trailing_newline {
        join_lines(ls) + seq!['\n']
    } else {
        join_lines(ls)
    }
}

/// `n` spaces.
pub open spec fn spaces(n: nat) -> Seq<char> {
    Seq::new(n, |i: int| ' ')
}

/// The views of a vector of lines.
pub open spec fn views(v: Seq<Vec<char>>) -> Seq<Seq<char>> {
    v.map_values(|l: Vec<char>| l@)
}

/// `s` ends with `\n`.
pub open spec fn ends_with_newline(s: Seq<char>) -> bool {
    s.len() > 0 && s.last() == '\n'
}

/// Every character of every line of `s` is a character of `s`, and each line
/// is no longer, counted in bytes, than `s`.
pub proof fn lemma_lines_from_bytes(s: Seq<char>, i: int)
    requires
        0 <= i,
    ensures
        forall|k: int|
            0 <= k < lines_from(s, i).len() ==> utf8_len(#[trigger] lines_from(s, i)[k])
                <= utf8_len(s),
        forall|k: int, m: int|
            0 <= k < lines_from(s, i).len() && 0 <= m < lines_from(s, i)[k].len() ==> s.contains(
                #[trigger] lines_from(s, i)[k][m],
            ) && lines_from(s, i)[k][m] != '\n',
    decreases s.len() + 1 - i,
{
    if i < s.len() {
        let e = find_from(s, '\n', i);
        lemma_find_from(s, '\n', i);
        let raw = s.subrange(i, e);
        let line = if e < s.len() && raw.len() > 0 && raw.last() == '\r' {
            raw.drop_last()
        } else {
            raw
        };
        lemma_lines_from_bytes(s, e + 1);
        lemma_utf8_len_subrange(s, i, e);
        if e < s.len() && raw.len() > 0 && raw.last() == '\r' {
            lemma_utf8_len_subrange(s, i, e - 1);
            assert(line =~= s.subrange(i, e - 1));
        }
        assert forall|m: int| 0 <= m < line.len() implies s.contains(line[m]) && line[m]
            != '\n' by {
            assert(line[m] == s[i + m]);
        }
        let rest = lines_from(s, e + 1);
        assert(lines_from(s, i) == seq![line] + rest);
        assert forall|k: int| 0 <= k < lines_from(s, i).len() implies utf8_len(
            #[trigger] lines_from(s, i)[k],
        ) <= utf8_len(s) by {
            if k > 0 {
                assert(lines_from(s, i)[k] == rest[k - 1]);
            }
        }
        assert forall|k: int, m: int|
            0 <= k < lines_from(s, i).len() && 0 <= m < lines_from(s, i)[k].len() implies s.contains(
            #[trigger] lines_from(s, i)[k][m],
        ) && lines_from(s, i)[k][m] != '\n' by {
            if k > 0 {
                assert(lines_from(s, i)[k] == rest[k - 1]);
            }
        }
    }
}

/// The lines of `text`.
pub fn lines_of(text: &Vec<char>) -> (r: Vec<Vec<char>>)
    ensures
        views(r@) == lines(text@),
{
    let n = text.len();
    let mut out: Vec<Vec<char>> = Vec::new();
    let mut i: usize = 0;
    while i < n
        invariant
            n == text@.len(),
            0 <= i <= n,
            views(out@) + lines_from(text@, i as int) == lines(text@),
        decreases n - i,
    {
        let ghost s = text@;
        proof {
            lemma_find_from(s, '\n', i as int);
        }
        let mut line: Vec<char> = Vec::new();
        let mut e: usize = i;
        while e < n && text[e] != '\n'
            invariant
                n == text@.len(),
                i <= e <= n,
                s == text@,
                find_from(s, '\n', i as int) == find_from(s, '\n', e as int),
                line@ == s.subrange(i as int, e as int),
            decreases n - e,
        {
            line.push(text[e]);
            e = e + 1;
        }
        assert(e == find_from(s, '\n', i as int));
        if e < n && line.len() > 0 && line[line.len() - 1] == '\r' {
            line.pop();
        }
        proof {
            let line_spec = lines_from(s, i as int)[0];
            assert(line@ == line_spec);
            assert(lines_from(s, i as int) == seq![line_spec] + lines_from(s, e + 1));
            assert(views(out@.push(line)) =~= views(out@) + seq![line@]);
        }
        out.push(line);
        if e < n {
            i = e + 1;
        } else {
            assert(lines_from(s, e + 1) =~= lines_from(s, n as int));
            i = n;
        }
    }
    proof {
        assert(lines_from(text@, i as int) =~= Seq::<Seq<char>>::empty());
        assert(views(out@) + Seq::<Seq<char>>::empty() =~= views(out@));
    }
    out
}

/// Appends `n` spaces.
pub fn push_spaces(out: &mut Vec<char>, n: usize)
    ensures
        final(out)@ == old(out)@ + spaces(n as nat),
{
    let mut k: usize = 0;
    while k < n
        invariant
            0 <= k <= n,
            out@ == old(out)@ + spaces(k as nat),
        decreases n - k,
    {
        proof {
            assert(spaces((k + 1) as nat) =~= spaces(k as nat).push(' '));
            assert(old(out)@ + spaces((k + 1) as nat) =~= (old(out)@ + spaces(k as nat)).push(' '));
        }
        out.push(' ');
        k = k + 1;
    }
}

/// Appends the characters of `s`.
pub fn push_all(out: &mut Vec<char>, s: &Vec<char>)
    ensures
        final(out)@ == old(out)@ + s@,
{
    let mut k: usize = 0;
    while k < s.len()
        invariant
            0 <= k <= s.len(),
            out@ == old(out)@ + s@.take(k as int),
        decreases s.len() - k,
    {
        proof {
            assert(s@.take(k + 1) =~= s@.take(k as int).push(s@[k as int]));
            assert(old(out)@ + s@.take(k + 1) =~= (old(out)@ + s@.take(k as int)).push(s@[k as int]));
        }
        out.push(s[k]);
        k = k + 1;
    }
    assert(s@.take(s.len() as int) =~= s@);
}

/// Appends the characters of `s`.
pub fn push_str(out: &mut Vec<char>, s: &str)
    ensures
        final(out)@ == old(out)@ + s@,
{
    let cs = chars_of(s);
    push_all(out, &cs);
}

/// The lines joined by `\n`, with a final `\n` when `trailing_newline` holds.
pub fn join(ls: &Vec<Vec<char>>, trailing_newline: bool) -> (r: Vec<char>)
    ensures
        r@ == join_text(views(ls@), trailing_newline),
{
    let mut out: Vec<char> = Vec::new();
    let mut k: usize = 0;
    while k < ls.len()
        invariant
            0 <= k <= ls.len(),
            out@ == join_lines(views(ls@).take(k as int)),
        decreases ls.len() - k,
    {
        proof {
            let v = views(ls@);
            let t = v.take(k + 1);
            assert(t.drop_last() =~= v.take(k as int));
            assert(t.last() == ls@[k as int]@);
        }
        if k > 0 {
            out.push('\n');
        }
        push_all(&mut out, &ls[k]);
        proof {
            let v = views(ls@);
            if k == 0 {
                assert(v.take(1) =~= seq![v[0]]);
                assert(out@ =~= v[0]);
            }
        }
        k = k + 1;
    }
    proof {
        assert(views(ls@).take(ls.len() as int) =~= views(ls@));
    }
    if trailing_newline {
        out.push('\n');
    }
    out
}

/// Byte length of the leading whitespace of `line`.
pub fn indent_bytes(line: &Vec<char>) -> (r: usize)
    requires
        utf8_len(line@) <= usize::MAX,
    ensures
        r == indent_of(line@),
{
    let ghost s = line@;
    proof {
        lemma_ws_end(s, 0);
    }
    let mut i: usize = 0;
    let mut bytes: usize = 0;
    while i < line.len() && is_whitespace(line[i])
        invariant
            0 <= i <= line.len(),
            s == line@,
            utf8_len(s) <= usize::MAX,
            ws_end(s, 0) == ws_end(s, i as int),
            bytes == utf8_len(s.take(i as int)),
        decreases line.len() - i,
    {
        proof {
            assert(s.take(i + 1).drop_last() =~= s.take(i as int));
            lemma_utf8_len_subrange(s, 0, i + 1);
            assert(s.subrange(0, i + 1) =~= s.take(i + 1));
        }
        bytes = bytes + utf8_width_of(line[i]);
        i = i + 1;
    }
    bytes
}

/// Index of the first non-whitespace character of `line`.
pub fn lead_of(line: &Vec<char>) -> (r: usize)
    ensures
        r == lead(line@),
        r <= line@.len(),
{
    let ghost s = line@;
    proof {
        lemma_ws_end(s, 0);
    }
    let mut i: usize = 0;
    while i < line.len() && is_whitespace(line[i])
        invariant
            0 <= i <= line.len(),
            s == line@,
            ws_end(s, 0) == ws_end(s, i as int),
        decreases line.len() - i,
    {
        i = i + 1;
    }
    i
}

/// Index just after the last non-whitespace character of `s`.
pub fn trail_of(s: &Vec<char>) -> (r: usize)
    ensures
        r == ws_start(s@, s@.len() as int),
        r <= s@.len(),
{
    let ghost v = s@;
    proof {
        lemma_ws_start(v, v.len() as int);
    }
    let mut j: usize = s.len();
    while j > 0 && is_whitespace(s[j - 1])
        invariant
            0 <= j <= s.len(),
            v == s@,
            ws_start(v, v.len() as int) == ws_start(v, j as int),
        decreases j,
    {
        j = j - 1;
    }
    j
}

/// The characters `s[from..to]`.
pub fn slice(s: &Vec<char>, from: usize, to: usize) -> (r: Vec<char>)
    requires
        from <= to <= s@.len(),
    ensures
        r@ == s@.subrange(from as int, to as int),
{
    let mut out: Vec<char> = Vec::new();
    let mut k: usize = from;
    while k < to
        invariant
            from <= k <= to,
            to <= s@.len(),
            out@ == s@.subrange(from as int, k as int),
        decreases to - k,
    {
        out.push(s[k]);
        k = k + 1;
    }
    out
}

/// `str::trim`.
pub fn trimmed(s: &Vec<char>) -> (r: Vec<char>)
    ensures
        r@ == trim(s@),
{
    let a = lead_of(s);
    let rest = slice(s, a, s.len());
    assert(rest@ =~= trim_start(s@));
    let b = trail_of(&rest);
    let r = slice(&rest, 0, b);
    assert(r@ =~= trim(s@));
    r
}

/// `s` starts with `p`.
pub fn starts_with(s: &Vec<char>, p: &Vec<char>) -> (r: bool)
    ensures
        r == has_prefix(s@, p@),
{
    if p.len() > s.len() {
        return false;
    }
    let mut k: usize = 0;
    while k < p.len()
        invariant
            0 <= k <= p.len(),
            p.len() <= s.len(),
            forall|m: int| 0 <= m < k ==> s@[m] == p@[m],
        decreases p.len() - k,
    {
        if s[k] != p[k] {
            assert(s@.take(p@.len() as int)[k as int] != p@[k as int]);
            return false;
        }
        k = k + 1;
    }
    assert(s@.take(p@.len() as int) =~= p@);
    true
}

/// `s` holds `c`.
pub fn contains_char(s: &Vec<char>, c: char) -> (r: bool)
    ensures
        r == s@.contains(c),
{
    let mut k: usize = 0;
    while k < s.len()
        invariant
            0 <= k <= s.len(),
            forall|m: int| 0 <= m < k ==> s@[m] != c,
        decreases s.len() - k,
    {
        if s[k] == c {
            return true;
        }
        k = k + 1;
    }
    false
}

/// Index of the first `c` in `s`, or the length.
pub fn find_char(s: &Vec<char>, c: char) -> (r: usize)
    ensures
        r == find_from(s@, c, 0),
        r <= s@.len(),
{
    proof {
        lemma_find_from(s@, c, 0);
    }
    let mut k: usize = 0;
    while k < s.len() && s[k] != c
        invariant
            0 <= k <= s.len(),
            find_from(s@, c, 0) == find_from(s@, c, k as int),
        decreases s.len() - k,
    {
        k = k + 1;
    }
    k
}

/// Two character sequences are equal.
pub fn chars_eq(a: &Vec<char>, b: &Vec<char>) -> (r: bool)
    ensures
        r == (a@ == b@),
{
    if a.len() != b.len() {
        return false;
    }
    let mut k: usize = 0;
    while k < a.len()
        invariant
            0 <= k <= a.len(),
            a.len() == b.len(),
            forall|m: int| 0 <= m < k ==> a@[m] == b@[m],
        decreases a.len() - k,
    {
        if a[k] != b[k] {
            return false;
        }
        k = k + 1;
    }
    assert(a@ =~= b@);
    true
}

} // verus!

verus! {

/// A line as `str::lines` yields it when a `\n` follows it: one `\r` at its
/// end dropped.
pub open spec fn strip_cr(x: Seq<char>) -> Seq<char> {
    if x.len() > 0 && x.last() == '\r' {
        x.drop_last()
    } else {
        x
    }
}

/// `s` holds no `\n`.
pub open spec fn no_newline(s: Seq<char>) -> bool {
    !s.contains('\n')
}

pub proof fn lemma_find_from_shift(p: Seq<char>, r: Seq<char>, c: char, i: int)
    requires
        0 <= i <= r.len(),
    ensures
        find_from(p + r, c, p.len() + i) == p.len() + find_from(r, c, i),
    decreases r.len() - i,
{
    if i < r.len() {
        assert((p + r)[p.len() + i] == r[i]);
        if r[i] != c {
            lemma_find_from_shift(p, r, c, i + 1);
        }
    }
}

pub proof fn lemma_lines_from_shift(p: Seq<char>, r: Seq<char>, i: int)
    requires
        0 <= i,
    ensures
        lines_from(p + r, p.len() + i) == lines_from(r, i),
    decreases r.len() + 1 - i,
{
    if i < r.len() {
        lemma_find_from_shift(p, r, '\n', i);
        lemma_find_from(r, '\n', i);
        let e = find_from(r, '\n', i);
        lemma_lines_from_shift(p, r, e + 1);
        assert((p + r).subrange(p.len() + i, p.len() + e) =~= r.subrange(i, e));
        assert(p.len() + e + 1 == p.len() + (e + 1));
    }
}

pub proof fn lemma_find_from_prefix(p: Seq<char>, r: Seq<char>, c: char, i: int)
    requires
        0 <= i <= p.len(),
        find_from(p, c, i) < p.len(),
    ensures
        find_from(p + r, c, i) == find_from(p, c, i),
    decreases p.len() - i,
{
    if p[i] != c {
        lemma_find_from_prefix(p, r, c, i + 1);
    }
}

/// The lines of `p + r`, where `p` ends a line, are those of `p` and then
/// those of `r`.
pub proof fn lemma_lines_concat(p: Seq<char>, r: Seq<char>, i: int)
    requires
        p.len() == 0 || p.last() == '\n',
        0 <= i <= p.len(),
    ensures
        lines_from(p + r, i) == lines_from(p, i) + lines(r),
    decreases p.len() - i,
{
    if i == p.len() {
        lemma_lines_from_shift(p, r, 0);
        assert(lines_from(p, i) =~= Seq::<Seq<char>>::empty());
        assert(lines_from(p, i) + lines(r) =~= lines(r));
    } else {
        lemma_find_from(p, '\n', i);
        if find_from(p, '\n', i) == p.len() {
            lemma_find_from(p, '\n', i);
            assert(p[p.len() - 1] == '\n');
            assert(false);
        }
        lemma_find_from_prefix(p, r, '\n', i);
        let e = find_from(p, '\n', i);
        lemma_lines_concat(p, r, e + 1);
        assert((p + r).subrange(i, e) =~= p.subrange(i, e));
        assert(lines_from(p + r, i) =~= lines_from(p, i) + lines(r));
    }
}

/// The lines of a single line without a final `\n`.
pub proof fn lemma_lines_single(x: Seq<char>)
    requires
        no_newline(x),
    ensures
        lines(x) == (if x.len() == 0 {
            Seq::<Seq<char>>::empty()
        } else {
            seq![x]
        }),
        lines(x + seq!['\n']) == seq![strip_cr(x)],
{
    if x.len() > 0 {
        lemma_find_from(x, '\n', 0);
        if find_from(x, '\n', 0) < x.len() {
            assert(x.contains('\n'));
        }
        assert(x.subrange(0, x.len() as int) =~= x);
        assert(lines_from(x, x.len() + 1int) =~= Seq::<Seq<char>>::empty());
        assert(lines(x) =~= seq![x]);
    }
    let y = x + seq!['\n'];
    lemma_find_from(y, '\n', 0);
    let f = find_from(y, '\n', 0);
    assert(y[x.len() as int] == '\n');
    if f < x.len() {
        assert(y[f] == x[f]);
        assert(x.contains('\n'));
    }
    assert(find_from(y, '\n', 0) == x.len());
    assert(y.subrange(0, x.len() as int) =~= x);
    assert(lines_from(y, x.len() + 1int) =~= Seq::<Seq<char>>::empty());
    assert(lines(y) =~= seq![strip_cr(x)]);
}

/// The lines of a line followed by `\n` and more text.
pub proof fn lemma_lines_cons(x: Seq<char>, r: Seq<char>)
    requires
        no_newline(x),
    ensures
        lines(x + seq!['\n'] + r) == seq![strip_cr(x)] + lines(r),
{
    let p = x + seq!['\n'];
    lemma_lines_concat(p, r, 0);
    lemma_lines_single(x);
}

/// `join_lines`, taken from the front.
pub proof fn lemma_join_front(ls: Seq<Seq<char>>)
    requires
        ls.len() >= 2,
    ensures
        join_lines(ls) == ls[0] + seq!['\n'] + join_lines(ls.drop_first()),
    decreases ls.len(),
{
    if ls.len() == 2 {
        assert(ls.drop_last() =~= seq![ls[0]]);
        assert(ls.drop_first() =~= seq![ls[1]]);
        assert(join_lines(ls.drop_last()) == ls[0]);
        assert(join_lines(ls.drop_first()) == ls[1]);
    } else {
        let a = ls.drop_last();
        let b = ls.drop_first();
        lemma_join_front(a);
        assert(a.drop_first() =~= b.drop_last());
        assert(b.last() == ls.last());
        assert(a[0] == ls[0]);
        assert(join_lines(b) == join_lines(b.drop_last()) + seq!['\n'] + b.last());
        assert(join_lines(ls) == join_lines(a) + seq!['\n'] + ls.last());
        assert(join_lines(ls) =~= ls[0] + seq!['\n'] + join_lines(b));
    }
}

/// Trimming the end ignores a final `\r`.
pub proof fn lemma_trim_end_strip_cr(x: Seq<char>)
    ensures
        trim_end(strip_cr(x)) == trim_end(x),
{
    if x.len() > 0 && x.last() == '\r' {
        let n = x.len() - 1;
        let y = x.drop_last();
        assert(y =~= x.take(n));
        assert(is_ws(x[n]));
        assert(ws_start(x, x.len() as int) == ws_start(x, n));
        lemma_ws_start_take(x, n, n);
        lemma_ws_start(x, n);
        assert(trim_end(y) =~= trim_end(x));
    }
}

/// `ws_start` below `n` is the same on `x` and on its first `n` characters.
pub proof fn lemma_ws_start_take(x: Seq<char>, n: int, j: int)
    requires
        0 <= j <= n <= x.len(),
    ensures
        ws_start(x.take(n), j) == ws_start(x, j),
    decreases j,
{
    if 0 < j && is_ws(x[j - 1]) {
        lemma_ws_start_take(x, n, j - 1);
    }
}

/// A character absent from both halves is absent from their concatenation.
pub proof fn lemma_concat_lacks(a: Seq<char>, b: Seq<char>, c: char)
    requires
        !a.contains(c),
        !b.contains(c),
    ensures
        !(a + b).contains(c),
{
    assert forall|m: int| 0 <= m < (a + b).len() implies (a + b)[m] != c by {
        if m < a.len() {
            assert((a + b)[m] == a[m]);
        } else {
            assert((a + b)[m] == b[m - a.len()]);
        }
    }
}

/// A character absent from `s` is absent from any part of it.
pub proof fn lemma_subrange_lacks(s: Seq<char>, i: int, j: int, c: char)
    requires
        0 <= i <= j <= s.len(),
        !s.contains(c),
    ensures
        !s.subrange(i, j).contains(c),
{
    assert forall|m: int| 0 <= m < j - i implies s.subrange(i, j)[m] != c by {
        assert(s.subrange(i, j)[m] == s[i + m]);
    }
}

/// Spaces hold nothing but spaces.
pub proof fn lemma_spaces_lack(n: nat, c: char)
    requires
        c != ' ',
    ensures
        !spaces(n).contains(c),
{
    assert forall|m: int| 0 <= m < n implies spaces(n)[m] != c by {}
}

/// A character other than `\n` that no line holds is absent from the joined
/// lines.
pub proof fn lemma_join_lacks(ls: Seq<Seq<char>>, c: char)
    requires
        c != '\n',
        forall|k: int| 0 <= k < ls.len() ==> !(#[trigger] ls[k]).contains(c),
    ensures
        !join_lines(ls).contains(c),
    decreases ls.len(),
{
    if ls.len() == 0 {
        assert(join_lines(ls) =~= Seq::<char>::empty());
    } else if ls.len() == 1 {
        assert(!ls[0].contains(c));
    } else {
        let a = ls.drop_last();
        assert forall|k: int| 0 <= k < a.len() implies !(#[trigger] a[k]).contains(c) by {
            assert(a[k] == ls[k]);
        }
        lemma_join_lacks(a, c);
        assert(!seq!['\n'].contains(c)) by {
            assert forall|m: int| 0 <= m < 1 implies seq!['\n'][m] != c by {}
        }
        lemma_concat_lacks(join_lines(a), seq!['\n'], c);
        assert(!ls[ls.len() - 1].contains(c));
        lemma_concat_lacks(join_lines(a) + seq!['\n'], ls.last(), c);
    }
}

/// No line holds a `\n`.
pub proof fn lemma_lines_no_newline(s: Seq<char>)
    ensures
        forall|k: int| 0 <= k < lines(s).len() ==> no_newline(#[trigger] lines(s)[k]),
{
    lemma_lines_from_bytes(s, 0);
    assert forall|k: int| 0 <= k < lines(s).len() implies no_newline(#[trigger] lines(s)[k]) by {
        let l = lines(s)[k];
        assert forall|m: int| 0 <= m < l.len() implies l[m] != '\n' by {
            assert(lines(s)[k][m] != '\n');
        }
    }
}

/// A character absent from `s` is absent from each of its lines.
pub proof fn lemma_lines_lack(s: Seq<char>, c: char)
    requires
        !s.contains(c),
    ensures
        forall|k: int| 0 <= k < lines(s).len() ==> !(#[trigger] lines(s)[k]).contains(c),
{
    lemma_lines_from_bytes(s, 0);
    assert forall|k: int| 0 <= k < lines(s).len() implies !(#[trigger] lines(s)[k]).contains(
        c,
    ) by {
        let l = lines(s)[k];
        assert forall|m: int| 0 <= m < l.len() implies l[m] != c by {
            assert(s.contains(lines(s)[k][m]));
        }
    }
}

/// A line whose end trims to `---` starts with three dashes.
pub proof fn lemma_trim_end_separator(x: Seq<char>)
    ensures
        trim_end(x) == seq!['-', '-', '-'] ==> x.len() >= 3 && x[0] == '-' && x[1] == '-' && x[2]
            == '-',
{
    lemma_ws_start(x, x.len() as int);
    let w = ws_start(x, x.len() as int);
    assert(trim_end(x).len() == w);
    if trim_end(x) == seq!['-', '-', '-'] {
        assert(seq!['-', '-', '-'].len() == 3);
        assert(w == 3);
        assert(trim_end(x)[0] == x[0]);
        assert(trim_end(x)[1] == x[1]);
        assert(trim_end(x)[2] == x[2]);
    }
}

/// Adding a final `\n` to a text that lacks one keeps its lines, except that
/// the last may lose a final `\r`.
pub proof fn lemma_lines_push_newline(p: Seq<char>, i: int)
    requires
        0 <= i < p.len(),
        p.last() != '\n',
    ensures
        lines_from(p + seq!['\n'], i).len() == lines_from(p, i).len(),
        forall|k: int|
            0 <= k < lines_from(p, i).len() ==> (#[trigger] lines_from(p + seq!['\n'], i)[k]
                == lines_from(p, i)[k] || lines_from(p + seq!['\n'], i)[k] == strip_cr(
                lines_from(p, i)[k],
            )),
    decreases p.len() - i,
{
    let q = p + seq!['\n'];
    lemma_find_from(p, '\n', i);
    lemma_find_from(q, '\n', i);
    let f = find_from(p, '\n', i);
    if f < p.len() {
        lemma_find_from_prefix(p, seq!['\n'], '\n', i);
        assert(f != p.len() - 1);
        assert(q.subrange(i, f) =~= p.subrange(i, f));
        lemma_lines_push_newline(p, f + 1);
        let rp = lines_from(p, f + 1);
        let rq = lines_from(q, f + 1);
        assert forall|k: int| 0 <= k < lines_from(p, i).len() implies (#[trigger] lines_from(
            q,
            i,
        )[k] == lines_from(p, i)[k] || lines_from(q, i)[k] == strip_cr(lines_from(p, i)[k])) by {
            if k > 0 {
                assert(lines_from(q, i)[k] == rq[k - 1]);
                assert(lines_from(p, i)[k] == rp[k - 1]);
            }
        }
    } else {
        assert(q[p.len() as int] == '\n');
        assert forall|k: int| i <= k < p.len() implies q[k] != '\n' by {
            assert(q[k] == p[k]);
        }
        assert(find_from(q, '\n', i) == p.len());
        assert(q.subrange(i, p.len() as int) =~= p.subrange(i, p.len() as int));
        assert(lines_from(p, p.len() + 1int) =~= Seq::<Seq<char>>::empty());
        assert(lines_from(q, p.len() + 1int) =~= Seq::<Seq<char>>::empty());
        let raw = p.subrange(i, p.len() as int);
        assert(lines_from(p, i) =~= seq![raw]);
        assert(lines_from(q, i) =~= seq![strip_cr(raw)]);
    }
}

/// The character of the decimal digit `d`.
pub open spec fn digit(d: nat) -> char {
    seq!['0', '1', '2', '3', '4', '5', '6', '7', '8', '9'][d as int]
}

/// The decimal digits of `n`, as an integer's `Display` writes them.
pub open spec fn decimal(n: nat) -> Seq<char>
    decreases n,
{
    if n < 10 {
        seq![digit(n)]
    } else {
        decimal(n / 10) + seq![digit(n % 10)]
    }
}

/// Decimal digits: never empty, starting with a digit, and `0` only for zero.
pub proof fn lemma_decimal(n: nat)
    ensures
        decimal(n).len() >= 1,
        '0' <= decimal(n)[0] <= '9',
        decimal(n) == seq!['0'] <==> n == 0,
    decreases n,
{
    if n >= 10 {
        lemma_decimal(n / 10);
        assert(decimal(n)[0] == decimal(n / 10)[0]);
        assert(decimal(n).len() >= 2);
    } else {
        assert(decimal(n) == seq![digit(n)]);
        if n != 0 {
            assert(digit(n) != '0');
        }
    }
}

/// `s`, padded with spaces to `w` characters, as `{:<w$}` formats it.
pub open spec fn pad_right(s: Seq<char>, w: nat) -> Seq<char> {
    if s.len() >= w {
        s
    } else {
        s + spaces((w - s.len()) as nat)
    }
}

fn digit_char(d: usize) -> (c: char)
    requires
        d < 10,
    ensures
        c == digit(d as nat),
{
    match d {
        0 => '0',
        1 => '1',
        2 => '2',
        3 => '3',
        4 => '4',
        5 => '5',
        6 => '6',
        7 => '7',
        8 => '8',
        _ => '9',
    }
}

/// Appends the decimal digits of `n`.
pub fn push_decimal(out: &mut Vec<char>, n: usize)
    ensures
        final(out)@ == old(out)@ + decimal(n as nat),
    decreases n,
{
    if n < 10 {
        out.push(digit_char(n));
        assert(old(out)@.push(digit(n as nat)) =~= old(out)@ + decimal(n as nat));
    } else {
        push_decimal(out, n / 10);
        out.push(digit_char(n % 10));
        assert(old(out)@ + decimal((n / 10) as nat) + seq![digit((n % 10) as nat)] =~= old(out)@
            + decimal(n as nat));
    }
}

/// Appends `s` padded with spaces to `w` characters.
pub fn push_padded(out: &mut Vec<char>, s: &Vec<char>, w: usize)
    ensures
        final(out)@ == old(out)@ + pad_right(s@, w as nat),
{
    push_all(out, s);
    if s.len() < w {
        push_spaces(out, w - s.len());
        assert(old(out)@ + s@ + spaces((w - s.len()) as nat) =~= old(out)@ + pad_right(
            s@,
            w as nat,
        ));
    }
}

/// Every character takes at least one byte.
pub proof fn lemma_utf8_len_at_least_len(s: Seq<char>)
    ensures
        s.len() <= utf8_len(s),
    decreases s.len(),
{
    if s.len() > 0 {
        lemma_utf8_len_at_least_len(s.drop_last());
    }
}

/// No character takes more than four bytes.
pub proof fn lemma_utf8_len_at_most(s: Seq<char>)
    ensures
        utf8_len(s) <= 4 * s.len(),
    decreases s.len(),
{
    if s.len() > 0 {
        lemma_utf8_len_at_most(s.drop_last());
    }
}

/// Each line takes at least one character.
pub proof fn lemma_lines_from_count(s: Seq<char>, i: int)
    requires
        0 <= i,
    ensures
        lines_from(s, i).len() <= if i <= s.len() {
            s.len() - i
        } else {
            0
        },
    decreases s.len() + 1 - i,
{
    if i < s.len() {
        lemma_find_from(s, '\n', i);
        lemma_lines_from_count(s, find_from(s, '\n', i) + 1);
    }
}

/// A text has no more lines than it has bytes.
pub proof fn lemma_lines_count(s: Seq<char>)
    ensures
        lines(s).len() <= utf8_len(s),
{
    lemma_lines_from_count(s, 0);
    lemma_utf8_len_at_least_len(s);
}

/// Where line `k` of `s` starts: each line starts after the `\n` that ends
/// the one before it.
pub open spec fn line_start(s: Seq<char>, k: nat) -> int
    decreases k,
{
    if k == 0 {
        0
    } else {
        find_from(s, '\n', line_start(s, (k - 1) as nat)) + 1
    }
}

/// Line `a` of `s` lies at `line_start(s, a)`: it is the text up to the next
/// `\n`, less a `\r` directly before it, and the lines from there on are the
/// lines of `s` from `a` on.
pub proof fn lemma_line_start(s: Seq<char>, a: nat)
    requires
        a < lines(s).len(),
    ensures
        ({
            let p = line_start(s, a);
            let e = find_from(s, '\n', p);
            let raw = s.subrange(p, e);
            &&& 0 <= p < s.len()
            &&& p <= e <= s.len()
            &&& lines_from(s, p) == lines(s).skip(a as int)
            &&& lines(s)[a as int] == (if e < s.len() && raw.len() > 0 && raw.last() == '\r' {
                raw.drop_last()
            } else {
                raw
            })
            &&& line_start(s, a + 1) == e + 1
            &&& lines_from(s, e + 1) == lines(s).skip(a + 1int)
            &&& a >= 1 ==> s[p - 1] == '\n'
        }),
    decreases a,
{
    if a > 0 {
        lemma_line_start(s, (a - 1) as nat);
        let p0 = line_start(s, (a - 1) as nat);
        let e0 = find_from(s, '\n', p0);
        lemma_find_from(s, '\n', p0);
        if e0 >= s.len() {
            assert(lines_from(s, e0 + 1) =~= Seq::<Seq<char>>::empty());
            assert(lines(s).skip(a as int).len() > 0);
            assert(false);
        }
        assert(line_start(s, a) == e0 + 1);
    }
    let p = line_start(s, a);
    lemma_find_from(s, '\n', p);
    let e = find_from(s, '\n', p);
    if p >= s.len() {
        assert(lines_from(s, p) =~= Seq::<Seq<char>>::empty());
        assert(lines(s).skip(a as int).len() > 0);
        assert(false);
    }
    assert(lines(s).skip(a as int)[0] == lines(s)[a as int]);
    assert(lines_from(s, e + 1) =~= lines(s).skip(a as int).drop_first());
    assert(lines(s).skip(a as int).drop_first() =~= lines(s).skip(a + 1int));
}

/// Splitting a text at the start of one of its lines splits its lines there.
pub proof fn lemma_lines_split_at(s: Seq<char>, a: nat)
    requires
        1 <= a < lines(s).len(),
    ensures
        lines(s.take(line_start(s, a))) == lines(s).take(a as int),
        lines(s.skip(line_start(s, a))) == lines(s).skip(a as int),
{
    lemma_line_start(s, a);
    let p = line_start(s, a);
    lemma_lines_rest(s, p);
    let t = s.take(p);
    assert(t.last() == '\n');
    lemma_lines_concat(t, s.skip(p), 0);
    assert(t + s.skip(p) =~= s);
    assert(lines(s) =~= lines(t) + lines(s).skip(a as int));
    assert(lines(t) =~= lines(s).take(a as int));
}

/// The lines of `s` from position `i` are the lines of what follows `i`.
pub proof fn lemma_lines_rest(s: Seq<char>, i: int)
    requires
        0 <= i <= s.len(),
    ensures
        lines(s.skip(i)) == lines_from(s, i),
{
    lemma_lines_from_shift(s.take(i), s.skip(i), 0);
    assert(s.take(i) + s.skip(i) =~= s);
}

/// Appending to the last of some lines appends to their join.
pub proof fn lemma_join_extend_last(ls: Seq<Seq<char>>, x: Seq<char>)
    requires
        ls.len() >= 1,
    ensures
        join_lines(ls.update(ls.len() - 1, ls.last() + x)) == join_lines(ls) + x,
        ls.last().len() > 0 ==> join_lines(ls).len() > 0 && join_lines(ls).last() == ls.last().last(),
{
    let m = ls.update(ls.len() - 1, ls.last() + x);
    if ls.len() >= 2 {
        assert(m.drop_last() =~= ls.drop_last());
        assert(join_lines(m) =~= join_lines(ls) + x);
    } else {
        assert(join_lines(m) == m[0]);
    }
}

/// Joining the lines of a text without `\r` gives the text back, with its final
/// newline or its absence.
pub proof fn lemma_join_lines_of(s: Seq<char>)
    requires
        !s.contains('\r'),
    ensures
        join_text(lines(s), ends_with_newline(s)) == s,
    decreases s.len(),
{
    if s.len() > 0 {
        lemma_find_from(s, '\n', 0);
        let e = find_from(s, '\n', 0);
        if e < s.len() {
            let x = s.take(e);
            let r = s.skip(e + 1);
            assert forall|m: int| 0 <= m < x.len() implies x[m] != '\n' by {
                assert(x[m] == s[m]);
            }
            assert(s =~= x + seq!['\n'] + r);
            lemma_lines_cons(x, r);
            assert(strip_cr(x) == x) by {
                if x.len() > 0 {
                    assert(x.last() == s[e - 1]);
                    assert(s.contains(s[e - 1]));
                }
            }
            assert forall|m: int| 0 <= m < r.len() implies r[m] != '\r' by {
                assert(r[m] == s[e + 1 + m]);
            }
            lemma_join_lines_of(r);
            let lr = lines(r);
            assert(lines(s) =~= seq![x] + lr);
            if lr.len() == 0 {
                assert(r.len() == 0) by {
                    if r.len() > 0 {
                        assert(lines(r).len() > 0);
                    }
                }
                assert(join_lines(lines(s)) == x);
                assert(ends_with_newline(s));
            } else {
                lemma_join_front(lines(s));
                assert(lines(s).drop_first() =~= lr);
                if r.len() > 0 {
                    assert(s.last() == r.last());
                }
                if ends_with_newline(s) {
                    assert(r.len() > 0);
                }
            }
        } else {
            assert forall|m: int| 0 <= m < s.len() implies s[m] != '\n' by {}
            lemma_lines_single(s);
            assert(lines(s) =~= seq![s]);
        }
    }
}

/// Searching from the start finds what searching past a stretch without the
/// character finds.
pub proof fn lemma_find_from_skip(s: Seq<char>, c: char, i: int)
    requires
        0 <= i <= s.len(),
        forall|k: int| 0 <= k < i ==> s[k] != c,
    ensures
        find_from(s, c, 0) == find_from(s, c, i),
    decreases i,
{
    if i > 0 {
        lemma_find_from_skip_from(s, c, 0, i);
    }
}

proof fn lemma_find_from_skip_from(s: Seq<char>, c: char, j: int, i: int)
    requires
        0 <= j <= i <= s.len(),
        forall|k: int| 0 <= k < i ==> s[k] != c,
    ensures
        find_from(s, c, j) == find_from(s, c, i),
    decreases i - j,
{
    if j < i {
        lemma_find_from_skip_from(s, c, j + 1, i);
    }
}

/// The lines of a text behind a prefix without `\n`: the first line starts
/// with the prefix, and the others are the text's own.
pub proof fn lemma_lines_prefixed(pre: Seq<char>, s: Seq<char>)
    requires
        no_newline(pre),
        pre.len() >= 1,
        pre.last() != '\r',
    ensures
        lines(pre + s).len() >= 1,
        lines(pre + s)[0].len() >= pre.len(),
        lines(pre + s)[0].take(pre.len() as int) == pre,
        forall|k: int|
            1 <= k < lines(pre + s).len() ==> k < lines(s).len() && #[trigger] lines(pre + s)[k]
                == lines(s)[k],
{
    let u = pre + s;
    let n = pre.len() as int;
    assert forall|k: int| 0 <= k < n implies u[k] != '\n' by {
        assert(u[k] == pre[k]);
        assert(pre.contains(pre[k]));
    }
    lemma_find_from_skip(u, '\n', n);
    lemma_find_from_shift(pre, s, '\n', 0);
    lemma_find_from(s, '\n', 0);
    lemma_find_from(u, '\n', 0);
    let f = find_from(s, '\n', 0);
    let e = find_from(u, '\n', 0);
    assert(e == n + f);
    lemma_lines_from_shift(pre, s, f + 1);
    assert(lines_from(u, n + f + 1) == lines_from(s, f + 1));
    let raw = u.subrange(0, e);
    let line0 = if e < u.len() && raw.len() > 0 && raw.last() == '\r' {
        raw.drop_last()
    } else {
        raw
    };
    assert(lines(u) == seq![line0] + lines_from(u, e + 1));
    if e == n {
        assert(raw =~= pre);
    }
    assert(line0.take(n) =~= pre);
    if s.len() == 0 {
        assert(lines_from(u, e + 1) =~= Seq::<Seq<char>>::empty());
    } else {
        lemma_find_from(s, '\n', 0);
        let raws = s.subrange(0, f);
        let l0 = if f < s.len() && raws.len() > 0 && raws.last() == '\r' {
            raws.drop_last()
        } else {
            raws
        };
        assert(lines(s) == seq![l0] + lines_from(s, f + 1));
        assert forall|k: int| 1 <= k < lines(u).len() implies k < lines(s).len() && #[trigger] lines(
            u,
        )[k] == lines(s)[k] by {
            assert(lines(u)[k] == lines_from(u, e + 1)[k - 1]);
            assert(lines(s)[k] == lines_from(s, f + 1)[k - 1]);
        }
    }
}

/// Appending a stretch without `\n` to a text that does not end a line
/// extends its last line and no other.
pub proof fn lemma_lines_extend_last(p: Seq<char>, y: Seq<char>, i: int)
    requires
        0 <= i < p.len(),
        p.last() != '\n',
        no_newline(y),
    ensures
        lines_from(p + y, i).len() == lines_from(p, i).len(),
        lines_from(p, i).len() >= 1,
        forall|k: int|
            0 <= k < lines_from(p, i).len() - 1 ==> #[trigger] lines_from(p + y, i)[k] == lines_from(
                p,
                i,
            )[k],
        lines_from(p + y, i).last() == lines_from(p, i).last() + y,
    decreases p.len() - i,
{
    let q = p + y;
    lemma_find_from(p, '\n', i);
    lemma_find_from(q, '\n', i);
    let f = find_from(p, '\n', i);
    if f < p.len() {
        lemma_find_from_prefix(p, y, '\n', i);
        assert(f != p.len() - 1);
        assert(q.subrange(i, f) =~= p.subrange(i, f));
        lemma_lines_extend_last(p, y, f + 1);
        let rp = lines_from(p, f + 1);
        let rq = lines_from(q, f + 1);
        assert forall|k: int| 0 <= k < lines_from(p, i).len() - 1 implies #[trigger] lines_from(
            q,
            i,
        )[k] == lines_from(p, i)[k] by {
            if k > 0 {
                assert(lines_from(q, i)[k] == rq[k - 1]);
                assert(lines_from(p, i)[k] == rp[k - 1]);
            }
        }
        assert(lines_from(q, i).last() == rq.last());
        assert(lines_from(p, i).last() == rp.last());
    } else {
        assert forall|k: int| i <= k < q.len() implies q[k] != '\n' by {
            if k < p.len() {
                assert(q[k] == p[k]);
            } else {
                assert(q[k] == y[k - p.len()]);
                assert(y.contains(y[k - p.len()]));
            }
        }
        if find_from(q, '\n', i) < q.len() {
            assert(q[find_from(q, '\n', i)] == '\n');
        }
        assert(find_from(q, '\n', i) == q.len());
        assert(q.subrange(i, q.len() as int) =~= p.subrange(i, p.len() as int) + y);
        assert(lines_from(p, p.len() + 1int) =~= Seq::<Seq<char>>::empty());
        assert(lines_from(q, q.len() + 1int) =~= Seq::<Seq<char>>::empty());
        assert(lines_from(p, i) =~= seq![p.subrange(i, p.len() as int)]);
        assert(lines_from(q, i) =~= seq![p.subrange(i, p.len() as int) + y]);
    }
}

} // verus!

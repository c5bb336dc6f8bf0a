//! Documentation references in the shared context file. A reference is any
//! token that starts with the manifest's documentation root and a `/`; tokens
//! are split on whitespace and on the punctuation around a Markdown link, so
//! `[x](docs/A.md)` yields `docs/A.md`. Whether a reference resolves is a
//! question for the file system; this module finds the references and, given
//! the answers, lists the broken ones.
use vstd::prelude::*;
use crate::text::{chars_of, has_prefix, is_whitespace, is_ws, starts_with, string_from_chars};
use crate::yaml::strings_view;
use crate::status::keep;
use crate::hermes::lists;

verus! {

broadcast use vstd::string::group_string_axioms;

/// The characters tokens are split at: whitespace and `()[]<>"'`,;:!`.
pub open spec fn is_separator(c: char) -> bool {
    ||| is_ws(c)
    ||| c == '(' || c == ')' || c == '[' || c == ']' || c == '<' || c == '>'
    ||| c == '"' || c == '\'' || c == '`' || c == ',' || c == ';' || c == ':' || c == '!'
}

fn separator_char(c: char) -> (r: bool)
    ensures
        r == is_separator(c),
{
    is_whitespace(c) || c == '(' || c == ')' || c == '[' || c == ']' || c == '<' || c == '>'
        || c == '"' || c == '\'' || c == '`' || c == ',' || c == ';' || c == ':' || c == '!'
}

/// Splitting the first `k` characters of `s`: the finished tokens, and the
/// token still being read.
pub open spec fn split_state(s: Seq<char>, k: nat) -> (Seq<Seq<char>>, Seq<char>)
    decreases k,
{
    if k == 0 {
        (Seq::empty(), Seq::empty())
    } else {
        let (done, cur) = split_state(s, (k - 1) as nat);
        if is_separator(s[k - 1]) {
            (done.push(cur), Seq::empty())
        } else {
            (done, cur.push(s[k - 1]))
        }
    }
}

/// The tokens of `s`, as `str::split` on a separator predicate yields them:
/// one more than there are separators, empty ones included.
pub open spec fn tokens(s: Seq<char>) -> Seq<Seq<char>> {
    let (done, cur) = split_state(s, s.len());
    done.push(cur)
}

/// End of `u` once a run of trailing dots is dropped, looking below `j`.
pub open spec fn dots_start(u: Seq<char>, j: int) -> int
    decreases j,
{
    if 0 < j <= u.len() && u[j - 1] == '.' {
        dots_start(u, j - 1)
    } else {
        j
    }
}

/// The reference a token names: a leading `./` is the same reference, and
/// trailing dots are sentence punctuation.
pub open spec fn reference(t: Seq<char>) -> Seq<char> {
    let u = if has_prefix(t, seq!['.', '/']) {
        t.skip(2)
    } else {
        t
    };
    u.take(dots_start(u, u.len() as int))
}

/// A reference under the documentation root `root`.
pub open spec fn under(root: Seq<char>) -> spec_fn(Seq<char>) -> bool {
    |r: Seq<char>| has_prefix(r, root + seq!['/'])
}

/// The documentation references of `body`, in order, repeats included.
pub open spec fn doc_refs(body: Seq<char>, root: Seq<char>) -> Seq<Seq<char>> {
    keep(tokens(body).map_values(|t: Seq<char>| reference(t)), under(root))
}

/// Keeping from a sequence with one more element.
pub proof fn lemma_keep_push<T>(s: Seq<T>, x: T, p: spec_fn(T) -> bool)
    ensures
        keep(s.push(x), p) == keep(s, p) + (if p(x) {
            seq![x]
        } else {
            Seq::empty()
        }),
    decreases s.len(),
{
    if s.len() == 0 {
        assert(s.push(x).drop_first() =~= Seq::<T>::empty());
        assert(keep(s.push(x).drop_first(), p) =~= Seq::<T>::empty());
        assert(keep(s, p) =~= Seq::<T>::empty());
        assert(s.push(x)[0] == x);
        assert(keep(s.push(x), p) =~= keep(s, p) + (if p(x) {
            seq![x]
        } else {
            Seq::empty()
        }));
    } else {
        assert(s.push(x).drop_first() =~= s.drop_first().push(x));
        lemma_keep_push(s.drop_first(), x, p);
        assert(s.push(x)[0] == s[0]);
        assert(keep(s.push(x), p) =~= keep(s, p) + (if p(x) {
            seq![x]
        } else {
            Seq::empty()
        }));
    }
}

fn reference_of(t: &Vec<char>) -> (r: Vec<char>)
    ensures
        r@ == reference(t@),
{
    let dot_slash = vec!['.', '/'];
    assert(dot_slash@ =~= seq!['.', '/']);
    let from: usize = if starts_with(t, &dot_slash) {
        2
    } else {
        0
    };
    let ghost u = if has_prefix(t@, seq!['.', '/']) {
        t@.skip(2)
    } else {
        t@
    };
    assert(u =~= t@.subrange(from as int, t@.len() as int));
    let mut j: usize = t.len();
    while j > from && t[j - 1] == '.'
        invariant
            from <= j <= t.len(),
            u == t@.subrange(from as int, t@.len() as int),
            dots_start(u, j - from) == dots_start(u, u.len() as int),
        decreases j,
    {
        assert(u[j - 1 - from] == t@[j - 1]);
        j = j - 1;
    }
    if j > from {
        assert(u[j - 1 - from] == t@[j - 1]);
    }
    let mut out: Vec<char> = Vec::new();
    let mut k: usize = from;
    while k < j
        invariant
            from <= k <= j <= t.len(),
            out@ == t@.subrange(from as int, k as int),
        decreases j - k,
    {
        assert(t@.subrange(from as int, k + 1) =~= t@.subrange(from as int, k as int).push(t@[k as int]));
        out.push(t[k]);
        k = k + 1;
    }
    assert(out@ =~= u.take(dots_start(u, u.len() as int)));
    out
}

/// The documentation references in `body` under `docs_root`, in order, repeats
/// included.
pub fn doc_references(body: &str, docs_root: &str) -> (r: Vec<String>)
    ensures
        strings_view(r@) == doc_refs(body@, docs_root@),
{
    let b = chars_of(body);
    let mut prefix = chars_of(docs_root);
    prefix.push('/');
    let ghost p = under(docs_root@);
    let ghost f = |t: Seq<char>| reference(t);
    let mut out: Vec<String> = Vec::new();
    let mut cur: Vec<char> = Vec::new();
    let mut k: usize = 0;
    while k < b.len()
        invariant
            0 <= k <= b.len(),
            b@ == body@,
            prefix@ == docs_root@ + seq!['/'],
            p == under(docs_root@),
            f == (|t: Seq<char>| reference(t)),
            cur@ == split_state(b@, k as nat).1,
            strings_view(out@) == keep(split_state(b@, k as nat).0.map_values(f), p),
        decreases b.len() - k,
    {
        let c = b[k];
        let ghost done = split_state(b@, k as nat).0;
        if separator_char(c) {
            let r = reference_of(&cur);
            proof {
                assert(done.push(cur@).map_values(f) =~= done.map_values(f).push(r@));
                lemma_keep_push(done.map_values(f), r@, p);
            }
            if starts_with(&r, &prefix) {
                let s = string_from_chars(&r);
                proof {
                    assert(strings_view(out@.push(s)) =~= strings_view(out@).push(s@));
                }
                out.push(s);
            } else {
                assert(keep(done.map_values(f), p) + Seq::<Seq<char>>::empty() =~= keep(
                    done.map_values(f),
                    p,
                ));
            }
            cur = Vec::new();
        } else {
            cur.push(c);
        }
        k = k + 1;
    }
    let ghost done = split_state(b@, b.len() as nat).0;
    let r = reference_of(&cur);
    proof {
        assert(done.push(cur@).map_values(f) =~= done.map_values(f).push(r@));
        lemma_keep_push(done.map_values(f), r@, p);
    }
    if starts_with(&r, &prefix) {
        let s = string_from_chars(&r);
        proof {
            assert(strings_view(out@.push(s)) =~= strings_view(out@).push(s@));
        }
        out.push(s);
    } else {
        assert(keep(done.map_values(f), p) + Seq::<Seq<char>>::empty() =~= keep(
            done.map_values(f),
            p,
        ));
    }
    out
}

/// The broken references among the first `n`, each named once, in the order
/// of their first appearance.
pub open spec fn unique_broken(refs: Seq<Seq<char>>, resolves: Seq<bool>, n: nat) -> Seq<
    Seq<char>,
>
    decreases n,
{
    if n == 0 {
        Seq::empty()
    } else {
        let prev = unique_broken(refs, resolves, (n - 1) as nat);
        if !resolves[n - 1] && !prev.contains(refs[n - 1]) {
            prev.push(refs[n - 1])
        } else {
            prev
        }
    }
}

/// The references that do not resolve, given for each whether it does, each
/// named once.
pub fn broken_references(refs: &Vec<String>, resolves: &Vec<bool>) -> (r: Vec<String>)
    requires
        refs@.len() == resolves@.len(),
    ensures
        strings_view(r@) == unique_broken(strings_view(refs@), resolves@, refs@.len()),
{
    let mut out: Vec<String> = Vec::new();
    let mut k: usize = 0;
    while k < refs.len()
        invariant
            0 <= k <= refs.len(),
            refs@.len() == resolves@.len(),
            strings_view(out@) == unique_broken(strings_view(refs@), resolves@, k as nat),
        decreases refs.len() - k,
    {
        let r = chars_of(refs[k].as_str());
        assert(strings_view(refs@)[k as int] == r@);
        if !resolves[k] && !lists(&out, &r) {
            let s = string_from_chars(&r);
            proof {
                assert(strings_view(out@.push(s)) =~= strings_view(out@).push(s@));
            }
            out.push(s);
        }
        k = k + 1;
    }
    out
}

/// No token holds a character it is split at.
proof fn lemma_split_state_clean(s: Seq<char>, k: nat)
    requires
        k <= s.len(),
    ensures
        forall|i: int| 0 <= i < split_state(s, k).1.len() ==> !is_separator(#[trigger] split_state(s, k).1[i]),
        forall|j: int, i: int|
            0 <= j < split_state(s, k).0.len() && 0 <= i < split_state(s, k).0[j].len() ==> !is_separator(
                #[trigger] split_state(s, k).0[j][i],
            ),
    decreases k,
{
    if k > 0 {
        lemma_split_state_clean(s, (k - 1) as nat);
        let (done, cur) = split_state(s, (k - 1) as nat);
        if is_separator(s[k - 1]) {
            let d2 = done.push(cur);
            assert forall|j: int, i: int| 0 <= j < d2.len() && 0 <= i < d2[j].len() implies !is_separator(
                #[trigger] d2[j][i],
            ) by {
                if j < done.len() {
                    assert(d2[j] == done[j]);
                }
            }
        } else {
            let c2 = cur.push(s[k - 1]);
            assert forall|i: int| 0 <= i < c2.len() implies !is_separator(#[trigger] c2[i]) by {
                if i < cur.len() {
                    assert(c2[i] == cur[i]);
                }
            }
        }
    }
}

/// Dropping trailing dots keeps an end within the text.
proof fn lemma_dots_start(u: Seq<char>, j: int)
    requires
        0 <= j <= u.len(),
    ensures
        0 <= dots_start(u, j) <= j,
    decreases j,
{
    if 0 < j && u[j - 1] == '.' {
        lemma_dots_start(u, j - 1);
    }
}

/// A reference holds only characters of its token.
proof fn lemma_reference_within(t: Seq<char>)
    ensures
        forall|i: int| 0 <= i < reference(t).len() ==> exists|m: int| 0 <= m < t.len() && t[m] == #[trigger] reference(t)[i],
{
    let u = if has_prefix(t, seq!['.', '/']) {
        t.skip(2)
    } else {
        t
    };
    let r = reference(t);
    lemma_dots_start(u, u.len() as int);
    assert forall|i: int| 0 <= i < r.len() implies exists|m: int| 0 <= m < t.len() && t[m] == #[trigger] r[i] by {
        if has_prefix(t, seq!['.', '/']) {
            assert(r[i] == t[i + 2]);
        } else {
            assert(r[i] == t[i]);
        }
    }
}

/// A documentation reference never holds a character tokens are split at:
/// no whitespace and none of `()[]<>"'`,;:!`, the colon included, so
/// `docs/A.md:` names `docs/A.md`. Every reference starts with the
/// documentation root and a `/`.
pub proof fn lemma_references_hold_no_split_character(body: Seq<char>, root: Seq<char>)
    ensures
        forall|j: int, i: int|
            0 <= j < doc_refs(body, root).len() && 0 <= i < doc_refs(body, root)[j].len() ==> ({
                let c = #[trigger] doc_refs(body, root)[j][i];
                &&& !is_ws(c)
                &&& c != '(' && c != ')' && c != '[' && c != ']' && c != '<' && c != '>'
                &&& c != '"' && c != '\'' && c != '`' && c != ',' && c != ';' && c != ':' && c != '!'
            }),
        forall|j: int|
            0 <= j < doc_refs(body, root).len() ==> has_prefix(
                #[trigger] doc_refs(body, root)[j],
                root + seq!['/'],
            ),
{
    let f = |t: Seq<char>| reference(t);
    let toks = tokens(body);
    let refs = toks.map_values(f);
    let d = doc_refs(body, root);
    lemma_split_state_clean(body, body.len());
    crate::status::lemma_keep_contains(refs, under(root));
    let (done, cur) = split_state(body, body.len());
    assert(toks == done.push(cur));
    assert forall|j: int| 0 <= j < d.len() implies has_prefix(#[trigger] d[j], root + seq!['/'])
        && forall|i: int| 0 <= i < d[j].len() ==> !is_separator(#[trigger] d[j][i]) by {
        assert(d.contains(d[j]));
        let q = choose|q: int| 0 <= q < refs.len() && refs[q] == d[j];
        let t = toks[q];
        assert(d[j] == reference(t));
        lemma_reference_within(t);
        assert forall|i: int| 0 <= i < d[j].len() implies !is_separator(#[trigger] d[j][i]) by {
            let m = choose|m: int| 0 <= m < t.len() && t[m] == #[trigger] reference(t)[i];
            if q < done.len() {
                assert(t == done[q]);
                assert(!is_separator(done[q][m]));
            } else {
                assert(t == cur);
                assert(!is_separator(cur[m]));
            }
        }
    }
}

} // verus!

//! A YAML document as plain values, the parse that produces it, and the
//! mapping operations the editor's verification needs: lookup by string key,
//! insertion, removal and deep equality.
//!
//! `Yaml` holds what `serde_yaml_ng::Value` holds. Numbers are held as their
//! canonical text and tags as their canonical `!tag` text, so that no
//! floating-point value is handled here; equality is stated over those texts
//! so that it agrees with `Value`'s own `PartialEq`.
use vstd::prelude::*;
use crate::text::{chars_eq, chars_of, string_from_chars};

verus! {

#[verifier::external_type_specification]
#[verifier::external_body]
pub struct ExValue(serde_yaml_ng::Value);

/// A YAML value.
pub enum Yaml {
    Null,
    Bool(bool),
    /// A number, as `serde_yaml_ng::Number` displays it.
    Number(String),
    Str(String),
    Sequence(Vec<Yaml>),
    /// Entries in document order.
    Mapping(Vec<(Yaml, Yaml)>),
    /// A tagged value; the tag as `serde_yaml_ng::value::Tag` displays it.
    Tagged(String, Box<Yaml>),
}

/// The mathematical value of a `Yaml`.
pub enum YamlV {
    Null,
    Bool(bool),
    Number(Seq<char>),
    Str(Seq<char>),
    Sequence(Seq<YamlV>),
    Mapping(Seq<(YamlV, YamlV)>),
    Tagged(Seq<char>, Box<YamlV>),
}

pub open spec fn yaml_view(y: Yaml) -> YamlV
    decreases y,
{
    match y {
        Yaml::Null => YamlV::Null,
        Yaml::Bool(b) => YamlV::Bool(b),
        Yaml::Number(n) => YamlV::Number(n@),
        Yaml::Str(s) => YamlV::Str(s@),
        Yaml::Sequence(v) => YamlV::Sequence(
            Seq::new(
                v@.len(),
                |i: int|
                    if 0 <= i < v@.len() {
                        yaml_view(v@[i])
                    } else {
                        YamlV::Null
                    },
            ),
        ),
        Yaml::Mapping(v) => YamlV::Mapping(
            Seq::new(
                v@.len(),
                |i: int|
                    if 0 <= i < v@.len() {
                        (yaml_view(v@[i].0), yaml_view(v@[i].1))
                    } else {
                        (YamlV::Null, YamlV::Null)
                    },
            ),
        ),
        Yaml::Tagged(t, b) => YamlV::Tagged(t@, Box::new(yaml_view(*b))),
    }
}

impl View for Yaml {
    type V = YamlV;

    open spec fn view(&self) -> YamlV {
        yaml_view(*self)
    }
}

/// The values of a vector of mapping entries.
pub open spec fn entries_view(m: Seq<(Yaml, Yaml)>) -> Seq<(YamlV, YamlV)> {
    Seq::new(m.len(), |i: int| (m[i].0@, m[i].1@))
}

/// The values of a vector of strings.
pub open spec fn strings_view(v: Seq<String>) -> Seq<Seq<char>> {
    v.map_values(|s: String| s@)
}

/// The values of a vector of values.
pub open spec fn seq_view(v: Seq<Yaml>) -> Seq<YamlV> {
    Seq::new(v.len(), |i: int| v[i]@)
}

/// A value and its view are the same kind of node.
pub proof fn lemma_view_kind(y: Yaml)
    ensures
        (y is Null) == (y@ is Null),
        (y is Bool) == (y@ is Bool),
        (y is Number) == (y@ is Number),
        (y is Str) == (y@ is Str),
        (y is Sequence) == (y@ is Sequence),
        (y is Mapping) == (y@ is Mapping),
        (y is Tagged) == (y@ is Tagged),
{
}

/// The value of a mapping node is the value of its entries.
pub proof fn lemma_mapping_view(m: Vec<(Yaml, Yaml)>)
    ensures
        Yaml::Mapping(m)@ == YamlV::Mapping(entries_view(m@)),
{
    if let YamlV::Mapping(s) = yaml_view(Yaml::Mapping(m)) {
        assert(s =~= entries_view(m@));
    }
}

/// The value of a sequence node is the sequence of its items' values.
pub proof fn lemma_sequence_view(v: Vec<Yaml>)
    ensures
        Yaml::Sequence(v)@ == YamlV::Sequence(seq_view(v@)),
{
    if let YamlV::Sequence(s) = yaml_view(Yaml::Sequence(v)) {
        assert(s =~= seq_view(v@));
    }
}

/// What `serde_yaml_ng::from_str` makes of a YAML document: its value, or,
/// when the text is refused, the message of the error it is refused with.
pub uninterp spec fn yaml_parse(text: Seq<char>) -> Result<YamlV, Seq<char>>;

/// A value with every tag taken off, as `Value::as_mapping`, `as_sequence` and
/// `as_str` look through tags.
pub open spec fn untag(y: YamlV) -> YamlV
    decreases y,
{
    match y {
        YamlV::Tagged(_, inner) => untag(*inner),
        _ => y,
    }
}

/// The texts of two floating-point zeros, which compare equal.
pub open spec fn is_zero_text(n: Seq<char>) -> bool {
    n == seq!['0', '.', '0'] || n == seq!['-', '0', '.', '0']
}

/// Equality of two numbers given by their texts.
pub open spec fn number_eq(a: Seq<char>, b: Seq<char>) -> bool {
    a == b || (is_zero_text(a) && is_zero_text(b))
}

/// Deep equality of YAML values, as `Value`'s `PartialEq` decides it: the
/// entries of a mapping are compared without regard to their order.
pub open spec fn yaml_eq(a: YamlV, b: YamlV) -> bool
    decreases a,
{
    match a {
        YamlV::Null => b is Null,
        YamlV::Bool(x) => b == YamlV::Bool(x),
        YamlV::Number(x) => match b {
            YamlV::Number(y) => number_eq(x, y),
            _ => false,
        },
        YamlV::Str(x) => b == YamlV::Str(x),
        YamlV::Sequence(xs) => match b {
            YamlV::Sequence(ys) => xs.len() == ys.len() && forall|i: int|
                0 <= i < xs.len() ==> yaml_eq(#[trigger] xs[i], ys[i]),
            _ => false,
        },
        YamlV::Mapping(xs) => match b {
            YamlV::Mapping(ys) => xs.len() == ys.len() && forall|i: int|
                0 <= i < xs.len() ==> has_entry(ys, #[trigger] xs[i]),
            _ => false,
        },
        YamlV::Tagged(t, x) => match b {
            YamlV::Tagged(u, y) => t == u && yaml_eq(*x, *y),
            _ => false,
        },
    }
}

/// `ys` has an entry equal, key and value, to `x`.
pub open spec fn has_entry(ys: Seq<(YamlV, YamlV)>, x: (YamlV, YamlV)) -> bool
    decreases x,
{
    exists|q: int|
        #![trigger ys[q]]
        0 <= q < ys.len() && yaml_eq(x.0, ys[q].0) && yaml_eq(x.1, ys[q].1)
}

/// Deep equality of two mappings given by their entries.
pub open spec fn entries_eq(a: Seq<(YamlV, YamlV)>, b: Seq<(YamlV, YamlV)>) -> bool {
    yaml_eq(YamlV::Mapping(a), YamlV::Mapping(b))
}

/// The first entry whose key is the string `name`.
pub open spec fn find_from(m: Seq<(YamlV, YamlV)>, name: Seq<char>, i: int) -> Option<int>
    decreases m.len() - i,
{
    if i < 0 || i >= m.len() {
        None
    } else if m[i].0 == YamlV::Str(name) {
        Some(i)
    } else {
        find_from(m, name, i + 1)
    }
}

/// `Mapping::get` with a string key: the entry whose key is the string `name`.
pub open spec fn map_find(m: Seq<(YamlV, YamlV)>, name: Seq<char>) -> Option<int> {
    find_from(m, name, 0)
}

pub proof fn lemma_find_from(m: Seq<(YamlV, YamlV)>, name: Seq<char>, i: int)
    requires
        0 <= i,
    ensures
        find_from(m, name, i) matches Some(k) ==> i <= k < m.len() && m[k].0 == YamlV::Str(name),
    decreases m.len() - i,
{
    if i < m.len() && m[i].0 != YamlV::Str(name) {
        lemma_find_from(m, name, i + 1);
    }
}

/// No two entries of a mapping have equal keys, as `Mapping` keeps them.
pub open spec fn keys_unique(m: Seq<(YamlV, YamlV)>) -> bool {
    forall|i: int, j: int| 0 <= i < j < m.len() ==> !yaml_eq(#[trigger] m[i].0, #[trigger] m[j].0)
}

/// Every mapping within the value has unique keys.
pub open spec fn well_formed(y: YamlV) -> bool
    decreases y,
{
    match y {
        YamlV::Sequence(xs) => forall|i: int| 0 <= i < xs.len() ==> well_formed(#[trigger] xs[i]),
        YamlV::Mapping(m) => keys_unique(m) && forall|i: int|
            0 <= i < m.len() ==> well_formed(#[trigger] m[i].0) && well_formed(m[i].1),
        YamlV::Tagged(_, inner) => well_formed(*inner),
        _ => true,
    }
}

/// Lookup reads only the keys: two mappings with the same keys find the same
/// entry.
pub proof fn lemma_find_same_keys(a: Seq<(YamlV, YamlV)>, b: Seq<(YamlV, YamlV)>, name: Seq<char>, i: int)
    requires
        a.len() == b.len(),
        forall|k: int| 0 <= k < a.len() ==> (#[trigger] a[k]).0 == b[k].0,
    ensures
        find_from(a, name, i) == find_from(b, name, i),
    decreases a.len() - i,
{
    if 0 <= i < a.len() && a[i].0 != YamlV::Str(name) {
        lemma_find_same_keys(a, b, name, i + 1);
    }
}

/// Lookup after adding an entry last: what was found before, else the new
/// entry if its key is the name.
pub proof fn lemma_find_push(m: Seq<(YamlV, YamlV)>, x: (YamlV, YamlV), name: Seq<char>, i: int)
    requires
        0 <= i <= m.len(),
    ensures
        find_from(m.push(x), name, i) == (match find_from(m, name, i) {
            Some(k) => Some(k),
            None => if x.0 == YamlV::Str(name) {
                Some(m.len() as int)
            } else {
                None
            },
        }),
    decreases m.len() - i,
{
    if i < m.len() {
        assert(m.push(x)[i] == m[i]);
        if m[i].0 != YamlV::Str(name) {
            lemma_find_push(m, x, name, i + 1);
        }
    } else {
        assert(m.push(x)[i] == x);
        assert(find_from(m.push(x), name, i + 1) is None);
        assert(find_from(m, name, i) is None);
    }
}

/// Every value is deeply equal to itself.
pub proof fn lemma_yaml_eq_refl(a: YamlV)
    ensures
        yaml_eq(a, a),
    decreases a,
{
    match a {
        YamlV::Sequence(xs) => {
            assert forall|i: int| 0 <= i < xs.len() implies yaml_eq(#[trigger] xs[i], xs[i]) by {
                lemma_yaml_eq_refl(xs[i]);
            }
        },
        YamlV::Mapping(xs) => {
            assert forall|i: int| 0 <= i < xs.len() implies has_entry(xs, #[trigger] xs[i]) by {
                lemma_entry_refl(xs[i]);
            }
        },
        YamlV::Tagged(_, x) => {
            lemma_yaml_eq_refl(*x);
        },
        _ => {},
    }
}

/// Both halves of an entry are deeply equal to themselves.
pub proof fn lemma_entry_refl(x: (YamlV, YamlV))
    ensures
        yaml_eq(x.0, x.0),
        yaml_eq(x.1, x.1),
    decreases x,
{
    lemma_yaml_eq_refl(x.0);
    lemma_yaml_eq_refl(x.1);
}

/// A name that lookup does not find is the key of no entry.
pub proof fn lemma_find_none(m: Seq<(YamlV, YamlV)>, name: Seq<char>, i: int)
    requires
        0 <= i,
        find_from(m, name, i) is None,
    ensures
        forall|k: int| i <= k < m.len() ==> (#[trigger] m[k]).0 != YamlV::Str(name),
    decreases m.len() - i,
{
    if i < m.len() {
        lemma_find_none(m, name, i + 1);
    }
}

/// Lookup finds the first entry whose key is the name.
pub proof fn lemma_find_first(m: Seq<(YamlV, YamlV)>, name: Seq<char>, i: int, q: int)
    requires
        0 <= i <= q < m.len(),
        m[q].0 == YamlV::Str(name),
        forall|k: int| i <= k < q ==> (#[trigger] m[k]).0 != YamlV::Str(name),
    ensures
        find_from(m, name, i) == Some(q),
    decreases q - i,
{
    if i < q {
        lemma_find_first(m, name, i + 1, q);
    }
}

/// Removing an entry put in anywhere into a mapping that lacked its key
/// gives a mapping deeply equal to the first: the same entries, the last of
/// them perhaps moved into the removed entry's place.
pub proof fn lemma_remove_inserted(m: Seq<(YamlV, YamlV)>, q: int, e: (YamlV, YamlV), name: Seq<char>)
    requires
        0 <= q <= m.len(),
        map_find(m, name) is None,
        e.0 == YamlV::Str(name),
    ensures
        map_find(m.insert(q, e), name) == Some(q),
        entries_eq(map_remove(m.insert(q, e), name), m),
{
    let n = m.insert(q, e);
    m.insert_ensures(q, e);
    lemma_find_none(m, name, 0);
    assert forall|k: int| 0 <= k < q implies (#[trigger] n[k]).0 != YamlV::Str(name) by {
        assert(n[k] == m[k]);
    }
    lemma_find_first(n, name, 0, q);
    let r = n.update(q, n.last()).drop_last();
    assert(map_remove(n, name) == r);
    assert forall|k: int| 0 <= k < r.len() implies has_entry(m, #[trigger] r[k]) by {
        let w = if k < q {
            k
        } else if k == q {
            m.len() - 1
        } else {
            k - 1
        };
        if k < q {
            assert(r[k] == n[k]);
        } else if k == q {
            if q == m.len() {
                assert(false);
            }
            assert(n.last() == n[m.len() as int]);
            assert(n[(m.len() - 1) + 1] == m[m.len() - 1]);
        } else {
            assert(r[k] == n[k]);
            assert(n[(k - 1) + 1] == m[k - 1]);
        }
        assert(r[k] == m[w]);
        lemma_entry_refl(m[w]);
    }
}

/// `Mapping::insert` with a string key: the value of an existing key is
/// replaced in place, and a new key goes last.
pub open spec fn map_insert(m: Seq<(YamlV, YamlV)>, name: Seq<char>, v: YamlV) -> Seq<
    (YamlV, YamlV),
> {
    match map_find(m, name) {
        Some(i) => m.update(i, (m[i].0, v)),
        None => m.push((YamlV::Str(name), v)),
    }
}

/// `Mapping::remove` with a string key: the last entry takes the removed
/// entry's place.
pub open spec fn map_remove(m: Seq<(YamlV, YamlV)>, name: Seq<char>) -> Seq<(YamlV, YamlV)> {
    match map_find(m, name) {
        Some(i) => m.update(i, m.last()).drop_last(),
        None => m,
    }
}

/// `serde_yaml_ng::from_str::<Value>` on `text`: the document, or the `Display`
/// text of the error `serde_yaml_ng` refused it with. A document's mappings
/// have unique keys: `Mapping`'s deserializer refuses a duplicate entry. Both are what
/// `yaml_parse` names for the text; what the parse yields for given text is
/// not stated here: it is `serde_yaml_ng`'s.
#[verifier::external_body]
pub(crate) fn parse_yaml(text: &str) -> (r: Result<Yaml, String>)
    ensures
        match r {
            Ok(d) => yaml_parse(text@) == Ok::<YamlV, Seq<char>>(d@) && well_formed(d@),
            Err(m) => yaml_parse(text@) == Err::<YamlV, Seq<char>>(m@),
        },
{
    match serde_yaml_ng::from_str::<serde_yaml_ng::Value>(text) {
        Ok(value) => Ok(yaml_from_value(value)),
        Err(err) => Err(err.to_string()),
    }
}

/// Converts a `serde_yaml_ng::Value` variant by variant: numbers and tags by
/// their `Display` text, every other field moved as it is. Called only by
/// `parse_yaml`, whose contract covers it.
#[verifier::external_body]
fn yaml_from_value(value: serde_yaml_ng::Value) -> Yaml {
    match value {
        serde_yaml_ng::Value::Null => Yaml::Null,
        serde_yaml_ng::Value::Bool(b) => Yaml::Bool(b),
        serde_yaml_ng::Value::Number(n) => Yaml::Number(n.to_string()),
        serde_yaml_ng::Value::String(s) => Yaml::Str(s),
        serde_yaml_ng::Value::Sequence(v) => Yaml::Sequence(v.into_iter().map(yaml_from_value).collect()),
        serde_yaml_ng::Value::Mapping(m) => Yaml::Mapping(
            m.into_iter().map(|(k, v)| (yaml_from_value(k), yaml_from_value(v))).collect(),
        ),
        serde_yaml_ng::Value::Tagged(t) => Yaml::Tagged(t.tag.to_string(), Box::new(yaml_from_value(t.value))),
    }
}

/// The value beneath every tag.
pub fn untag_ref(y: &Yaml) -> (r: &Yaml)
    ensures
        r@ == untag(y@),
    decreases y,
{
    match y {
        Yaml::Tagged(_, inner) => untag_ref(inner),
        _ => y,
    }
}

/// `k` is the string `name`.
pub fn is_str_key(k: &Yaml, name: &Vec<char>) -> (r: bool)
    ensures
        r == (k@ == YamlV::Str(name@)),
{
    match k {
        Yaml::Str(s) => {
            let cs = chars_of(s.as_str());
            chars_eq(&cs, name)
        },
        _ => false,
    }
}

/// The index of the entry whose key is the string `name`.
pub fn find_key(m: &Vec<(Yaml, Yaml)>, name: &Vec<char>) -> (r: Option<usize>)
    ensures
        match r {
            Some(i) => map_find(entries_view(m@), name@) == Some(i as int),
            None => map_find(entries_view(m@), name@) is None,
        },
        r matches Some(i) ==> i < m@.len(),
{
    let ghost ev = entries_view(m@);
    let mut i: usize = 0;
    while i < m.len()
        invariant
            0 <= i <= m@.len(),
            ev == entries_view(m@),
            map_find(ev, name@) == find_from(ev, name@, i as int),
        decreases m.len() - i,
    {
        if is_str_key(&m[i].0, name) {
            return Some(i);
        }
        i = i + 1;
    }
    None
}

/// Two strings hold the same characters.
pub fn strings_eq(a: &String, b: &String) -> (r: bool)
    ensures
        r == (a@ == b@),
{
    let x = chars_of(a.as_str());
    let y = chars_of(b.as_str());
    chars_eq(&x, &y)
}

fn number_text_eq(a: &String, b: &String) -> (r: bool)
    ensures
        r == number_eq(a@, b@),
{
    let x = chars_of(a.as_str());
    let y = chars_of(b.as_str());
    let zero = vec!['0', '.', '0'];
    let negzero = vec!['-', '0', '.', '0'];
    chars_eq(&x, &y) || ((chars_eq(&x, &zero) || chars_eq(&x, &negzero)) && (chars_eq(&y, &zero)
        || chars_eq(&y, &negzero)))
}

/// Deep equality of two values, as `Value`'s `PartialEq` decides it.
pub fn yaml_equal(a: &Yaml, b: &Yaml) -> (r: bool)
    ensures
        r == yaml_eq(a@, b@),
    decreases a,
{
    proof {
        lemma_view_kind(*a);
        lemma_view_kind(*b);
    }
    match a {
        Yaml::Null => match b {
            Yaml::Null => true,
            _ => false,
        },
        Yaml::Bool(x) => match b {
            Yaml::Bool(y) => *x == *y,
            _ => false,
        },
        Yaml::Number(x) => match b {
            Yaml::Number(y) => number_text_eq(x, y),
            _ => false,
        },
        Yaml::Str(x) => match b {
            Yaml::Str(y) => strings_eq(x, y),
            _ => false,
        },
        Yaml::Sequence(xs) => match b {
            Yaml::Sequence(ys) => {
                proof {
                    lemma_sequence_view(*xs);
                    lemma_sequence_view(*ys);
                }
                items_equal(xs, ys)
            },
            _ => false,
        },
        Yaml::Mapping(xs) => match b {
            Yaml::Mapping(ys) => {
                proof {
                    lemma_mapping_view(*xs);
                    lemma_mapping_view(*ys);
                }
                entries_equal(xs, ys)
            },
            _ => false,
        },
        Yaml::Tagged(t, x) => match b {
            Yaml::Tagged(u, y) => strings_eq(t, u) && yaml_equal(x, y),
            _ => false,
        },
    }
}

/// Deep equality of two sequences given by their items.
pub fn items_equal(xs: &Vec<Yaml>, ys: &Vec<Yaml>) -> (r: bool)
    ensures
        r == yaml_eq(YamlV::Sequence(seq_view(xs@)), YamlV::Sequence(seq_view(ys@))),
    decreases xs,
{
    let ghost a = seq_view(xs@);
    let ghost b = seq_view(ys@);
    if xs.len() != ys.len() {
        return false;
    }
    let mut i: usize = 0;
    while i < xs.len()
        invariant
            0 <= i <= xs@.len(),
            xs@.len() == ys@.len(),
            a == seq_view(xs@),
            b == seq_view(ys@),
            forall|k: int| 0 <= k < i ==> yaml_eq(#[trigger] a[k], b[k]),
        decreases xs.len() - i,
    {
        proof {
            assert(decreases_to!(xs => xs@));
            assert(decreases_to!(xs@ => xs@[i as int]));
            assert(a[i as int] == xs@[i as int]@);
            assert(b[i as int] == ys@[i as int]@);
        }
        if !yaml_equal(&xs[i], &ys[i]) {
            return false;
        }
        i = i + 1;
    }
    true
}

/// Some entry of `ys` has a key equal to `x`'s key and a value equal to `x`'s value.
pub fn entry_found(x: &(Yaml, Yaml), ys: &Vec<(Yaml, Yaml)>) -> (r: bool)
    ensures
        r == has_entry(entries_view(ys@), (x.0@, x.1@)),
    decreases x,
{
    let ghost yv = entries_view(ys@);
    let mut j: usize = 0;
    while j < ys.len()
        invariant
            0 <= j <= ys@.len(),
            yv == entries_view(ys@),
            forall|m: int|
                #![trigger yv[m]]
                0 <= m < j ==> !(yaml_eq(x.0@, yv[m].0) && yaml_eq(x.1@, yv[m].1)),
        decreases ys.len() - j,
    {
        proof {
            assert(yv[j as int] == (ys@[j as int].0@, ys@[j as int].1@));
        }
        if yaml_equal(&x.0, &ys[j].0) && yaml_equal(&x.1, &ys[j].1) {
            return true;
        }
        j = j + 1;
    }
    false
}

/// Deep equality of two mappings given by their entries.
pub fn entries_equal(xs: &Vec<(Yaml, Yaml)>, ys: &Vec<(Yaml, Yaml)>) -> (r: bool)
    ensures
        r == entries_eq(entries_view(xs@), entries_view(ys@)),
    decreases xs,
{
    let ghost xv = entries_view(xs@);
    let ghost yv = entries_view(ys@);
    if xs.len() != ys.len() {
        return false;
    }
    let mut i: usize = 0;
    while i < xs.len()
        invariant
            0 <= i <= xs@.len(),
            xs@.len() == ys@.len(),
            xv == entries_view(xs@),
            yv == entries_view(ys@),
            forall|k: int| 0 <= k < i ==> has_entry(yv, #[trigger] xv[k]),
        decreases xs.len() - i,
    {
        proof {
            assert(decreases_to!(xs => xs@));
            assert(decreases_to!(xs@ => xs@[i as int]));
            assert(xv[i as int] == (xs@[i as int].0@, xs@[i as int].1@));
        }
        if !entry_found(&xs[i], ys) {
            return false;
        }
        i = i + 1;
    }
    true
}

/// A copy of a value.
pub fn clone_yaml(y: &Yaml) -> (r: Yaml)
    ensures
        r@ == y@,
    decreases y,
{
    match y {
        Yaml::Null => Yaml::Null,
        Yaml::Bool(b) => Yaml::Bool(*b),
        Yaml::Number(n) => Yaml::Number(n.clone()),
        Yaml::Str(s) => Yaml::Str(s.clone()),
        Yaml::Sequence(xs) => {
            let out = clone_items(xs);
            proof {
                lemma_sequence_view(out);
                lemma_sequence_view(*xs);
            }
            Yaml::Sequence(out)
        },
        Yaml::Mapping(xs) => {
            let out = clone_entries(xs);
            proof {
                lemma_mapping_view(out);
                lemma_mapping_view(*xs);
            }
            Yaml::Mapping(out)
        },
        Yaml::Tagged(t, inner) => Yaml::Tagged(t.clone(), Box::new(clone_yaml(inner))),
    }
}

/// A copy of a vector of values.
pub fn clone_items(xs: &Vec<Yaml>) -> (r: Vec<Yaml>)
    ensures
        seq_view(r@) == seq_view(xs@),
    decreases xs,
{
    let mut out: Vec<Yaml> = Vec::new();
    let mut i: usize = 0;
    while i < xs.len()
        invariant
            0 <= i <= xs@.len(),
            out@.len() == i,
            forall|k: int| 0 <= k < i ==> #[trigger] out@[k]@ == xs@[k]@,
        decreases xs.len() - i,
    {
        proof {
            assert(decreases_to!(xs => xs@));
            assert(decreases_to!(xs@ => xs@[i as int]));
        }
        out.push(clone_yaml(&xs[i]));
        i = i + 1;
    }
    assert(seq_view(out@) =~= seq_view(xs@));
    out
}

/// A copy of a vector of entries.
pub fn clone_entries(xs: &Vec<(Yaml, Yaml)>) -> (r: Vec<(Yaml, Yaml)>)
    ensures
        entries_view(r@) == entries_view(xs@),
    decreases xs,
{
    let mut out: Vec<(Yaml, Yaml)> = Vec::new();
    let mut i: usize = 0;
    while i < xs.len()
        invariant
            0 <= i <= xs@.len(),
            out@.len() == i,
            forall|k: int|
                0 <= k < i ==> #[trigger] out@[k].0@ == xs@[k].0@ && out@[k].1@ == xs@[k].1@,
        decreases xs.len() - i,
    {
        proof {
            assert(decreases_to!(xs => xs@));
            assert(decreases_to!(xs@ => xs@[i as int]));
        }
        let k = clone_yaml(&xs[i].0);
        let v = clone_yaml(&xs[i].1);
        out.push((k, v));
        i = i + 1;
    }
    assert(entries_view(out@) =~= entries_view(xs@));
    out
}

/// Sets the value of the string key `name`, as `Mapping::insert` does.
pub fn map_set(m: &mut Vec<(Yaml, Yaml)>, name: &Vec<char>, v: Yaml)
    ensures
        entries_view(final(m)@) == map_insert(entries_view(old(m)@), name@, v@),
{
    let ghost ev = entries_view(m@);
    match find_key(m, name) {
        Some(i) => {
            let (k, _) = m.remove(i);
            m.insert(i, (k, v));
            assert(entries_view(m@) =~= map_insert(ev, name@, v@));
        },
        None => {
            let key = Yaml::Str(string_from_chars(name));
            m.push((key, v));
            assert(entries_view(m@) =~= map_insert(ev, name@, v@));
        },
    }
}

/// Removes the string key `name`, as `Mapping::remove` does.
pub fn map_delete(m: &mut Vec<(Yaml, Yaml)>, name: &Vec<char>)
    ensures
        entries_view(final(m)@) == map_remove(entries_view(old(m)@), name@),
{
    let ghost ev = entries_view(m@);
    match find_key(m, name) {
        Some(i) => {
            m.swap_remove(i);
            assert(entries_view(m@) =~= map_remove(ev, name@));
        },
        None => {},
    }
}

} // verus!

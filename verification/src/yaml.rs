//! The value tree a frontmatter block is read into.
//!
//! A [`Yaml`] holds exactly what the checks read of a parsed YAML document:
//! scalars as their text, sequences and mappings in document order, and tags.
//! Every lookup the checks make is stated here once, as a spec function, and
//! implemented once, against it.

use vstd::prelude::*;

verus! {

/// One node of a parsed YAML document.
///
/// Numbers keep the text YAML's own number type prints them as; mappings keep
/// their entries in document order (the parser rejects a repeated key).
#[derive(Debug, PartialEq)]
pub enum Yaml {
    Null,
    Bool(bool),
    Number(String),
    Text(String),
    Sequence(Vec<Yaml>),
    Mapping(Vec<(Yaml, Yaml)>),
    Tagged(String, Box<Yaml>),
}

/// What `serde_yaml` reads a text as: the document, or the parser's message.
/// It depends on the text alone.
pub uninterp spec fn yaml_load(text: Seq<char>) -> Result<Yaml, Seq<char>>;

/// Parses `text` as one YAML document with `serde_yaml::from_str::<Value>`,
/// and hands back the document as a [`Yaml`] tree, or the parser's error
/// message. The contract claims only that the outcome is the named result
/// [`yaml_load`] of the text: the YAML grammar itself is not restated here.
#[verifier::external_body]
pub(crate) fn parse_yaml(text: &str) -> (res: Result<Yaml, String>)
    ensures
        match res {
            Ok(v) => yaml_load(text@) == Ok::<Yaml, Seq<char>>(v),
            Err(e) => yaml_load(text@) == Err::<Yaml, Seq<char>>(e@),
        },
{
    match serde_yaml::from_str::<serde_yaml::Value>(text) {
        Ok(v) => Ok(from_serde(v)),
        Err(e) => Err(e.to_string()),
    }
}

/// The outside value type `serde_yaml` parses into, known to the verifier only
/// by name.
#[verifier::external_type_specification]
#[verifier::external_body]
pub struct ExSerdeYamlValue(serde_yaml::Value);

/// Converts a `serde_yaml::Value` node for node into a [`Yaml`]: numbers and
/// tags by their printed text, sequences and mappings in their own order.
/// Called only inside [`parse_yaml`]; nothing is claimed of it on its own.
#[verifier::external_body]
fn from_serde(v: serde_yaml::Value) -> Yaml {
    match v {
        serde_yaml::Value::Null => Yaml::Null,
        serde_yaml::Value::Bool(b) => Yaml::Bool(b),
        serde_yaml::Value::Number(n) => Yaml::Number(n.to_string()),
        serde_yaml::Value::String(s) => Yaml::Text(s),
        serde_yaml::Value::Sequence(s) => Yaml::Sequence(s.into_iter().map(from_serde).collect()),
        serde_yaml::Value::Mapping(m) => Yaml::Mapping(
            m.into_iter().map(|(k, x)| (from_serde(k), from_serde(x))).collect(),
        ),
        serde_yaml::Value::Tagged(t) => Yaml::Tagged(t.tag.to_string(), Box::new(from_serde(t.value))),
    }
}

/// An entry's value lies below the mapping that holds it.
pub proof fn lemma_entry_below(v: Yaml, m: Vec<(Yaml, Yaml)>, j: int)
    requires
        v == Yaml::Mapping(m),
        0 <= j < m@.len(),
    ensures
        decreases_to!(v => m@[j].1),
{
    broadcast use vstd::std_specs::vec::group_vec_axioms;
    assert(decreases_to!(v => v->Mapping_0));
    assert(decreases_to!(m => m@));
    assert(decreases_to!(m@ => m@[j]));
    assert(decreases_to!(m@[j] => m@[j].1));
}

/// An entry's key lies below the mapping that holds it.
pub proof fn lemma_key_below(v: Yaml, m: Vec<(Yaml, Yaml)>, j: int)
    requires
        v == Yaml::Mapping(m),
        0 <= j < m@.len(),
    ensures
        decreases_to!(v => m@[j].0),
{
    broadcast use vstd::std_specs::vec::group_vec_axioms;
    assert(decreases_to!(v => v->Mapping_0));
    assert(decreases_to!(m => m@));
    assert(decreases_to!(m@ => m@[j]));
    assert(decreases_to!(m@[j] => m@[j].0));
}

/// An item lies below the sequence that holds it.
pub proof fn lemma_item_below(v: Yaml, s: Vec<Yaml>, j: int)
    requires
        v == Yaml::Sequence(s),
        0 <= j < s@.len(),
    ensures
        decreases_to!(v => s@[j]),
{
    broadcast use vstd::std_specs::vec::group_vec_axioms;
    assert(decreases_to!(v => v->Sequence_0));
    assert(decreases_to!(s => s@));
    assert(decreases_to!(s@ => s@[j]));
}

/// A node with every tag peeled off (tags are transparent to key lookup).
pub open spec fn untag(v: Yaml) -> Yaml
    decreases v,
{
    match v {
        Yaml::Tagged(_, inner) => untag(*inner),
        _ => v,
    }
}

/// A mapping key that is the string `key`.
pub open spec fn key_is(k: Yaml, key: Seq<char>) -> bool {
    k matches Yaml::Text(s) && s@ == key
}

/// The value at the first entry keyed by the string `key`.
pub open spec fn lookup(entries: Seq<(Yaml, Yaml)>, key: Seq<char>) -> Option<Yaml>
    decreases entries.len(),
{
    if entries.len() == 0 {
        None
    } else if key_is(entries[0].0, key) {
        Some(entries[0].1)
    } else {
        lookup(entries.drop_first(), key)
    }
}

/// `v[key]`: the value under the string key `key` of the mapping `v` is (tags
/// peeled), or nothing if `v` is not a mapping or has no such key.
pub open spec fn get(v: Yaml, key: Seq<char>) -> Option<Yaml> {
    match untag(v) {
        Yaml::Mapping(m) => lookup(m@, key),
        _ => None,
    }
}

/// The string a value is, if it is one.
pub open spec fn text_of(v: Option<Yaml>) -> Option<Seq<char>> {
    match v {
        Some(Yaml::Text(s)) => Some(s@),
        _ => None,
    }
}

/// The string field `key` of `v`.
pub open spec fn str_field(v: Yaml, key: Seq<char>) -> Option<Seq<char>> {
    text_of(get(v, key))
}

/// A mapping key rendered as a path segment.
pub open spec fn key_text(k: Yaml) -> Seq<char> {
    match k {
        Yaml::Text(s) => s@,
        Yaml::Number(n) => n@,
        Yaml::Bool(b) => if b { "true"@ } else { "false"@ },
        _ => "?"@,
    }
}

/// A value rendered for a finding's detail line.
pub open spec fn render_text(v: Yaml) -> Seq<char> {
    match v {
        Yaml::Text(s) => s@,
        Yaml::Number(n) => n@,
        Yaml::Bool(b) => if b { "true"@ } else { "false"@ },
        Yaml::Null => "null"@,
        _ => "<structured>"@,
    }
}

/// A borrowed option, dereferenced.
pub open spec fn deref_opt(o: Option<&Yaml>) -> Option<Yaml> {
    match o {
        Some(x) => Some(*x),
        None => None,
    }
}

/// An optional string, by its characters.
pub open spec fn opt_view(o: Option<String>) -> Option<Seq<char>> {
    match o {
        Some(s) => Some(s@),
        None => None,
    }
}

/// Whether two strings hold the same characters.
pub fn str_eq(a: &str, b: &str) -> (r: bool)
    ensures
        r == (a@ == b@),
{
    a.to_owned() == b.to_owned()
}

impl Yaml {
    /// The node with every tag peeled off.
    pub fn untag_ref(&self) -> (r: &Yaml)
        ensures
            *r == untag(*self),
        decreases self,
    {
        match self {
            Yaml::Tagged(_, inner) => inner.untag_ref(),
            _ => self,
        }
    }

    /// `self[key]`.
    pub fn get<'a>(&'a self, key: &str) -> (r: Option<&'a Yaml>)
        ensures
            deref_opt(r) == get(*self, key@),
    {
        match self.untag_ref() {
            Yaml::Mapping(m) => lookup_in(m, key),
            _ => None,
        }
    }

    /// The string field `key` of this node, cloned.
    pub fn str_field(&self, key: &str) -> (r: Option<String>)
        ensures
            opt_view(r) == str_field(*self, key@),
    {
        match self.get(key) {
            Some(Yaml::Text(s)) => Some(s.clone()),
            _ => None,
        }
    }
}

/// The value at the first entry of `entries` keyed by the string `key`.
pub fn lookup_in<'a>(entries: &'a Vec<(Yaml, Yaml)>, key: &str) -> (r: Option<&'a Yaml>)
    ensures
        deref_opt(r) == lookup(entries@, key@),
{
    let mut i: usize = 0;
    proof {
        assert(entries@.skip(0) =~= entries@);
    }
    while i < entries.len()
        invariant
            i <= entries@.len(),
            lookup(entries@, key@) == lookup(entries@.skip(i as int), key@),
        decreases entries.len() - i,
    {
        let hit = match &entries[i].0 {
            Yaml::Text(s) => str_eq(s.as_str(), key),
            _ => false,
        };
        if hit {
            return Some(&entries[i].1);
        }
        proof {
            assert(entries@.skip(i as int).drop_first() =~= entries@.skip(i + 1));
        }
        i = i + 1;
    }
    None
}

/// Two numbers, by the text YAML's number type prints them as, are the same
/// value: the printed text is one per value (integers in decimal, floats in
/// their shortest form, one `.nan`), save for the one float value with two
/// signs, `0.0` and `-0.0`, which compare equal.
pub open spec fn num_eq(x: Seq<char>, y: Seq<char>) -> bool {
    x == y || (signed_zero(x) && signed_zero(y))
}

/// The float zero, of either sign.
pub open spec fn signed_zero(x: Seq<char>) -> bool {
    x == "0.0"@ || x == "-0.0"@
}

/// Whether two printed numbers are the same value.
pub fn number_equal(x: &str, y: &str) -> (r: bool)
    ensures
        r == num_eq(x@, y@),
{
    str_eq(x, y) || ((str_eq(x, "0.0") || str_eq(x, "-0.0")) && (str_eq(y, "0.0") || str_eq(y, "-0.0")))
}

/// Value equality as YAML's value type has it: numbers by value, other
/// scalars by their text, sequences item by item, mappings as maps (the same
/// number of entries, and each entry matched by an equal key holding an equal
/// value), tags by name.
pub open spec fn yaml_eq(a: Yaml, b: Yaml) -> bool
    decreases a, 0int,
{
    match (a, b) {
        (Yaml::Null, Yaml::Null) => true,
        (Yaml::Bool(x), Yaml::Bool(y)) => x == y,
        (Yaml::Number(x), Yaml::Number(y)) => num_eq(x@, y@),
        (Yaml::Text(x), Yaml::Text(y)) => x@ == y@,
        (Yaml::Sequence(x), Yaml::Sequence(y)) => seq_eq(x@, y@),
        (Yaml::Mapping(x), Yaml::Mapping(y)) => x@.len() == y@.len() && all_found(x@, y@),
        (Yaml::Tagged(t, x), Yaml::Tagged(u, y)) => t@ == u@ && yaml_eq(*x, *y),
        _ => false,
    }
}

/// Two sequences of values, equal item by item.
pub open spec fn seq_eq(xs: Seq<Yaml>, ys: Seq<Yaml>) -> bool
    decreases xs, 0int,
{
    if xs.len() != ys.len() {
        false
    } else if xs.len() == 0 {
        true
    } else {
        yaml_eq(xs[0], ys[0]) && seq_eq(xs.drop_first(), ys.drop_first())
    }
}

/// Every entry of `xs` is matched in `ys`.
pub open spec fn all_found(xs: Seq<(Yaml, Yaml)>, ys: Seq<(Yaml, Yaml)>) -> bool
    decreases xs, 0int,
{
    if xs.len() == 0 {
        true
    } else {
        found(xs[0], ys) && all_found(xs.drop_first(), ys)
    }
}

/// Some entry of `ys` has a key equal to `e`'s and a value equal to `e`'s.
pub open spec fn found(e: (Yaml, Yaml), ys: Seq<(Yaml, Yaml)>) -> bool
    decreases e, ys.len(),
{
    if ys.len() == 0 {
        false
    } else {
        (yaml_eq(e.0, ys[0].0) && yaml_eq(e.1, ys[0].1)) || found(e, ys.drop_first())
    }
}

/// Value equality, as [`yaml_eq`] states it.
pub fn yaml_equal(a: &Yaml, b: &Yaml) -> (r: bool)
    ensures
        r == yaml_eq(*a, *b),
    decreases *a,
{
    match a {
        Yaml::Null => matches!(b, Yaml::Null),
        Yaml::Bool(x) => match b {
            Yaml::Bool(y) => *x == *y,
            _ => false,
        },
        Yaml::Number(x) => match b {
            Yaml::Number(y) => number_equal(x.as_str(), y.as_str()),
            _ => false,
        },
        Yaml::Text(x) => match b {
            Yaml::Text(y) => str_eq(x.as_str(), y.as_str()),
            _ => false,
        },
        Yaml::Sequence(xs) => match b {
            Yaml::Sequence(ys) => {
                if xs.len() != ys.len() {
                    proof {
                        assert(!seq_eq(xs@, ys@));
                    }
                    return false;
                }
                let mut i: usize = 0;
                proof {
                    assert(xs@.skip(0) =~= xs@);
                    assert(ys@.skip(0) =~= ys@);
                }
                while i < xs.len()
                    invariant
                        *a == Yaml::Sequence(*xs),
                        *b == Yaml::Sequence(*ys),
                        xs@.len() == ys@.len(),
                        i <= xs@.len(),
                        seq_eq(xs@, ys@) == seq_eq(xs@.skip(i as int), ys@.skip(i as int)),
                    decreases xs.len() - i,
                {
                    proof {
                        lemma_item_below(*a, *xs, i as int);
                        assert(xs@.skip(i as int).drop_first() =~= xs@.skip(i + 1));
                        assert(ys@.skip(i as int).drop_first() =~= ys@.skip(i + 1));
                        assert(xs@.skip(i as int)[0] == xs@[i as int]);
                        assert(ys@.skip(i as int)[0] == ys@[i as int]);
                    }
                    if !yaml_equal(&xs[i], &ys[i]) {
                        proof {
                            assert(!seq_eq(xs@.skip(i as int), ys@.skip(i as int)));
                        }
                        return false;
                    }
                    i = i + 1;
                }
                true
            },
            _ => false,
        },
        Yaml::Mapping(xs) => match b {
            Yaml::Mapping(ys) => {
                if xs.len() != ys.len() {
                    return false;
                }
                let mut i: usize = 0;
                proof {
                    assert(xs@.skip(0) =~= xs@);
                }
                while i < xs.len()
                    invariant
                        *a == Yaml::Mapping(*xs),
                        *b == Yaml::Mapping(*ys),
                        xs@.len() == ys@.len(),
                        i <= xs@.len(),
                        all_found(xs@, ys@) == all_found(xs@.skip(i as int), ys@),
                    decreases xs.len() - i,
                {
                    proof {
                        assert(xs@.skip(i as int).drop_first() =~= xs@.skip(i + 1));
                        assert(xs@.skip(i as int)[0] == xs@[i as int]);
                    }
                    let mut j: usize = 0;
                    let mut hit = false;
                    proof {
                        assert(ys@.skip(0) =~= ys@);
                    }
                    while j < ys.len()
                        invariant_except_break
                            !hit,
                            found(xs@[i as int], ys@) == found(xs@[i as int], ys@.skip(j as int)),
                        invariant
                            *a == Yaml::Mapping(*xs),
                            i < xs@.len(),
                            j <= ys@.len(),
                        ensures
                            hit == found(xs@[i as int], ys@),
                        decreases ys.len() - j,
                    {
                        proof {
                            lemma_key_below(*a, *xs, i as int);
                            lemma_entry_below(*a, *xs, i as int);
                            assert(ys@.skip(j as int).drop_first() =~= ys@.skip(j + 1));
                            assert(ys@.skip(j as int)[0] == ys@[j as int]);
                        }
                        if yaml_equal(&xs[i].0, &ys[j].0) && yaml_equal(&xs[i].1, &ys[j].1) {
                            hit = true;
                            break;
                        }
                        j = j + 1;
                    }
                    if !hit {
                        proof {
                            assert(!all_found(xs@.skip(i as int), ys@));
                        }
                        return false;
                    }
                    i = i + 1;
                }
                true
            },
            _ => false,
        },
        Yaml::Tagged(t, x) => match b {
            Yaml::Tagged(u, y) => str_eq(t.as_str(), u.as_str()) && yaml_equal(&**x, &**y),
            _ => false,
        },
    }
}

/// A mapping key rendered as a path segment.
pub fn key_str(k: &Yaml) -> (r: String)
    ensures
        r@ == key_text(*k),
{
    match k {
        Yaml::Text(s) => s.clone(),
        Yaml::Number(n) => n.clone(),
        Yaml::Bool(b) => if *b { "true".to_owned() } else { "false".to_owned() },
        _ => "?".to_owned(),
    }
}

/// A value rendered for a finding's detail line.
pub fn render(v: &Yaml) -> (r: String)
    ensures
        r@ == render_text(*v),
{
    match v {
        Yaml::Text(s) => s.clone(),
        Yaml::Number(n) => n.clone(),
        Yaml::Bool(b) => if *b { "true".to_owned() } else { "false".to_owned() },
        Yaml::Null => "null".to_owned(),
        _ => "<structured>".to_owned(),
    }
}

/// Whether the mapping holds the string key `key`.
pub open spec fn has_key(entries: Seq<(Yaml, Yaml)>, key: Seq<char>) -> bool {
    lookup(entries, key) is Some
}

/// The string value, if the option holds one.
pub fn text_in(v: Option<&Yaml>) -> (r: Option<String>)
    ensures
        opt_view(r) == text_of(deref_opt(v)),
{
    match v {
        Some(Yaml::Text(s)) => Some(s.clone()),
        _ => None,
    }
}


/// A mapping's entries without those keyed by the string `key`.
pub open spec fn without_key(m: Seq<(Yaml, Yaml)>, key: Seq<char>) -> Seq<(Yaml, Yaml)>
    decreases m.len(),
{
    if m.len() == 0 {
        seq![]
    } else if key_is(m[0].0, key) {
        without_key(m.drop_first(), key)
    } else {
        seq![m[0]] + without_key(m.drop_first(), key)
    }
}

/// Removing the entries of one key leaves every other key's lookup as it
/// was, and that key absent.
pub proof fn lemma_lookup_without(m: Seq<(Yaml, Yaml)>, key: Seq<char>, other: Seq<char>)
    ensures
        other != key ==> lookup(without_key(m, key), other) == lookup(m, other),
        lookup(without_key(m, key), key) is None,
    decreases m.len(),
{
    if m.len() > 0 {
        lemma_lookup_without(m.drop_first(), key, other);
        if !key_is(m[0].0, key) {
            let w = seq![m[0]] + without_key(m.drop_first(), key);
            assert(w[0] == m[0]);
            assert(w.drop_first() =~= without_key(m.drop_first(), key));
        }
    }
}

} // verus!

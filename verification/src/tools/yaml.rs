//! A YAML document as a plain value tree, and the field access the
//! descriptor schema is checked with.
use vstd::prelude::*;

use crate::text::{digit_char, str_eq};

verus! {

/// One YAML node. Numbers keep the text the YAML loader prints for them.
#[derive(Debug, PartialEq, Eq)]
pub enum YamlValue {
    Null,
    Bool(bool),
    Number(String),
    Str(String),
    Sequence(Vec<YamlValue>),
    Mapping(Vec<(YamlValue, YamlValue)>),
    Tagged(String, Box<YamlValue>),
}

#[verifier::external_type_specification]
#[verifier::external_body]
pub struct ExYamlNode(serde_yaml::Value);

/// The node tree `serde_yaml::from_str::<serde_yaml::Value>` builds for a
/// text, or the loader's error message.
pub uninterp spec fn yaml_document(text: Seq<char>) -> Result<YamlValue, Seq<char>>;

/// Calls `serde_yaml::from_str::<serde_yaml::Value>` and converts the node
/// tree one node for one (`to_owned_tree`); claimed: the outcome is a
/// function of the text alone, named `yaml_document`.
#[verifier::external_body]
pub(crate) fn load_yaml(text: &str) -> (r: Result<YamlValue, String>)
    ensures
        match r {
            Ok(v) => yaml_document(text@) == Ok::<YamlValue, Seq<char>>(v),
            Err(e) => yaml_document(text@) == Err::<YamlValue, Seq<char>>(e@),
        },
{
    match serde_yaml::from_str::<serde_yaml::Value>(text) {
        Ok(v) => Ok(to_owned_tree(v)),
        Err(e) => Err(e.to_string()),
    }
}

/// Moves a `serde_yaml::Value` into the library's node type, variant for
/// variant; numbers become their printed text, tags their printed text.
/// Nothing is claimed of it beyond what `load_yaml` states.
#[verifier::external_body]
fn to_owned_tree(v: serde_yaml::Value) -> YamlValue {
    match v {
        serde_yaml::Value::Null => YamlValue::Null,
        serde_yaml::Value::Bool(b) => YamlValue::Bool(b),
        serde_yaml::Value::Number(n) => YamlValue::Number(n.to_string()),
        serde_yaml::Value::String(s) => YamlValue::Str(s),
        serde_yaml::Value::Sequence(s) => YamlValue::Sequence(s.into_iter().map(to_owned_tree).collect()),
        serde_yaml::Value::Mapping(m) => YamlValue::Mapping(
            m.into_iter().map(|(k, v)| (to_owned_tree(k), to_owned_tree(v))).collect(),
        ),
        serde_yaml::Value::Tagged(t) => YamlValue::Tagged(t.tag.to_string(), Box::new(to_owned_tree(t.value))),
    }
}

/// A node with its tags taken off, as serde_yaml's `as_str` and
/// `as_bool` read it.
pub open spec fn untag(v: YamlValue) -> YamlValue
    decreases v,
{
    match v {
        YamlValue::Tagged(_, inner) => untag(*inner),
        _ => v,
    }
}

/// The node under any tags.
pub fn untag_ref(v: &YamlValue) -> (r: &YamlValue)
    ensures
        *r == untag(*v),
    decreases v,
{
    match v {
        YamlValue::Tagged(_, inner) => untag_ref(inner),
        _ => v,
    }
}

pub type Entries = Seq<(YamlValue, YamlValue)>;

/// A key's name, when the key is a string.
pub open spec fn key_name(k: YamlValue) -> Option<Seq<char>> {
    match k {
        YamlValue::Str(s) => Some(s@),
        _ => None,
    }
}

/// An entry before `i` carries the key `n`.
pub open spec fn seen_before(es: Entries, i: int, n: Seq<char>) -> bool {
    exists|j: int| 0 <= j < i && #[trigger] key_name(es[j].0) == Some(n)
}

/// The value of the first entry keyed `n`.
pub open spec fn find_field(es: Entries, n: Seq<char>) -> Option<YamlValue>
    decreases es.len(),
{
    if es.len() == 0 {
        None
    } else {
        match find_field(es.drop_last(), n) {
            Some(v) => Some(v),
            None => if key_name(es.last().0) == Some(n) { Some(es.last().1) } else { None },
        }
    }
}

/// Index of the first entry keyed `n`.
pub open spec fn find_index(es: Entries, n: Seq<char>) -> Option<int>
    decreases es.len(),
{
    if es.len() == 0 {
        None
    } else {
        match find_index(es.drop_last(), n) {
            Some(i) => Some(i),
            None => if key_name(es.last().0) == Some(n) { Some(es.len() - 1) } else { None },
        }
    }
}

/// The text of a scalar read as a string: strings as they are, numbers as
/// printed, booleans as `true` / `false`.
pub open spec fn scalar_text(v: YamlValue) -> Option<Seq<char>> {
    match v {
        YamlValue::Str(s) => Some(s@),
        YamlValue::Number(t) => Some(t@),
        YamlValue::Bool(b) => Some(if b { "true"@ } else { "false"@ }),
        _ => None,
    }
}

/// An optional string: null is absent.
pub open spec fn opt_scalar_text(v: YamlValue) -> Option<Option<Seq<char>>> {
    match v {
        YamlValue::Null => Some(None),
        _ => match scalar_text(v) {
            Some(t) => Some(Some(t)),
            None => None,
        },
    }
}

pub open spec fn is_digit(c: char) -> bool {
    '0' <= c && c <= '9'
}

pub open spec fn all_digits(t: Seq<char>) -> bool {
    forall|i: int| 0 <= i < t.len() ==> is_digit(#[trigger] t[i])
}

/// Value of a string of decimal digits.
pub open spec fn digits_value(t: Seq<char>) -> nat
    decreases t.len(),
{
    if t.len() == 0 {
        0
    } else {
        (digits_value(t.drop_last()) * 10 + (t.last() as int - '0' as int)) as nat
    }
}

/// A number node holding an unsigned integer that fits in 32 bits.
pub open spec fn u32_of(v: YamlValue) -> Option<u32> {
    match v {
        YamlValue::Number(t) => if t@.len() > 0 && all_digits(t@) && digits_value(t@) <= u32::MAX {
            Some(digits_value(t@) as u32)
        } else {
            None
        },
        _ => None,
    }
}

/// A list node whose items are all scalars, as their texts.
pub open spec fn text_list(v: YamlValue) -> Option<Seq<Seq<char>>> {
    match v {
        YamlValue::Sequence(items) => if forall|i: int| 0 <= i < items@.len() ==> (#[trigger] scalar_text(items@[i])) is Some {
            Some(items@.map_values(|x: YamlValue| scalar_text(x)->0))
        } else {
            None
        },
        _ => None,
    }
}

/// The entries of a map node.
pub open spec fn entries_of(v: YamlValue) -> Option<Entries> {
    match v {
        YamlValue::Mapping(es) => Some(es@),
        _ => None,
    }
}

pub fn key_text(k: &YamlValue) -> (r: Option<&String>)
    ensures
        match r {
            Some(s) => key_name(*k) == Some(s@),
            None => key_name(*k) is None,
        },
{
    match k {
        YamlValue::Str(s) => Some(s),
        _ => None,
    }
}

/// Whether an entry before `i` carries the key `n`.
pub fn seen_before_exec(es: &Vec<(YamlValue, YamlValue)>, i: usize, n: &str) -> (r: bool)
    requires
        i <= es.len(),
    ensures
        r == seen_before(es@, i as int, n@),
{
    let mut j: usize = 0;
    while j < i
        invariant
            j <= i <= es.len(),
            forall|k: int| 0 <= k < j ==> key_name(#[trigger] es@[k].0) != Some(n@),
        decreases i - j,
    {
        match key_text(&es[j].0) {
            Some(s) => {
                if str_eq(s.as_str(), n) {
                    assert(key_name(es@[j as int].0) == Some(n@));
                    return true;
                }
            },
            None => {},
        }
        j = j + 1;
    }
    false
}

/// The value of the first entry keyed `n`.
pub fn field_of<'a>(es: &'a Vec<(YamlValue, YamlValue)>, n: &str) -> (r: Option<&'a YamlValue>)
    ensures
        match r {
            Some(v) => find_field(es@, n@) == Some(*v),
            None => find_field(es@, n@) is None,
        },
        match find_index(es@, n@) {
            Some(i) => 0 <= i < es@.len() && key_name(es@[i].0) == Some(n@) && r == Some(&es@[i].1)
                && forall|j: int| 0 <= j < i ==> key_name(#[trigger] es@[j].0) != Some(n@),
            None => r is None && forall|j: int| 0 <= j < es@.len() ==> key_name(#[trigger] es@[j].0) != Some(n@),
        },
{
    let mut j: usize = 0;
    while j < es.len()
        invariant
            j <= es.len(),
            find_field(es@.subrange(0, j as int), n@) is None,
            find_index(es@.subrange(0, j as int), n@) is None,
            forall|k: int| 0 <= k < j ==> key_name(#[trigger] es@[k].0) != Some(n@),
        decreases es.len() - j,
    {
        let ghost pre = es@.subrange(0, j as int);
        let ghost post = es@.subrange(0, j + 1);
        assert(post.drop_last() =~= pre);
        match key_text(&es[j].0) {
            Some(s) => {
                if str_eq(s.as_str(), n) {
                    proof { lemma_find_extend(es@, j as int, n@); }
                    return Some(&es[j].1);
                }
            },
            None => {},
        }
        j = j + 1;
    }
    assert(es@.subrange(0, es.len() as int) =~= es@);
    None
}

/// A prefix's first match is the whole sequence's first match.
pub proof fn lemma_find_extend(es: Entries, j: int, n: Seq<char>)
    requires
        0 <= j < es.len(),
        find_field(es.subrange(0, j), n) is None,
        find_index(es.subrange(0, j), n) is None,
        key_name(es[j].0) == Some(n),
    ensures
        find_field(es, n) == Some(es[j].1),
        find_index(es, n) == Some(j),
    decreases es.len(),
{
    if es.len() == j + 1 {
        assert(es.drop_last() =~= es.subrange(0, j));
    } else {
        assert(es.drop_last().subrange(0, j) =~= es.subrange(0, j));
        lemma_find_extend(es.drop_last(), j, n);
    }
}

/// The scalar read as a string.
pub fn scalar_string(v: &YamlValue) -> (r: Option<String>)
    ensures
        match r {
            Some(s) => scalar_text(*v) == Some(s@),
            None => scalar_text(*v) is None,
        },
{
    match v {
        YamlValue::Str(s) => Some(s.clone()),
        YamlValue::Number(t) => Some(t.clone()),
        YamlValue::Bool(b) => if *b { Some("true".to_owned()) } else { Some("false".to_owned()) },
        _ => None,
    }
}

/// An optional string; null is absent.
pub fn opt_scalar_string(v: &YamlValue) -> (r: Option<Option<String>>)
    ensures
        match r {
            Some(Some(s)) => opt_scalar_text(*v) == Some(Some(s@)),
            Some(None) => opt_scalar_text(*v) == Some(None::<Seq<char>>),
            None => opt_scalar_text(*v) is None,
        },
{
    match v {
        YamlValue::Null => Some(None),
        _ => match scalar_string(v) {
            Some(s) => Some(Some(s)),
            None => None,
        },
    }
}

/// A number node holding an unsigned 32-bit integer.
pub fn u32_value(v: &YamlValue) -> (r: Option<u32>)
    ensures
        r == u32_of(*v),
{
    match v {
        YamlValue::Number(t) => {
            let cs = crate::text::chars_of(t.as_str());
            if cs.len() == 0 {
                return None;
            }
            let mut acc: u64 = 0;
            let mut i: usize = 0;
            while i < cs.len()
                invariant
                    i <= cs.len(),
                    cs@ == t@,
                    *v == YamlValue::Number(*t),
                    acc == digits_value(cs@.subrange(0, i as int)),
                    acc <= u32::MAX,
                    all_digits(cs@.subrange(0, i as int)),
                decreases cs.len() - i,
            {
                let c = cs[i];
                let ghost pre = cs@.subrange(0, i as int);
                let ghost post = cs@.subrange(0, i + 1);
                assert(post.drop_last() =~= pre);
                if !('0' <= c && c <= '9') {
                    assert(!all_digits(t@)) by { assert(!is_digit(t@[i as int])); }
                    return None;
                }
                let d = ((c as u32) - ('0' as u32)) as u64;
                assert(acc * 10 + d <= 0xffff_ffff * 10 + 9) by (nonlinear_arith)
                    requires acc <= 0xffff_ffff, d <= 9;
                let next = acc * 10 + d;
                assert(next == digits_value(post));
                if next > 0xffff_ffff {
                    proof {
                        if all_digits(t@) {
                            lemma_digits_value_grows(t@, i as int + 1);
                        }
                    }
                    return None;
                }
                acc = next;
                assert(all_digits(post)) by {
                    assert forall|k: int| 0 <= k < post.len() implies is_digit(#[trigger] post[k]) by {
                        if k < i { assert(post[k] == pre[k]); }
                    }
                }
                i = i + 1;
            }
            assert(cs@.subrange(0, cs.len() as int) =~= cs@);
            Some(acc as u32)
        },
        _ => None,
    }
}

/// The value of a digit string is at least that of its prefixes.
pub proof fn lemma_digits_value_grows(t: Seq<char>, k: int)
    requires
        0 <= k <= t.len(),
        all_digits(t),
    ensures
        digits_value(t) >= digits_value(t.subrange(0, k)),
    decreases t.len(),
{
    if k < t.len() {
        assert(t.drop_last().subrange(0, k) =~= t.subrange(0, k));
        assert(all_digits(t.drop_last())) by {
            assert forall|i: int| 0 <= i < t.drop_last().len() implies is_digit(#[trigger] t.drop_last()[i]) by {
                assert(t.drop_last()[i] == t[i]);
            }
        }
        lemma_digits_value_grows(t.drop_last(), k);
        assert(is_digit(t[t.len() - 1]));
    } else {
        assert(t.subrange(0, k) =~= t);
    }
}

/// A list of scalars, as strings.
pub fn string_list(v: &YamlValue) -> (r: Option<Vec<String>>)
    ensures
        match r {
            Some(l) => text_list(*v) == Some(crate::text::strings_view(l@)),
            None => text_list(*v) is None,
        },
{
    match v {
        YamlValue::Sequence(items) => {
            let mut out: Vec<String> = Vec::new();
            let mut i: usize = 0;
            while i < items.len()
                invariant
                    i <= items.len(),
                    out@.len() == i,
                    *v == YamlValue::Sequence(*items),
                    forall|k: int| 0 <= k < i ==> scalar_text(#[trigger] items@[k]) == Some(out@[k]@),
                decreases items.len() - i,
            {
                match scalar_string(&items[i]) {
                    Some(s) => out.push(s),
                    None => {
                        assert(scalar_text(items@[i as int]) is None);
                        return None;
                    },
                }
                i = i + 1;
            }
            assert(crate::text::strings_view(out@) =~= items@.map_values(|x: YamlValue| scalar_text(x)->0));
            Some(out)
        },
        _ => None,
    }
}

} // verus!

verus! {

pub open spec fn msg_key_type() -> Seq<char> {
    "invalid type: a field name must be a string"@
}

pub open spec fn msg_unknown(n: Seq<char>) -> Seq<char> {
    "unknown field `"@ + n + "`"@
}

pub open spec fn msg_duplicate(n: Seq<char>) -> Seq<char> {
    "duplicate field `"@ + n + "`"@
}

pub open spec fn msg_missing(n: Seq<char>) -> Seq<char> {
    "missing field `"@ + n + "`"@
}

pub open spec fn msg_not_mapping() -> Seq<char> {
    "invalid type: expected a mapping"@
}

pub open spec fn msg_field_type(n: Seq<char>, expected: Seq<char>) -> Seq<char> {
    "invalid type for field `"@ + n + "`: expected "@ + expected
}

/// A nested error, prefixed with the field it occurred under.
pub open spec fn msg_under(n: Seq<char>, e: Seq<char>) -> Seq<char> {
    n + ": "@ + e
}

/// The error of entry `i` of a struct-shaped mapping: its key must be a
/// known field name not seen before, and its value must decode.
pub open spec fn entry_error(
    es: Entries,
    i: int,
    known: spec_fn(Seq<char>) -> bool,
    value_error: spec_fn(Seq<char>, YamlValue) -> Option<Seq<char>>,
) -> Option<Seq<char>> {
    match key_name(es[i].0) {
        None => Some(msg_key_type()),
        Some(n) => if !known(n) {
            Some(msg_unknown(n))
        } else if seen_before(es, i, n) {
            Some(msg_duplicate(n))
        } else {
            value_error(n, es[i].1)
        },
    }
}

/// The first entry error among the first `n` entries, in document order.
pub open spec fn first_entry_error(
    es: Entries,
    n: nat,
    known: spec_fn(Seq<char>) -> bool,
    value_error: spec_fn(Seq<char>, YamlValue) -> Option<Seq<char>>,
) -> Option<Seq<char>>
    decreases n,
{
    if n == 0 {
        None
    } else {
        match first_entry_error(es, (n - 1) as nat, known, value_error) {
            Some(e) => Some(e),
            None => entry_error(es, n - 1, known, value_error),
        }
    }
}

/// The first required field, in declaration order, that no entry carries.
pub open spec fn first_missing(es: Entries, required: Seq<Seq<char>>) -> Option<Seq<char>>
    decreases required.len(),
{
    if required.len() == 0 {
        None
    } else {
        match first_missing(es, required.drop_last()) {
            Some(m) => Some(m),
            None => if find_field(es, required.last()) is None { Some(msg_missing(required.last())) } else { None },
        }
    }
}

/// Decoding a mapping into a struct fails at the first bad entry, else at
/// the first missing required field.
pub open spec fn struct_error(
    es: Entries,
    known: spec_fn(Seq<char>) -> bool,
    value_error: spec_fn(Seq<char>, YamlValue) -> Option<Seq<char>>,
    required: Seq<Seq<char>>,
) -> Option<Seq<char>> {
    match first_entry_error(es, es.len(), known, value_error) {
        Some(e) => Some(e),
        None => first_missing(es, required),
    }
}

pub open spec fn opt_view(r: Option<String>) -> Option<Seq<char>> {
    match r {
        Some(s) => Some(s@),
        None => None,
    }
}

/// `a` followed by `b` followed by `c`, as a string.
pub fn concat3(a: &str, b: &str, c: &str) -> (r: String)
    ensures
        r@ == a@ + b@ + c@,
{
    let mut out: Vec<char> = Vec::new();
    crate::text::push_str(&mut out, a);
    crate::text::push_str(&mut out, b);
    crate::text::push_str(&mut out, c);
    crate::text::string_of(out.as_slice())
}

pub fn msg_unknown_text(n: &str) -> (r: String)
    ensures
        r@ == msg_unknown(n@),
{
    concat3("unknown field `", n, "`")
}

pub fn msg_duplicate_text(n: &str) -> (r: String)
    ensures
        r@ == msg_duplicate(n@),
{
    concat3("duplicate field `", n, "`")
}

pub fn msg_missing_text(n: &str) -> (r: String)
    ensures
        r@ == msg_missing(n@),
{
    concat3("missing field `", n, "`")
}

pub fn msg_field_type_text(n: &str, expected: &str) -> (r: String)
    ensures
        r@ == msg_field_type(n@, expected@),
{
    let mut out: Vec<char> = Vec::new();
    crate::text::push_str(&mut out, "invalid type for field `");
    crate::text::push_str(&mut out, n);
    crate::text::push_str(&mut out, "`: expected ");
    crate::text::push_str(&mut out, expected);
    crate::text::string_of(out.as_slice())
}

pub fn msg_under_text(n: &str, e: &str) -> (r: String)
    ensures
        r@ == msg_under(n@, e@),
{
    concat3(n, ": ", e)
}

/// The key error of entry `i` (a non-string, unknown or repeated key), or
/// the key's text when it is a known first occurrence.
pub fn entry_key(
    es: &Vec<(YamlValue, YamlValue)>,
    i: usize,
    known: bool,
    Ghost(knownf): Ghost<spec_fn(Seq<char>) -> bool>,
) -> (r: Result<&String, String>)
    requires
        i < es.len(),
        key_name(es@[i as int].0) matches Some(n) ==> known == knownf(n),
    ensures
        match r {
            Ok(k) => key_name(es@[i as int].0) == Some(k@) && knownf(k@) && !seen_before(es@, i as int, k@),
            Err(e) => match key_name(es@[i as int].0) {
                None => e@ == msg_key_type(),
                Some(n) => if !knownf(n) { e@ == msg_unknown(n) } else { seen_before(es@, i as int, n) && e@ == msg_duplicate(n) },
            },
        },
{
    match key_text(&es[i].0) {
        None => Err("invalid type: a field name must be a string".to_owned()),
        Some(k) => {
            if !known {
                Err(msg_unknown_text(k.as_str()))
            } else if seen_before_exec(es, i, k.as_str()) {
                Err(msg_duplicate_text(k.as_str()))
            } else {
                Ok(k)
            }
        },
    }
}

} // verus!

verus! {

pub open spec fn names_view(req: Seq<&str>) -> Seq<Seq<char>> {
    req.map_values(|s: &str| s@)
}

/// The first name in `req` that no entry carries.
pub fn first_missing_exec(es: &Vec<(YamlValue, YamlValue)>, req: &[&str]) -> (r: Option<String>)
    ensures
        opt_view(r) == first_missing(es@, names_view(req@)),
{
    let mut i: usize = 0;
    assert(names_view(req@).subrange(0, 0) =~= Seq::<Seq<char>>::empty());
    while i < req.len()
        invariant
            i <= req.len(),
            first_missing(es@, names_view(req@).subrange(0, i as int)) is None,
        decreases req.len() - i,
    {
        let ghost pre = names_view(req@).subrange(0, i as int);
        let ghost post = names_view(req@).subrange(0, i + 1);
        assert(post.drop_last() =~= pre);
        assert(post.last() == req@[i as int]@);
        if field_of(es, req[i]).is_none() {
            let m = msg_missing_text(req[i]);
            proof { lemma_first_missing_prefix(es@, names_view(req@), i + 1); }
            return Some(m);
        }
        i = i + 1;
    }
    assert(names_view(req@).subrange(0, req.len() as int) =~= names_view(req@));
    None
}

/// Once a prefix of the required names reports a missing field, the whole
/// list reports the same one.
pub proof fn lemma_first_missing_prefix(es: Entries, req: Seq<Seq<char>>, k: int)
    requires
        0 <= k <= req.len(),
        first_missing(es, req.subrange(0, k)) is Some,
    ensures
        first_missing(es, req) == first_missing(es, req.subrange(0, k)),
    decreases req.len(),
{
    if k < req.len() {
        assert(req.drop_last().subrange(0, k) =~= req.subrange(0, k));
        lemma_first_missing_prefix(es, req.drop_last(), k);
    } else {
        assert(req.subrange(0, k) =~= req);
    }
}

} // verus!

verus! {

/// An entry error found among the first `k` entries is the first one overall.
pub proof fn lemma_first_entry_error_prefix(
    es: Entries,
    k: nat,
    n: nat,
    known: spec_fn(Seq<char>) -> bool,
    value_error: spec_fn(Seq<char>, YamlValue) -> Option<Seq<char>>,
)
    requires
        k <= n,
        first_entry_error(es, k, known, value_error) is Some,
    ensures
        first_entry_error(es, n, known, value_error) == first_entry_error(es, k, known, value_error),
    decreases n,
{
    if k < n {
        lemma_first_entry_error_prefix(es, k, (n - 1) as nat, known, value_error);
    }
}

} // verus!

verus! {

/// No entry error among the first `m` entries means each of them is clean.
pub proof fn lemma_scan_none(
    es: Entries,
    m: nat,
    known: spec_fn(Seq<char>) -> bool,
    value_error: spec_fn(Seq<char>, YamlValue) -> Option<Seq<char>>,
)
    requires
        first_entry_error(es, m, known, value_error) is None,
    ensures
        forall|i: int| 0 <= i < m ==> (#[trigger] entry_error(es, i, known, value_error)) is None,
    decreases m,
{
    if m > 0 {
        lemma_scan_none(es, (m - 1) as nat, known, value_error);
    }
}

/// No missing field means every required name is carried by some entry.
pub proof fn lemma_first_missing_none(es: Entries, req: Seq<Seq<char>>)
    requires
        first_missing(es, req) is None,
    ensures
        forall|k: int| 0 <= k < req.len() ==> (#[trigger] find_field(es, req[k])) is Some,
    decreases req.len(),
{
    if req.len() > 0 {
        lemma_first_missing_none(es, req.drop_last());
        assert forall|k: int| 0 <= k < req.len() implies (#[trigger] find_field(es, req[k])) is Some by {
            if k < req.len() - 1 {
                assert(req[k] == req.drop_last()[k]);
            }
        }
    }
}

/// The value under a field of a cleanly scanned struct passes its check.
pub proof fn lemma_clean_field(
    es: Entries,
    i: int,
    n: Seq<char>,
    known: spec_fn(Seq<char>) -> bool,
    value_error: spec_fn(Seq<char>, YamlValue) -> Option<Seq<char>>,
)
    requires
        first_entry_error(es, es.len(), known, value_error) is None,
        0 <= i < es.len(),
        key_name(es[i].0) == Some(n),
    ensures
        value_error(n, es[i].1) is None,
        known(n),
{
    lemma_scan_none(es, es.len(), known, value_error);
    assert(entry_error(es, i, known, value_error) is None);
    if seen_before(es, i, n) {
        assert(entry_error(es, i, known, value_error) is Some);
    }
}

/// The value stored under a required field of a clean struct, and the
/// proof that it passed the field's check.
pub fn clean_field<'a>(
    es: &'a Vec<(YamlValue, YamlValue)>,
    n: &str,
    Ghost(known): Ghost<spec_fn(Seq<char>) -> bool>,
    Ghost(value_error): Ghost<spec_fn(Seq<char>, YamlValue) -> Option<Seq<char>>>,
) -> (r: &'a YamlValue)
    requires
        first_entry_error(es@, es@.len(), known, value_error) is None,
        find_field(es@, n@) is Some,
    ensures
        find_field(es@, n@) == Some(*r),
        value_error(n@, *r) is None,
{
    let f = field_of(es, n);
    proof {
        match find_index(es@, n@) {
            Some(i) => { lemma_clean_field(es@, i, n@, known, value_error); },
            None => {},
        }
    }
    f.unwrap()
}

} // verus!

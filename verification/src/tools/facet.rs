//! The file and memory faces of a descriptor's effect, checked key by key:
//! a face is a mapping with a string `op`, and only the keys that op
//! takes.
use vstd::prelude::*;

use crate::act::tag::{FileFacet, FileFacetView, MemoryFacet, MemoryFacetView};
use crate::text::{concat2, push_str, str_eq, string_of};
use crate::tools::yaml::{field_of, find_field, find_index, key_name, key_text, opt_view, untag, untag_ref, Entries, YamlValue};

verus! {

/// The entries left once entry `i` is swapped out (`IndexMap::swap_remove`).
pub open spec fn swap_removed(es: Entries, i: int) -> Entries {
    if i == es.len() - 1 {
        es.drop_last()
    } else {
        es.drop_last().update(i, es.last())
    }
}

pub open spec fn face_prefix(face: Seq<char>) -> Seq<char> {
    "effect."@ + face
}

pub open spec fn msg_face_not_mapping(face: Seq<char>) -> Seq<char> {
    face_prefix(face) + " must be a mapping with an op key"@
}

pub open spec fn msg_face_op(face: Seq<char>) -> Seq<char> {
    face_prefix(face) + " requires a string op key"@
}

/// The op of a face and the rest of its entries.
pub open spec fn facet_op(v: YamlValue, face: Seq<char>) -> Result<(Seq<char>, Entries), Seq<char>> {
    match v {
        YamlValue::Mapping(es) => match find_index(es@, "op"@) {
            None => Err(msg_face_op(face)),
            Some(i) => match untag(es@[i].1) {
                YamlValue::Str(op) => Ok((op@, swap_removed(es@, i))),
                _ => Err(msg_face_op(face)),
            },
        },
        _ => Err(msg_face_not_mapping(face)),
    }
}

/// A key as `reject_extra_keys` names it.
pub open spec fn key_label(k: YamlValue) -> Seq<char> {
    match key_name(untag(k)) {
        Some(n) => n,
        None => "<non-string>"@,
    }
}

pub open spec fn msg_extra_key(face: Seq<char>, op: Seq<char>, k: Seq<char>) -> Seq<char> {
    "unknown key in "@ + face_prefix(face) + " (op "@ + op + "): "@ + k
}

/// The first of the first `n` entries whose key the op does not take.
pub open spec fn extra_key(es: Entries, n: nat, allowed: Seq<Seq<char>>) -> Option<Seq<char>>
    decreases n,
{
    if n == 0 {
        None
    } else {
        match extra_key(es, (n - 1) as nat, allowed) {
            Some(k) => Some(k),
            None => if allowed.contains(key_label(es[n - 1].0)) { None } else { Some(key_label(es[n - 1].0)) },
        }
    }
}

pub open spec fn msg_required(face: Seq<char>, key: Seq<char>) -> Seq<char> {
    face_prefix(face) + " requires a string "@ + key
}

pub open spec fn msg_not_string(face: Seq<char>, key: Seq<char>) -> Seq<char> {
    face_prefix(face) + "."@ + key + " must be a string"@
}

/// An optional string key of a face.
pub open spec fn optional_str(face: Seq<char>, es: Entries, key: Seq<char>) -> Result<Option<Seq<char>>, Seq<char>> {
    match find_field(es, key) {
        None => Ok(None),
        Some(v) => match untag(v) {
            YamlValue::Str(s) => Ok(Some(s@)),
            _ => Err(msg_not_string(face, key)),
        },
    }
}

/// A required string key of a face.
pub open spec fn required_str(face: Seq<char>, es: Entries, key: Seq<char>) -> Result<Seq<char>, Seq<char>> {
    match optional_str(face, es, key) {
        Err(e) => Err(e),
        Ok(None) => Err(msg_required(face, key)),
        Ok(Some(s)) => Ok(s),
    }
}

pub open spec fn file_keys() -> Seq<Seq<char>> {
    seq!["path"@, "recursive"@]
}

/// The file face: `none`, `unbounded`, or `r` / `w` / `rw` with a string
/// path and an optional boolean `recursive`.
pub open spec fn file_facet(v: YamlValue) -> Result<FileFacetView, Seq<char>> {
    match facet_op(v, "file"@) {
        Err(e) => Err(e),
        Ok((op, rest)) => if op == "none"@ || op == "unbounded"@ {
            match extra_key(rest, rest.len(), Seq::empty()) {
                Some(k) => Err(msg_extra_key("file"@, op, k)),
                None => Ok(if op == "none"@ { FileFacetView::Nothing } else { FileFacetView::Unbounded }),
            }
        } else if op == "r"@ || op == "w"@ || op == "rw"@ {
            match extra_key(rest, rest.len(), file_keys()) {
                Some(k) => Err(msg_extra_key("file"@, op, k)),
                None => match required_str("file"@, rest, "path"@) {
                    Err(e) => Err(e),
                    Ok(path) => match find_field(rest, "recursive"@) {
                        None => Ok(access_facet(op, path, false)),
                        Some(x) => match untag(x) {
                            YamlValue::Bool(recursive) => Ok(access_facet(op, path, recursive)),
                            _ => Err("effect.file.recursive must be a bool"@),
                        },
                    },
                },
            }
        } else {
            Err("unknown effect.file op: "@ + op)
        },
    }
}

pub open spec fn access_facet(op: Seq<char>, path: Seq<char>, recursive: bool) -> FileFacetView {
    if op == "r"@ {
        FileFacetView::Read { path, recursive }
    } else if op == "w"@ {
        FileFacetView::Write { path, recursive }
    } else {
        FileFacetView::ReadWrite { path, recursive }
    }
}

/// The memory face: `ignore`, `remember` with an optional string aspect,
/// or `forget` with a string rememberId.
pub open spec fn memory_facet(v: YamlValue) -> Result<MemoryFacetView, Seq<char>> {
    match facet_op(v, "memory"@) {
        Err(e) => Err(e),
        Ok((op, rest)) => if op == "ignore"@ {
            match extra_key(rest, rest.len(), Seq::empty()) {
                Some(k) => Err(msg_extra_key("memory"@, op, k)),
                None => Ok(MemoryFacetView::Ignore),
            }
        } else if op == "remember"@ {
            match extra_key(rest, rest.len(), seq!["aspect"@]) {
                Some(k) => Err(msg_extra_key("memory"@, op, k)),
                None => match optional_str("memory"@, rest, "aspect"@) {
                    Err(e) => Err(e),
                    Ok(aspect) => Ok(MemoryFacetView::Remember { aspect }),
                },
            }
        } else if op == "forget"@ {
            match extra_key(rest, rest.len(), seq!["rememberId"@]) {
                Some(k) => Err(msg_extra_key("memory"@, op, k)),
                None => match required_str("memory"@, rest, "rememberId"@) {
                    Err(e) => Err(e),
                    Ok(id) => Ok(MemoryFacetView::Forget { remember_id: id }),
                },
            }
        } else {
            Err("unknown effect.memory op: "@ + op)
        },
    }
}

// ---- exec ----

/// A borrowed entry list with one entry swapped out.
fn swap_remove_entries<'a>(es: &'a Vec<(YamlValue, YamlValue)>, i: usize) -> (r: Vec<&'a (YamlValue, YamlValue)>)
    requires
        i < es.len(),
    ensures
        r@.map_values(|e: &(YamlValue, YamlValue)| *e) == swap_removed(es@, i as int),
{
    let mut out: Vec<&(YamlValue, YamlValue)> = Vec::new();
    let mut j: usize = 0;
    let last = es.len() - 1;
    while j < last
        invariant
            j <= last,
            last == es.len() - 1,
            i < es.len(),
            out@.len() == j,
            forall|k: int| 0 <= k < j ==> *(#[trigger] out@[k]) == (if k == i { es@[last as int] } else { es@[k] }),
        decreases last - j,
    {
        if j == i {
            out.push(&es[last]);
        } else {
            out.push(&es[j]);
        }
        j = j + 1;
    }
    assert(out@.map_values(|e: &(YamlValue, YamlValue)| *e) =~= swap_removed(es@, i as int));
    out
}

pub open spec fn deref_entries(v: Seq<&(YamlValue, YamlValue)>) -> Entries {
    v.map_values(|e: &(YamlValue, YamlValue)| *e)
}

fn msg_face_text(face: &str, tail: &str) -> (r: String)
    ensures
        r@ == "effect."@ + face@ + tail@,
{
    let mut out: Vec<char> = Vec::new();
    push_str(&mut out, "effect.");
    push_str(&mut out, face);
    push_str(&mut out, tail);
    string_of(out.as_slice())
}

/// The op of a face and the rest of its entries.
fn facet_op_exec<'a>(v: &'a YamlValue, face: &str) -> (r: Result<(&'a String, Vec<&'a (YamlValue, YamlValue)>), String>)
    ensures
        match r {
            Ok((op, rest)) => facet_op(*v, face@) == Ok::<(Seq<char>, Entries), Seq<char>>((op@, deref_entries(rest@))),
            Err(e) => facet_op(*v, face@) == Err::<(Seq<char>, Entries), Seq<char>>(e@),
        },
{
    match v {
        YamlValue::Mapping(es) => {
            let f = field_of(es, "op");
            match f {
                None => Err(msg_face_text(face, " requires a string op key")),
                Some(_) => {
                    let i = index_of_key(es, "op");
                    match untag_ref(&es[i].1) {
                        YamlValue::Str(op) => Ok((op, swap_remove_entries(es, i))),
                        _ => Err(msg_face_text(face, " requires a string op key")),
                    }
                },
            }
        },
        _ => Err(msg_face_text(face, " must be a mapping with an op key")),
    }
}

/// Index of the first entry keyed `n`, which exists.
fn index_of_key(es: &Vec<(YamlValue, YamlValue)>, n: &str) -> (r: usize)
    requires
        find_index(es@, n@) is Some,
    ensures
        find_index(es@, n@) == Some(r as int),
{
    let mut j: usize = 0;
    while j < es.len()
        invariant
            j <= es.len(),
            find_index(es@, n@) is Some,
            find_index(es@.subrange(0, j as int), n@) is None,
            find_field(es@.subrange(0, j as int), n@) is None,
        decreases es.len() - j,
    {
        assert(es@.subrange(0, j + 1).drop_last() =~= es@.subrange(0, j as int));
        match key_text(&es[j].0) {
            Some(s) => {
                if str_eq(s.as_str(), n) {
                    proof { crate::tools::yaml::lemma_find_extend(es@, j as int, n@); }
                    return j;
                }
            },
            None => {},
        }
        j = j + 1;
    }
    assert(es@.subrange(0, es.len() as int) =~= es@);
    0
}

} // verus!

verus! {

/// The value of the first rest entry keyed `n`.
fn rest_field<'a>(rest: &Vec<&'a (YamlValue, YamlValue)>, n: &str) -> (r: Option<&'a YamlValue>)
    ensures
        match r {
            Some(v) => find_field(deref_entries(rest@), n@) == Some(*v),
            None => find_field(deref_entries(rest@), n@) is None,
        },
{
    let ghost es = deref_entries(rest@);
    let mut j: usize = 0;
    while j < rest.len()
        invariant
            j <= rest.len(),
            es == deref_entries(rest@),
            find_field(es.subrange(0, j as int), n@) is None,
            find_index(es.subrange(0, j as int), n@) is None,
        decreases rest.len() - j,
    {
        assert(es.subrange(0, j + 1).drop_last() =~= es.subrange(0, j as int));
        let e: &(YamlValue, YamlValue) = rest[j];
        assert(*e == es[j as int]);
        match key_text(&e.0) {
            Some(s) => {
                if str_eq(s.as_str(), n) {
                    proof { crate::tools::yaml::lemma_find_extend(es, j as int, n@); }
                    return Some(&e.1);
                }
            },
            None => {},
        }
        j = j + 1;
    }
    assert(es.subrange(0, rest.len() as int) =~= es);
    None
}

fn label_of(k: &YamlValue) -> (r: String)
    ensures
        r@ == key_label(*k),
{
    match key_text(untag_ref(k)) {
        Some(s) => s.clone(),
        None => "<non-string>".to_owned(),
    }
}

fn allowed_contains(allowed: &[&str], k: &str) -> (r: bool)
    ensures
        r == crate::tools::yaml::names_view(allowed@).contains(k@),
{
    let mut i: usize = 0;
    while i < allowed.len()
        invariant
            i <= allowed.len(),
            forall|j: int| 0 <= j < i ==> crate::tools::yaml::names_view(allowed@)[j] != k@,
        decreases allowed.len() - i,
    {
        if str_eq(allowed[i], k) {
            assert(crate::tools::yaml::names_view(allowed@)[i as int] == k@);
            return true;
        }
        i = i + 1;
    }
    false
}

/// The first rest key the op does not take.
fn extra_key_exec(rest: &Vec<&(YamlValue, YamlValue)>, allowed: &[&str]) -> (r: Option<String>)
    ensures
        opt_view(r) == extra_key(deref_entries(rest@), rest@.len(), crate::tools::yaml::names_view(allowed@)),
{
    let ghost es = deref_entries(rest@);
    let ghost al = crate::tools::yaml::names_view(allowed@);
    let mut j: usize = 0;
    while j < rest.len()
        invariant
            j <= rest.len(),
            es == deref_entries(rest@),
            al == crate::tools::yaml::names_view(allowed@),
            extra_key(es, j as nat, al) is None,
        decreases rest.len() - j,
    {
        let e: &(YamlValue, YamlValue) = rest[j];
        assert(*e == es[j as int]);
        let label = label_of(&e.0);
        if !allowed_contains(allowed, label.as_str()) {
            proof { lemma_extra_key_prefix(es, (j + 1) as nat, rest@.len(), al); }
            return Some(label);
        }
        j = j + 1;
    }
    None
}

proof fn lemma_extra_key_prefix(es: Entries, k: nat, n: nat, allowed: Seq<Seq<char>>)
    requires
        k <= n,
        extra_key(es, k, allowed) is Some,
    ensures
        extra_key(es, n, allowed) == extra_key(es, k, allowed),
    decreases n,
{
    if k < n {
        lemma_extra_key_prefix(es, k, (n - 1) as nat, allowed);
    }
}

fn msg_extra_key_text(face: &str, op: &str, k: &str) -> (r: String)
    ensures
        r@ == msg_extra_key(face@, op@, k@),
{
    let mut out: Vec<char> = Vec::new();
    push_str(&mut out, "unknown key in ");
    push_str(&mut out, "effect.");
    push_str(&mut out, face);
    push_str(&mut out, " (op ");
    push_str(&mut out, op);
    push_str(&mut out, "): ");
    push_str(&mut out, k);
    assert(out@ =~= msg_extra_key(face@, op@, k@));
    string_of(out.as_slice())
}

fn optional_str_exec(face: &str, rest: &Vec<&(YamlValue, YamlValue)>, key: &str) -> (r: Result<Option<String>, String>)
    ensures
        match r {
            Ok(o) => optional_str(face@, deref_entries(rest@), key@) == Ok::<Option<Seq<char>>, Seq<char>>(opt_view(o)),
            Err(e) => optional_str(face@, deref_entries(rest@), key@) == Err::<Option<Seq<char>>, Seq<char>>(e@),
        },
{
    match rest_field(rest, key) {
        None => Ok(None),
        Some(v) => match untag_ref(v) {
            YamlValue::Str(s) => Ok(Some(s.clone())),
            _ => {
            let mut out: Vec<char> = Vec::new();
            push_str(&mut out, "effect.");
            push_str(&mut out, face);
            push_str(&mut out, ".");
            push_str(&mut out, key);
            push_str(&mut out, " must be a string");
            assert(out@ =~= msg_not_string(face@, key@));
            Err(string_of(out.as_slice()))
            },
        },
    }
}

fn required_str_exec(face: &str, rest: &Vec<&(YamlValue, YamlValue)>, key: &str) -> (r: Result<String, String>)
    ensures
        match r {
            Ok(s) => required_str(face@, deref_entries(rest@), key@) == Ok::<Seq<char>, Seq<char>>(s@),
            Err(e) => required_str(face@, deref_entries(rest@), key@) == Err::<Seq<char>, Seq<char>>(e@),
        },
{
    match optional_str_exec(face, rest, key) {
        Err(e) => Err(e),
        Ok(None) => {
            let mut out: Vec<char> = Vec::new();
            push_str(&mut out, "effect.");
            push_str(&mut out, face);
            push_str(&mut out, " requires a string ");
            push_str(&mut out, key);
            assert(out@ =~= msg_required(face@, key@));
            Err(string_of(out.as_slice()))
        },
        Ok(Some(s)) => Ok(s),
    }
}

proof fn lemma_op_names()
    ensures
        "none"@.len() == 4, "unbounded"@.len() == 9, "r"@.len() == 1, "w"@.len() == 1, "rw"@.len() == 2,
        "r"@ != "w"@, "ignore"@.len() == 6, "remember"@.len() == 8, "forget"@.len() == 6,
        "ignore"@ != "forget"@,
{
    reveal_strlit("none");
    reveal_strlit("unbounded");
    reveal_strlit("r");
    reveal_strlit("w");
    reveal_strlit("rw");
    reveal_strlit("ignore");
    reveal_strlit("remember");
    reveal_strlit("forget");
    assert("r"@[0] != "w"@[0]);
    assert("ignore"@[0] != "forget"@[0]);
}

/// The file face of an effect (see `file_facet`).
pub fn file_facet_exec(v: &YamlValue) -> (r: Result<FileFacet, String>)
    ensures
        match r {
            Ok(f) => file_facet(*v) == Ok::<FileFacetView, Seq<char>>(f@),
            Err(e) => file_facet(*v) == Err::<FileFacetView, Seq<char>>(e@),
        },
{
    proof { lemma_op_names(); }
    let (op, rest) = match facet_op_exec(v, "file") {
        Err(e) => return Err(e),
        Ok(x) => x,
    };
    let none_ops: [&str; 0] = [];
    assert(crate::tools::yaml::names_view(none_ops@) =~= Seq::<Seq<char>>::empty());
    if str_eq(op.as_str(), "none") || str_eq(op.as_str(), "unbounded") {
        match extra_key_exec(&rest, &none_ops) {
            Some(k) => Err(msg_extra_key_text("file", op.as_str(), k.as_str())),
            None => Ok(if str_eq(op.as_str(), "none") { FileFacet::Nothing } else { FileFacet::Unbounded }),
        }
    } else if str_eq(op.as_str(), "r") || str_eq(op.as_str(), "w") || str_eq(op.as_str(), "rw") {
        let keys: [&str; 2] = ["path", "recursive"];
        assert(crate::tools::yaml::names_view(keys@) =~= file_keys());
        if let Some(k) = extra_key_exec(&rest, &keys) {
            return Err(msg_extra_key_text("file", op.as_str(), k.as_str()));
        }
        let path = match required_str_exec("file", &rest, "path") {
            Err(e) => return Err(e),
            Ok(p) => p,
        };
        let recursive = match rest_field(&rest, "recursive") {
            None => false,
            Some(x) => match untag_ref(x) {
                YamlValue::Bool(b) => *b,
                _ => return Err("effect.file.recursive must be a bool".to_owned()),
            },
        };
        if str_eq(op.as_str(), "r") {
            Ok(FileFacet::Read { path, recursive })
        } else if str_eq(op.as_str(), "w") {
            Ok(FileFacet::Write { path, recursive })
        } else {
            Ok(FileFacet::ReadWrite { path, recursive })
        }
    } else {
        Err(concat2("unknown effect.file op: ", op.as_str()))
    }
}

/// The memory face of an effect (see `memory_facet`).
pub fn memory_facet_exec(v: &YamlValue) -> (r: Result<MemoryFacet, String>)
    ensures
        match r {
            Ok(m) => memory_facet(*v) == Ok::<MemoryFacetView, Seq<char>>(m@),
            Err(e) => memory_facet(*v) == Err::<MemoryFacetView, Seq<char>>(e@),
        },
{
    proof { lemma_op_names(); }
    let (op, rest) = match facet_op_exec(v, "memory") {
        Err(e) => return Err(e),
        Ok(x) => x,
    };
    if str_eq(op.as_str(), "ignore") {
        let none_ops: [&str; 0] = [];
        assert(crate::tools::yaml::names_view(none_ops@) =~= Seq::<Seq<char>>::empty());
        match extra_key_exec(&rest, &none_ops) {
            Some(k) => Err(msg_extra_key_text("memory", op.as_str(), k.as_str())),
            None => Ok(MemoryFacet::Ignore),
        }
    } else if str_eq(op.as_str(), "remember") {
        let keys: [&str; 1] = ["aspect"];
        assert(crate::tools::yaml::names_view(keys@) =~= seq!["aspect"@]);
        if let Some(k) = extra_key_exec(&rest, &keys) {
            return Err(msg_extra_key_text("memory", op.as_str(), k.as_str()));
        }
        match optional_str_exec("memory", &rest, "aspect") {
            Err(e) => Err(e),
            Ok(aspect) => Ok(MemoryFacet::Remember { aspect }),
        }
    } else if str_eq(op.as_str(), "forget") {
        let keys: [&str; 1] = ["rememberId"];
        assert(crate::tools::yaml::names_view(keys@) =~= seq!["rememberId"@]);
        if let Some(k) = extra_key_exec(&rest, &keys) {
            return Err(msg_extra_key_text("memory", op.as_str(), k.as_str()));
        }
        match required_str_exec("memory", &rest, "rememberId") {
            Err(e) => Err(e),
            Ok(id) => Ok(MemoryFacet::Forget { remember_id: id }),
        }
    } else {
        Err(concat2("unknown effect.memory op: ", op.as_str()))
    }
}

} // verus!

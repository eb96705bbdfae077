//! The metadata extractor: read-only summaries of a stored profile.
//!
//! Extraction parses the tool's MCP configuration file to enumerate
//! server names, lists resource-bundle items (flat files matching a
//! pattern, or subdirectories holding a marker file), and picks up a
//! theme and a model field where the tool's format exposes them at the
//! known key. Every sub-step is isolated: a malformed file yields one
//! entry in the result's error list and an empty value for that field,
//! never a failure of the whole call.

use vstd::prelude::*;
use vstd::string::StrSliceExecFns;
use vstd::string::StringExecFns;
use vstd::utf8::{valid_utf8, decode_utf8};
use crate::model::{Tree, TreeEntry, EntryKind, EntryV, tree_wf, tree_has_path, tree_at,
    tree_find, lemma_tree_at_index, str_equal, clone_path, clone_kind};
use crate::name::{ProfileName, sorted_names, distinct_names, sort_strings, lex_lt, str_lex_lt};
use crate::tool::{ToolInfo, ToolKind};
use crate::manager::{ProfileManager, ProfileStore, store_has, store_tree, store_idx, store_wf,
    store_find};
use crate::settings::{BridleConfig, assoc_get};
use crate::errors::Error;

verus! {

// ---- The library's JSON model, and the trusted parse boundary ----

/// A parsed configuration document, in the library's own shape, so that
/// verified code can read it. Numbers keep their textual form: nothing
/// here computes with them.
pub enum JsonVal {
    Null,
    Bool { b: bool },
    Num { repr: String },
    Text { s: String },
    Arr { items: Vec<JsonVal> },
    Obj { entries: Vec<(String, JsonVal)> },
}

#[verifier::external_type_specification]
#[verifier::external_body]
pub struct ExJsonValue(serde_json::Value);

/// The parsed form of a JSON document: what serde_json parses the text
/// into, read into the library's model, or `None` when parsing fails.
/// A function of the text alone (object entries come in serde_json's
/// storage order, which is sorted by key).
pub uninterp spec fn json_doc_of(s: Seq<char>) -> Option<JsonVal>;

/// The parsed form of a YAML document, read through the JSON model, or
/// `None` when parsing or conversion fails. A function of the text
/// alone.
pub uninterp spec fn yaml_doc_of(s: Seq<char>) -> Option<JsonVal>;

/// Whether an entry list names each key once.
pub open spec fn entries_keys_unique(es: Seq<(String, JsonVal)>) -> bool {
    forall|i: int, j: int| 0 <= i < j < es.len() ==> es[i].0@ != es[j].0@
}

/// Whether a value's own keys are unique, when it is an object.
pub open spec fn inner_keys_unique(d: JsonVal) -> bool {
    match d {
        JsonVal::Obj { entries } => entries_keys_unique(entries@),
        _ => true,
    }
}

/// Key uniqueness to the depth the extraction reads: the document's own
/// keys, and those of each value one level below. serde_json's map type
/// holds each key once at every level, so parsed documents satisfy
/// this.
pub open spec fn doc_keys_unique(d: JsonVal) -> bool {
    match d {
        JsonVal::Obj { entries } => entries_keys_unique(entries@) && (forall|k: int|
            0 <= k < entries@.len() ==> inner_keys_unique(#[trigger] entries@[k].1)),
        _ => true,
    }
}

/// Relies on serde_json::from_str: parses a JSON document into the
/// library's model; on failure, the parser's message. Keys of a parsed
/// object are unique (serde_json's map type holds each key once).
#[verifier::external_body]
fn json_parse_doc(s: &str) -> (r: Result<JsonVal, String>)
    ensures
        r is Ok <==> json_doc_of(s@) is Some,
        r matches Ok(d) ==> json_doc_of(s@) == Some(d) && doc_keys_unique(d),
{
    match serde_json::from_str::<serde_json::Value>(s) {
        Ok(v) => Ok(json_to_model(&v)),
        Err(e) => Err(e.to_string()),
    }
}

/// Relies on serde_yaml::from_str and serde_json::to_value: parses a
/// YAML document and reads it through the JSON model; on failure, the
/// message.
#[verifier::external_body]
fn yaml_parse_doc(s: &str) -> (r: Result<JsonVal, String>)
    ensures
        r is Ok <==> yaml_doc_of(s@) is Some,
        r matches Ok(d) ==> yaml_doc_of(s@) == Some(d) && doc_keys_unique(d),
{
    let y: serde_yaml::Value = serde_yaml::from_str(s).map_err(|e| e.to_string())?;
    let v: serde_json::Value = serde_json::to_value(y).map_err(|e| e.to_string())?;
    Ok(json_to_model(&v))
}

/// Relies on serde_json::Value's public variants: converts a parsed
/// value into the library's model, variant by variant, moving each
/// field.
#[verifier::external_body]
fn json_to_model(v: &serde_json::Value) -> JsonVal {
    match v {
        serde_json::Value::Null => JsonVal::Null,
        serde_json::Value::Bool(b) => JsonVal::Bool { b: *b },
        serde_json::Value::Number(n) => JsonVal::Num { repr: n.to_string() },
        serde_json::Value::String(s) => JsonVal::Text { s: s.clone() },
        serde_json::Value::Array(a) => JsonVal::Arr {
            items: a.iter().map(json_to_model).collect(),
        },
        serde_json::Value::Object(m) => JsonVal::Obj {
            entries: m.iter().map(|(k, x)| (k.clone(), json_to_model(x))).collect(),
        },
    }
}

/// Relies on String::from_utf8: decodes bytes as UTF-8, succeeding
/// exactly on valid UTF-8 and returning exactly the decoded characters.
#[verifier::external_body]
fn bytes_to_string(b: &Vec<u8>) -> (r: Option<String>)
    ensures
        r is Some <==> valid_utf8(b@),
        r matches Some(s) ==> s@ == decode_utf8(b@),
{
    String::from_utf8(b.clone()).ok()
}

// ---- Verified navigation of the JSON model ----

/// Looks a key up among an object's entries: the first binding wins.
pub open spec fn entries_get(es: Seq<(String, JsonVal)>, key: Seq<char>) -> Option<JsonVal>
    decreases es.len(),
{
    if es.len() == 0 {
        None
    } else if es[0].0@ == key {
        Some(es[0].1)
    } else {
        entries_get(es.drop_first(), key)
    }
}

/// The value under `key` when the document is an object holding one.
pub open spec fn doc_get(d: JsonVal, key: Seq<char>) -> Option<JsonVal> {
    match d {
        JsonVal::Obj { entries } => entries_get(entries@, key),
        _ => None,
    }
}

/// A found value is one of the entries' values.
proof fn lemma_entries_get_is_entry(es: Seq<(String, JsonVal)>, key: Seq<char>)
    ensures
        entries_get(es, key) matches Some(v) ==> exists|i: int|
            0 <= i < es.len() && (#[trigger] es[i]).1 == v,
    decreases es.len(),
{
    if es.len() > 0 {
        if es[0].0@ == key {
            assert(entries_get(es, key) == Some(es[0].1));
        } else {
            lemma_entries_get_is_entry(es.drop_first(), key);
            if entries_get(es, key) is Some {
                let v = entries_get(es, key)->0;
                assert(entries_get(es.drop_first(), key) == Some(v));
                let i0 = choose|i0: int|
                    0 <= i0 < es.drop_first().len() && (#[trigger] es.drop_first()[i0]).1 == v;
                assert(es[i0 + 1].1 == v);
            }
        }
    }
}

/// The characters of a string value.
pub open spec fn doc_str(d: JsonVal) -> Option<Seq<char>> {
    match d {
        JsonVal::Text { s } => Some(s@),
        _ => None,
    }
}

/// Looks a key up in a document.
pub fn obj_get<'a>(d: &'a JsonVal, key: &str) -> (r: Option<&'a JsonVal>)
    ensures
        match r {
            Some(v) => doc_get(*d, key@) == Some(*v),
            None => doc_get(*d, key@) is None,
        },
{
    match d {
        JsonVal::Obj { entries } => {
            let ghost es = entries@;
            let mut i: usize = 0;
            proof {
                assert(es.skip(0) =~= es);
                assert(doc_get(*d, key@) == entries_get(es, key@));
            }
            while i < entries.len()
                invariant
                    i <= entries.len(),
                    es == entries@,
                    doc_get(*d, key@) == entries_get(es, key@),
                    entries_get(es, key@) == entries_get(es.skip(i as int), key@),
                decreases entries.len() - i,
            {
                if str_equal(entries[i].0.as_str(), key) {
                    proof {
                        assert(es.skip(i as int)[0] == es[i as int]);
                        assert(entries_get(es.skip(i as int), key@) == Some(es[i as int].1));
                        assert(doc_get(*d, key@) == entries_get(es, key@));
                    }
                    return Some(&entries[i].1);
                }
                proof {
                    assert(es.skip(i as int)[0] == es[i as int]);
                    assert(es.skip(i as int).drop_first() =~= es.skip(i + 1 as int));
                }
                i += 1;
            }
            proof {
                assert(es.skip(i as int).len() == 0);
                assert(doc_get(*d, key@) == entries_get(es, key@));
            }
            None
        },
        _ => None,
    }
}

/// The text of a string value.
pub fn str_of<'a>(d: &'a JsonVal) -> (r: Option<&'a String>)
    ensures
        match r {
            Some(s) => doc_str(*d) == Some(s@),
            None => doc_str(*d) is None,
        },
{
    match d {
        JsonVal::Text { s } => Some(s),
        _ => None,
    }
}

/// Whether `suf` is a suffix of `s`.
pub open spec fn is_suffix(s: Seq<char>, suf: Seq<char>) -> bool {
    suf.len() <= s.len() && s.skip(s.len() - suf.len()) == suf
}

/// Whether `s` ends with `suf`.
pub fn str_ends_with(s: &str, suf: &str) -> (r: bool)
    ensures
        r == is_suffix(s@, suf@),
{
    let slen = s.unicode_len();
    let flen = suf.unicode_len();
    if flen > slen {
        return false;
    }
    let off = slen - flen;
    let mut i: usize = 0;
    while i < flen
        invariant
            i <= flen,
            off == slen - flen,
            flen <= slen,
            slen == s@.len(),
            flen == suf@.len(),
            forall|k: int| 0 <= k < i ==> s@[off + k] == suf@[k],
        decreases flen - i,
    {
        if s.get_char(off + i) != suf.get_char(i) {
            proof {
                assert(s@.skip(off as int)[i as int] == s@[off + i]);
            }
            return false;
        }
        i += 1;
    }
    proof {
        assert(s@.skip(off as int) =~= suf@);
    }
    true
}

/// Whether a file name matches a pattern: a pattern starting with `*`
/// matches every name that ends with the pattern's remainder, any other
/// pattern only itself.
pub open spec fn pattern_matches(name: Seq<char>, pat: Seq<char>) -> bool {
    if pat.len() >= 1 && pat[0] == '*' {
        is_suffix(name, pat.drop_first())
    } else {
        name == pat
    }
}

/// The displayed item for a matching name: the name with the pattern's
/// fixed suffix cut off.
pub open spec fn pattern_stem(name: Seq<char>, pat: Seq<char>) -> Seq<char> {
    if pat.len() >= 1 && pat[0] == '*' {
        name.take(name.len() - (pat.len() - 1))
    } else {
        name
    }
}

/// Matches `name` against `pat`; on a match, the stem to display.
pub fn match_pattern(name: &str, pat: &str) -> (r: Option<String>)
    ensures
        r is Some <==> pattern_matches(name@, pat@),
        r matches Some(st) ==> st@ == pattern_stem(name@, pat@),
{
    let plen = pat.unicode_len();
    if plen >= 1 && pat.get_char(0) == '*' {
        let nlen = name.unicode_len();
        let suffix = pat.substring_char(1, plen);
        proof {
            assert(suffix@ =~= pat@.drop_first());
        }
        if str_ends_with(name, suffix) {
            let stem = name.substring_char(0, nlen - (plen - 1)).to_owned();
            proof {
                assert(stem@ =~= pattern_stem(name@, pat@));
            }
            Some(stem)
        } else {
            None
        }
    } else {
        if str_equal(name, pat) {
            Some(name.to_owned())
        } else {
            None
        }
    }
}

/// Whether some name's stem under this pattern is `st`, among the
/// tree's top-level files.
pub open spec fn matching_stem(t: Seq<EntryV>, pat: Seq<char>, st: Seq<char>) -> bool {
    exists|i: int|
        0 <= i < t.len() && (#[trigger] t[i]).path.len() == 1 && t[i].kind is File
            && pattern_matches(t[i].path[0], pat) && st == pattern_stem(t[i].path[0], pat)
}

/// The stems of the tree's top-level files whose names match the
/// pattern, sorted.
pub fn list_files_matching(t: &Tree, pattern: &str) -> (r: Vec<String>)
    ensures
        sorted_names(r.deep_view()),
        forall|st: Seq<char>| #[trigger]
            r.deep_view().contains(st) <==> matching_stem(t.deep_view(), pattern@, st),
{
    let ghost tv = t.deep_view();
    let mut collected: Vec<String> = Vec::new();
    let mut i: usize = 0;
    while i < t.len()
        invariant
            i <= t.len(),
            tv == t.deep_view(),
            forall|st: Seq<char>| #[trigger]
                collected.deep_view().contains(st) <==> matching_stem(
                    tv.take(i as int),
                    pattern@,
                    st,
                ),
        decreases t.len() - i,
    {
        let ghost pre = tv.take(i as int);
        let ghost post = tv.take(i + 1 as int);
        let ghost cpre = collected.deep_view();
        proof {
            assert forall|st: Seq<char>| matching_stem(pre, pattern@, st) implies matching_stem(
                post,
                pattern@,
                st,
            ) by {
                let w = choose|w: int|
                    0 <= w < pre.len() && (#[trigger] pre[w]).path.len() == 1 && pre[w].kind
                        is File && pattern_matches(pre[w].path[0], pattern@) && st == pattern_stem(
                        pre[w].path[0],
                        pattern@,
                    );
                assert(post[w] == pre[w]);
            }
        }
        let entry = &t[i];
        let mut pushed = false;
        match &entry.kind {
            EntryKind::File { .. } => {
                if entry.path.len() == 1 {
                    match match_pattern(entry.path[0].as_str(), pattern) {
                        Some(st) => {
                            proof {
                                assert(entry.deep_view() == tv[i as int]);
                                assert(entry.path.deep_view()[0] == entry.path@[0]@);
                                assert(st@ == pattern_stem(tv[i as int].path[0], pattern@));
                                assert(matching_stem(post, pattern@, st@)) by {
                                    assert(post[i as int] == tv[i as int]);
                                }
                            }
                            collected.push(st);
                            pushed = true;
                        },
                        None => {},
                    }
                }
            },
            _ => {},
        }
        proof {
            if pushed {
                assert(collected.deep_view() =~= cpre.push(
                    pattern_stem(tv[i as int].path[0], pattern@),
                ));
            }
            assert forall|st: Seq<char>| #[trigger]
                collected.deep_view().contains(st) <==> matching_stem(post, pattern@, st) by {
                if collected.deep_view().contains(st) {
                    let w = choose|w: int|
                        0 <= w < collected.deep_view().len() && collected.deep_view()[w] == st;
                    if w < cpre.len() {
                        assert(cpre.contains(st));
                    }
                }
                if matching_stem(post, pattern@, st) {
                    let w = choose|w: int|
                        0 <= w < post.len() && (#[trigger] post[w]).path.len() == 1 && post[w].kind
                            is File && pattern_matches(post[w].path[0], pattern@) && st
                            == pattern_stem(post[w].path[0], pattern@);
                    if w < i {
                        assert(pre[w] == post[w]);
                        assert(matching_stem(pre, pattern@, st));
                        assert(cpre.contains(st));
                        let u = choose|u: int| 0 <= u < cpre.len() && cpre[u] == st;
                        assert(collected.deep_view()[u] == st);
                    } else {
                        assert(post[w] == tv[i as int]);
                        assert(pushed);
                        assert(collected.deep_view()[cpre.len() as int] == st);
                    }
                }
                if cpre.contains(st) {
                    let u = choose|u: int| 0 <= u < cpre.len() && cpre[u] == st;
                    assert(collected.deep_view()[u] == st);
                }
            }
        }
        i += 1;
    }
    proof {
        assert(tv.take(t.len() as int) =~= tv);
    }
    let ghost c = collected.deep_view();
    let sorted = sort_strings(collected);
    proof {
        assert forall|st: Seq<char>| #[trigger]
            sorted.deep_view().contains(st) <==> matching_stem(tv, pattern@, st) by {
            assert(sorted.deep_view().contains(st) <==> c.contains(st));
        }
    }
    sorted
}

/// Whether the tree holds a regular file at `p`.
pub open spec fn has_file_at(t: Seq<EntryV>, p: Seq<Seq<char>>) -> bool {
    exists|i: int| 0 <= i < t.len() && (#[trigger] t[i]).path == p && t[i].kind is File
}

/// Whether the tree holds a regular file at `p`.
pub fn tree_has_file(t: &Tree, p: &Vec<String>) -> (r: bool)
    requires
        tree_wf(t.deep_view()),
    ensures
        r == has_file_at(t.deep_view(), p.deep_view()),
{
    match tree_find(t, p) {
        None => {
            proof {
                if has_file_at(t.deep_view(), p.deep_view()) {
                    let w = choose|w: int|
                        0 <= w < t.deep_view().len() && (#[trigger] t.deep_view()[w]).path
                            == p.deep_view() && t.deep_view()[w].kind is File;
                    assert(tree_has_path(t.deep_view(), p.deep_view()));
                }
            }
            false
        },
        Some(i) => {
            let ghost tv = t.deep_view();
            let ghost idx: int = i as int;
            match &t[i].kind {
                EntryKind::File { .. } => {
                    proof {
                        assert(tv[idx].kind is File);
                    }
                    true
                },
                _ => {
                    proof {
                        if has_file_at(tv, p.deep_view()) {
                            let w = choose|w: int|
                                0 <= w < tv.len() && (#[trigger] tv[w]).path == p.deep_view()
                                    && tv[w].kind is File;
                            if w < idx {
                                assert(tv[w].path != tv[idx].path);
                            } else if w > idx {
                                assert(tv[idx].path != tv[w].path);
                            }
                        }
                    }
                    false
                },
            }
        },
    }
}

/// Whether some subdirectory name's stem under this pattern is `st`,
/// among the tree's top-level directories that hold the marker file.
pub open spec fn matching_subdir(
    t: Seq<EntryV>,
    pat: Seq<char>,
    marker: Seq<char>,
    st: Seq<char>,
) -> bool {
    exists|i: int|
        0 <= i < t.len() && (#[trigger] t[i]).path.len() == 1 && t[i].kind is Dir
            && pattern_matches(t[i].path[0], pat) && has_file_at(
            t,
            seq![t[i].path[0], marker],
        ) && st == pattern_stem(t[i].path[0], pat)
}

/// The stems of the tree's top-level directories whose names match the
/// pattern and which hold the marker file, sorted.
pub fn list_subdirs_with_file(t: &Tree, dir_pattern: &str, marker: &str) -> (r: Vec<String>)
    requires
        tree_wf(t.deep_view()),
    ensures
        sorted_names(r.deep_view()),
        forall|st: Seq<char>| #[trigger]
            r.deep_view().contains(st) <==> matching_subdir(
                t.deep_view(),
                dir_pattern@,
                marker@,
                st,
            ),
{
    let ghost tv = t.deep_view();
    let mut collected: Vec<String> = Vec::new();
    let mut i: usize = 0;
    while i < t.len()
        invariant
            i <= t.len(),
            tv == t.deep_view(),
            tree_wf(tv),
            forall|st: Seq<char>| #[trigger]
                collected.deep_view().contains(st) <==> exists|w: int|
                    0 <= w < i && (#[trigger] tv[w]).path.len() == 1 && tv[w].kind is Dir
                        && pattern_matches(tv[w].path[0], dir_pattern@) && has_file_at(
                        tv,
                        seq![tv[w].path[0], marker@],
                    ) && st == pattern_stem(tv[w].path[0], dir_pattern@),
        decreases t.len() - i,
    {
        let ghost cpre = collected.deep_view();
        let entry = &t[i];
        let mut pushed = false;
        match &entry.kind {
            EntryKind::Dir => {
                if entry.path.len() == 1 {
                    match match_pattern(entry.path[0].as_str(), dir_pattern) {
                        Some(st) => {
                            let mut marker_path = clone_path(&entry.path);
                            marker_path.push(marker.to_owned());
                            proof {
                                assert(entry.deep_view() == tv[i as int]);
                                assert(entry.path.deep_view()[0] == entry.path@[0]@);
                                assert(marker_path.deep_view() =~= seq![
                                    tv[i as int].path[0],
                                    marker@,
                                ]);
                            }
                            if tree_has_file(t, &marker_path) {
                                proof {
                                    assert(st@ == pattern_stem(
                                        tv[i as int].path[0],
                                        dir_pattern@,
                                    ));
                                }
                                collected.push(st);
                                pushed = true;
                            }
                        },
                        None => {},
                    }
                }
            },
            _ => {},
        }
        proof {
            if pushed {
                assert(collected.deep_view() =~= cpre.push(
                    pattern_stem(tv[i as int].path[0], dir_pattern@),
                ));
            }
            assert forall|st: Seq<char>| #[trigger]
                collected.deep_view().contains(st) <==> exists|w: int|
                    0 <= w < i + 1 && (#[trigger] tv[w]).path.len() == 1 && tv[w].kind is Dir
                        && pattern_matches(tv[w].path[0], dir_pattern@) && has_file_at(
                        tv,
                        seq![tv[w].path[0], marker@],
                    ) && st == pattern_stem(tv[w].path[0], dir_pattern@) by {
                if collected.deep_view().contains(st) {
                    let u = choose|u: int|
                        0 <= u < collected.deep_view().len() && collected.deep_view()[u] == st;
                    if u < cpre.len() {
                        assert(cpre.contains(st));
                        let w = choose|w: int|
                            0 <= w < i && (#[trigger] tv[w]).path.len() == 1 && tv[w].kind is Dir
                                && pattern_matches(tv[w].path[0], dir_pattern@) && has_file_at(
                                tv,
                                seq![tv[w].path[0], marker@],
                            ) && st == pattern_stem(tv[w].path[0], dir_pattern@);
                        assert(0 <= w < i + 1);
                    } else {
                        assert(pushed);
                        assert(st == pattern_stem(tv[i as int].path[0], dir_pattern@));
                        assert((i as int) < i + 1 && tv[i as int].path.len() == 1
                            && tv[i as int].kind is Dir && pattern_matches(
                            tv[i as int].path[0],
                            dir_pattern@,
                        ) && has_file_at(tv, seq![tv[i as int].path[0], marker@]));
                    }
                }
                if exists|w: int|
                    0 <= w < i + 1 && (#[trigger] tv[w]).path.len() == 1 && tv[w].kind is Dir
                        && pattern_matches(tv[w].path[0], dir_pattern@) && has_file_at(
                        tv,
                        seq![tv[w].path[0], marker@],
                    ) && st == pattern_stem(tv[w].path[0], dir_pattern@) {
                    let w = choose|w: int|
                        0 <= w < i + 1 && (#[trigger] tv[w]).path.len() == 1 && tv[w].kind is Dir
                            && pattern_matches(tv[w].path[0], dir_pattern@) && has_file_at(
                            tv,
                            seq![tv[w].path[0], marker@],
                        ) && st == pattern_stem(tv[w].path[0], dir_pattern@);
                    if w < i {
                        assert(cpre.contains(st));
                        let u = choose|u: int| 0 <= u < cpre.len() && cpre[u] == st;
                        assert(collected.deep_view()[u] == st);
                    } else {
                        assert(pushed);
                        assert(collected.deep_view()[cpre.len() as int] == st);
                    }
                }
            }
        }
        i += 1;
    }
    let ghost c = collected.deep_view();
    let sorted = sort_strings(collected);
    proof {
        assert forall|st: Seq<char>| #[trigger]
            sorted.deep_view().contains(st) <==> matching_subdir(
                tv,
                dir_pattern@,
                marker@,
                st,
            ) by {
            assert(sorted.deep_view().contains(st) <==> c.contains(st));
        }
    }
    sorted
}


/// The entries under the top-level directory `d`, with that first
/// component stripped: the subtree rooted there.
pub open spec fn under_pred(d: Seq<char>) -> spec_fn(EntryV) -> bool {
    |e: EntryV| e.path.len() >= 2 && e.path[0] == d
}

/// Strips the first path component.
pub open spec fn strip_first_map() -> spec_fn(EntryV) -> EntryV {
    |e: EntryV| EntryV { path: e.path.drop_first(), kind: e.kind }
}

/// The subtree rooted at the top-level directory `d`.
pub open spec fn subtree_view(t: Seq<EntryV>, d: Seq<char>) -> Seq<EntryV> {
    t.filter(under_pred(d)).map_values(strip_first_map())
}

/// Drops a path's first component.
fn path_drop_first(p: &Vec<String>) -> (r: Vec<String>)
    requires
        p@.len() >= 1,
    ensures
        r.deep_view() == p.deep_view().drop_first(),
{
    let mut r: Vec<String> = Vec::new();
    let mut i: usize = 1;
    while i < p.len()
        invariant
            1 <= i <= p.len(),
            r.len() == i - 1,
            forall|k: int| 0 <= k < i - 1 ==> r@[k]@ == p@[k + 1]@,
        decreases p.len() - i,
    {
        r.push(p[i].clone());
        i += 1;
    }
    proof {
        assert(r.deep_view() =~= p.deep_view().drop_first());
    }
    r
}

/// Extracts the subtree rooted at the top-level directory `dir`.
pub fn subtree(t: &Tree, dir: &str) -> (r: Tree)
    requires
        tree_wf(t.deep_view()),
    ensures
        r.deep_view() == subtree_view(t.deep_view(), dir@),
        tree_wf(r.deep_view()),
{
    let ghost tv = t.deep_view();
    let ghost d = dir@;
    let mut r: Tree = Vec::new();
    let mut i: usize = 0;
    proof {
        reveal(Seq::filter);
        assert(tv.take(0).filter(under_pred(d)) =~= Seq::<EntryV>::empty());
        assert(r.deep_view() =~= subtree_view(tv.take(0), d));
    }
    while i < t.len()
        invariant
            i <= t.len(),
            tv == t.deep_view(),
            d == dir@,
            tree_wf(tv),
            r.deep_view() == subtree_view(tv.take(i as int), d),
            tree_wf(r.deep_view()),
            forall|q: Seq<Seq<char>>| #[trigger] tree_has_path(r.deep_view(), q)
                ==> tree_has_path(tv.take(i as int), seq![d] + q),
        decreases t.len() - i,
    {
        let ghost pre = tv.take(i as int);
        let ghost post = tv.take(i + 1 as int);
        let ghost rpre = r.deep_view();
        proof {
            assert(post.drop_last() =~= pre);
            assert(post.last() == tv[i as int]);
        }
        let entry = &t[i];
        let mut took = false;
        if entry.path.len() >= 2 && str_equal(entry.path[0].as_str(), dir) {
            proof {
                assert(entry.deep_view() == tv[i as int]);
                assert(entry.path.deep_view()[0] == entry.path@[0]@);
            }
            let stripped = path_drop_first(&entry.path);
            let ghost q0 = entry.path.deep_view().drop_first();
            proof {
                assert(entry.path.deep_view() =~= seq![d] + q0);
                if tree_has_path(rpre, q0) {
                    assert(tree_has_path(pre, seq![d] + q0));
                    let w = choose|w: int| 0 <= w < pre.len() && pre[w].path == seq![d] + q0;
                    assert(tv[w].path == tv[i as int].path);
                    assert(false);
                }
            }
            r.push(TreeEntry { path: stripped, kind: clone_kind(&entry.kind) });
            took = true;
            proof {
                assert(r.deep_view() =~= rpre.push(
                    EntryV { path: q0, kind: tv[i as int].kind },
                ));
            }
        }
        proof {
            reveal(Seq::filter);
            if took {
                assert(under_pred(d)(post.last()));
                assert(post.filter(under_pred(d)) == pre.filter(under_pred(d)).push(post.last()));
                assert(r.deep_view() =~= subtree_view(post, d));
            } else {
                assert(!under_pred(d)(post.last())) by {
                    if tv[i as int].path.len() >= 2 && tv[i as int].path[0] == d {
                        assert(t@[i as int].path.deep_view()[0] == t@[i as int].path@[0]@);
                        assert(false);
                    }
                }
                assert(post.filter(under_pred(d)) == pre.filter(under_pred(d)));
                assert(r.deep_view() =~= subtree_view(post, d));
            }
            let rdv = r.deep_view();
            assert forall|p2: int, q2: int| 0 <= p2 < q2 < rdv.len() implies rdv[p2].path
                != rdv[q2].path by {
                if q2 < rpre.len() {
                    assert(rdv[p2] == rpre[p2] && rdv[q2] == rpre[q2]);
                } else if q2 == rpre.len() {
                    assert(rdv[p2] == rpre[p2]);
                    if rdv[p2].path == rdv[q2].path {
                        assert(tree_has_path(rpre, rdv[p2].path));
                    }
                }
            }
            assert forall|q: Seq<Seq<char>>| #[trigger] tree_has_path(rdv, q) implies
                tree_has_path(post, seq![d] + q) by {
                let w = choose|w: int| 0 <= w < rdv.len() && rdv[w].path == q;
                if w < rpre.len() {
                    assert(tree_has_path(rpre, q));
                    let u = choose|u: int| 0 <= u < pre.len() && pre[u].path == seq![d] + q;
                    assert(post[u].path == seq![d] + q);
                } else {
                    assert(post[i as int].path == seq![d] + q);
                }
            }
            assert forall|w: int| 0 <= w < rdv.len() implies (#[trigger] rdv[w]).path.len()
                >= 1 by {
                if w < rpre.len() {
                    assert(rdv[w] == rpre[w]);
                }
            }
        }
        i += 1;
    }
    proof {
        assert(tv.take(t.len() as int) =~= tv);
    }
    r
}

/// Whether the tree holds a directory entry at `[d]`.
pub open spec fn dir_exists_at(t: Seq<EntryV>, d: Seq<char>) -> bool {
    exists|i: int| 0 <= i < t.len() && (#[trigger] t[i]).path == seq![d] && t[i].kind is Dir
}

/// The declared shape of a resource bundle: flat files matching a
/// pattern, or subdirectories holding a marker file.
pub enum DirectoryStructure {
    Flat { file_pattern: String },
    Nested { dir_pattern: String, marker_file: String },
}

/// What a resource-bundle lookup reports: whether the directory exists,
/// and the sorted item names found in it.
pub struct ResourceSummary {
    pub directory_exists: bool,
    pub items: Vec<String>,
}

/// Summarizes one resource bundle of the tree: whether its directory
/// exists, and the items in it according to the declared shape. A
/// missing directory gives an empty summary, never an error.
pub fn extract_resource_summary(t: &Tree, dir_name: &str, structure: &DirectoryStructure) -> (r:
    ResourceSummary)
    requires
        tree_wf(t.deep_view()),
    ensures
        r.directory_exists == dir_exists_at(t.deep_view(), dir_name@),
        sorted_names(r.items.deep_view()),
        (structure matches DirectoryStructure::Flat { file_pattern } ==> forall|st: Seq<char>|
            #[trigger] r.items.deep_view().contains(st) <==> matching_stem(
                subtree_view(t.deep_view(), dir_name@),
                file_pattern@,
                st,
            )),
        (structure matches DirectoryStructure::Nested { dir_pattern, marker_file } ==> forall|
            st: Seq<char>,
        |
            #[trigger] r.items.deep_view().contains(st) <==> matching_subdir(
                subtree_view(t.deep_view(), dir_name@),
                dir_pattern@,
                marker_file@,
                st,
            )),
{
    let mut dpath: Vec<String> = Vec::new();
    dpath.push(dir_name.to_owned());
    proof {
        assert(dpath.deep_view() =~= seq![dir_name@]);
    }
    let ghost tv = t.deep_view();
    let directory_exists = match tree_find(t, &dpath) {
        None => {
            proof {
                if dir_exists_at(tv, dir_name@) {
                    let w = choose|w: int|
                        0 <= w < tv.len() && (#[trigger] tv[w]).path == seq![dir_name@]
                            && tv[w].kind is Dir;
                    assert(tree_has_path(tv, seq![dir_name@]));
                }
            }
            false
        },
        Some(i) => {
            let ghost idx: int = i as int;
            match &t[i].kind {
                EntryKind::Dir => {
                    proof {
                        assert(tv[idx].kind is Dir);
                    }
                    true
                },
                _ => {
                    proof {
                        if dir_exists_at(tv, dir_name@) {
                            let w = choose|w: int|
                                0 <= w < tv.len() && (#[trigger] tv[w]).path == seq![dir_name@]
                                    && tv[w].kind is Dir;
                            if w < idx {
                                assert(tv[w].path != tv[idx].path);
                            } else if w > idx {
                                assert(tv[idx].path != tv[w].path);
                            }
                        }
                    }
                    false
                },
            }
        },
    };
    let sub = subtree(t, dir_name);
    let items = match structure {
        DirectoryStructure::Flat { file_pattern } => (list_files_matching(
            &sub,
            file_pattern.as_str(),
        )),
        DirectoryStructure::Nested { dir_pattern, marker_file } => (list_subdirs_with_file(
            &sub,
            dir_pattern.as_str(),
            marker_file.as_str(),
        )),
    };
    ResourceSummary { directory_exists, items }
}

/// The key under which each tool's MCP configuration format lists its
/// servers.
pub open spec fn mcp_key(k: ToolKind) -> Seq<char> {
    match k {
        ToolKind::Aider => "mcpServers"@,
        ToolKind::OpenCode => "mcp"@,
        ToolKind::Goose => "extensions"@,
        ToolKind::Unknown => "mcpServers"@,
    }
}

/// The key under which each tool's MCP configuration format lists its
/// servers.
fn mcp_key_str(k: ToolKind) -> (r: &'static str)
    ensures
        r@ == mcp_key(k),
{
    match k {
        ToolKind::Aider => "mcpServers",
        ToolKind::OpenCode => "mcp",
        ToolKind::Goose => "extensions",
        ToolKind::Unknown => "mcpServers",
    }
}

/// Whether a file name announces YAML content.
pub open spec fn is_yaml_name(f: Seq<char>) -> bool {
    is_suffix(f, ".yaml"@) || is_suffix(f, ".yml"@)
}

/// The bytes of the file at `p` (meaningful when [`has_file_at`] holds
/// and the tree is well-formed).
pub open spec fn file_bytes_at(t: Seq<EntryV>, p: Seq<Seq<char>>) -> Seq<u8> {
    tree_at(t, p)->File_bytes
}

/// Whether an extension's declared type marks a real MCP server (as
/// opposed to a tool-internal one).
pub open spec fn mcp_type_name(ty: Seq<char>) -> bool {
    ||| ty == "stdio"@
    ||| ty == "sse"@
    ||| ty == "http"@
    ||| ty == "streamable_http"@
}

/// Whether an extension's declared type marks a real MCP server.
fn is_mcp_type(ty: &str) -> (r: bool)
    ensures
        r == mcp_type_name(ty@),
{
    str_equal(ty, "stdio") || str_equal(ty, "sse") || str_equal(ty, "http") || str_equal(
        ty,
        "streamable_http",
    )
}

/// Reads the file at `p` in the tree, if a regular file is there.
fn file_bytes<'a>(t: &'a Tree, p: &Vec<String>) -> (r: Option<&'a Vec<u8>>)
    requires
        tree_wf(t.deep_view()),
    ensures
        r is Some <==> has_file_at(t.deep_view(), p.deep_view()),
        r matches Some(b) ==> b@ == file_bytes_at(t.deep_view(), p.deep_view()),
{
    let ghost tv = t.deep_view();
    match tree_find(t, p) {
        None => {
            proof {
                if has_file_at(tv, p.deep_view()) {
                    let w = choose|w: int|
                        0 <= w < tv.len() && (#[trigger] tv[w]).path == p.deep_view() && tv[w].kind
                            is File;
                    assert(tree_has_path(tv, p.deep_view()));
                }
            }
            None
        },
        Some(i) => {
            let ghost idx: int = i as int;
            match &t[i].kind {
                EntryKind::File { bytes } => {
                    proof {
                        assert(tv[idx].kind is File);
                        lemma_tree_at_index(tv, idx);
                        assert(tree_at(tv, p.deep_view()) == tv[idx].kind);
                    }
                    Some(bytes)
                },
                _ => {
                    proof {
                        if has_file_at(tv, p.deep_view()) {
                            let w = choose|w: int|
                                0 <= w < tv.len() && (#[trigger] tv[w]).path == p.deep_view()
                                    && tv[w].kind is File;
                            if w < idx {
                                assert(tv[w].path != tv[idx].path);
                            } else if w > idx {
                                assert(tv[idx].path != tv[w].path);
                            }
                        }
                    }
                    None
                },
            }
        },
    }
}

/// Whether a server entry is enabled: an entry counts as disabled only
/// when it carries `"disabled": true`.
pub open spec fn enabled_flag(v: JsonVal) -> bool {
    match doc_get(v, "disabled"@) {
        Some(d) => match d {
            JsonVal::Bool { b } => !b,
            _ => true,
        },
        None => true,
    }
}

/// Whether an entry under the server key counts as a server: for the
/// tool whose extensions mix servers with internal entries, only those
/// whose declared type is an MCP server type; for every other tool,
/// every entry.
pub open spec fn server_kept(kind: ToolKind, v: JsonVal) -> bool {
    if kind is Goose {
        match doc_get(v, "type"@) {
            Some(tv) => match doc_str(tv) {
                Some(ty) => mcp_type_name(ty),
                None => false,
            },
            None => false,
        }
    } else {
        true
    }
}

/// The (name, enabled) pairs of the entries that count as servers, in
/// the object's order.
pub open spec fn server_entries(kind: ToolKind, es: Seq<(String, JsonVal)>) -> Seq<
    (Seq<char>, bool),
>
    decreases es.len(),
{
    if es.len() == 0 {
        Seq::empty()
    } else {
        let front = server_entries(kind, es.drop_last());
        if server_kept(kind, es.last().1) {
            front.push((es.last().0@, enabled_flag(es.last().1)))
        } else {
            front
        }
    }
}

/// The (name, enabled) pairs a parsed document configures: the entries
/// of the object under the tool's server key that count as servers.
pub open spec fn servers_of(kind: ToolKind, d: JsonVal) -> Seq<(Seq<char>, bool)> {
    match doc_get(d, mcp_key(kind)) {
        Some(section) => match section {
            JsonVal::Obj { entries } => server_entries(kind, entries@),
            _ => Seq::empty(),
        },
        None => Seq::empty(),
    }
}

/// No server name listed twice.
pub open spec fn distinct_pair_names(s: Seq<(Seq<char>, bool)>) -> bool {
    forall|i: int, j: int| 0 <= i < j < s.len() ==> s[i].0 != s[j].0
}

/// Every server name comes from some entry's key.
proof fn lemma_server_names_from_keys(kind: ToolKind, es: Seq<(String, JsonVal)>)
    ensures
        forall|x: (Seq<char>, bool)| #[trigger] server_entries(kind, es).contains(x)
            ==> (exists|i: int| 0 <= i < es.len() && (#[trigger] es[i]).0@ == x.0),
    decreases es.len(),
{
    if es.len() > 0 {
        lemma_server_names_from_keys(kind, es.drop_last());
        let se = server_entries(kind, es);
        let front = server_entries(kind, es.drop_last());
        assert forall|x: (Seq<char>, bool)| #[trigger] se.contains(x) implies (exists|i: int|
            0 <= i < es.len() && (#[trigger] es[i]).0@ == x.0) by {
            let w = choose|w: int| 0 <= w < se.len() && se[w] == x;
            if server_kept(kind, es.last().1) && w == se.len() - 1 {
                assert(es[es.len() - 1].0@ == x.0);
            } else {
                assert(front[w] == se[w]);
                assert(front.contains(x));
                let i0 = choose|i0: int|
                    0 <= i0 < es.drop_last().len() && (#[trigger] es.drop_last()[i0]).0@ == x.0;
                assert(es[i0].0@ == x.0);
            }
        }
    }
}

/// With unique keys, no server name is listed twice.
proof fn lemma_server_entries_distinct(kind: ToolKind, es: Seq<(String, JsonVal)>)
    requires
        entries_keys_unique(es),
    ensures
        distinct_pair_names(server_entries(kind, es)),
    decreases es.len(),
{
    if es.len() > 0 {
        assert(entries_keys_unique(es.drop_last()));
        lemma_server_entries_distinct(kind, es.drop_last());
        lemma_server_names_from_keys(kind, es.drop_last());
        let se = server_entries(kind, es);
        let front = server_entries(kind, es.drop_last());
        assert forall|p: int, q: int| 0 <= p < q < se.len() implies se[p].0 != se[q].0 by {
            if server_kept(kind, es.last().1) && q == se.len() - 1 {
                assert(se[p] == front[p]);
                if front[p].0 == es.last().0@ {
                    assert(front.contains(front[p]));
                    let i0 = choose|i0: int|
                        0 <= i0 < es.drop_last().len() && (#[trigger] es.drop_last()[i0]).0@
                            == front[p].0;
                    assert(es[i0].0@ == es[es.len() - 1].0@);
                    assert(false);
                }
            } else {
                assert(se[p] == front[p] && se[q] == front[q]);
            }
        }
    }
}

/// The view of a (name, enabled) list.
pub open spec fn pairs_view(v: Vec<(String, bool)>) -> Seq<(Seq<char>, bool)> {
    Seq::new(v@.len(), |i: int| (v@[i].0@, v@[i].1))
}

/// Non-strict sortedness of (name, enabled) pairs by name.
pub open spec fn sorted_pairs(s: Seq<(Seq<char>, bool)>) -> bool {
    forall|i: int, j: int| 0 <= i < j < s.len() ==> !lex_lt(#[trigger] s[j].0, #[trigger] s[i].0)
}

/// Whether this entry counts as a server, with its enabled flag.
fn server_entry_of(kind: ToolKind, v: &JsonVal) -> (r: Option<bool>)
    ensures
        r is Some <==> server_kept(kind, *v),
        r matches Some(en) ==> en == enabled_flag(*v),
{
    let kept = match kind {
        ToolKind::Goose => {
            match obj_get(v, "type") {
                Some(tv) => match str_of(tv) {
                    Some(ty) => is_mcp_type(ty.as_str()),
                    None => false,
                },
                None => false,
            }
        },
        _ => true,
    };
    if !kept {
        return None;
    }
    let en = match obj_get(v, "disabled") {
        Some(dv) => match dv {
            JsonVal::Bool { b } => !*b,
            _ => true,
        },
        None => true,
    };
    Some(en)
}

/// Collects the (name, enabled) pairs of the document's server section,
/// in the section's order.
fn collect_servers(kind: ToolKind, doc: &JsonVal) -> (r: Vec<(String, bool)>)
    ensures
        pairs_view(r) == servers_of(kind, *doc),
{
    let empty: Vec<(String, bool)> = Vec::new();
    proof {
        assert(pairs_view(empty) =~= Seq::<(Seq<char>, bool)>::empty());
    }
    let section = match obj_get(doc, mcp_key_str(kind)) {
        None => {
            return empty;
        },
        Some(se) => se,
    };
    match section {
        JsonVal::Obj { entries } => {
            let ghost es = entries@;
            let mut out: Vec<(String, bool)> = Vec::new();
            let mut i: usize = 0;
            proof {
                assert(pairs_view(out) =~= server_entries(kind, es.take(0)));
            }
            while i < entries.len()
                invariant
                    i <= entries.len(),
                    es == entries@,
                    pairs_view(out) == server_entries(kind, es.take(i as int)),
                decreases entries.len() - i,
            {
                let ghost pre = es.take(i as int);
                let ghost post = es.take(i + 1 as int);
                proof {
                    assert(post.drop_last() =~= pre);
                    assert(post.last() == es[i as int]);
                }
                let ghost opre = pairs_view(out);
                match server_entry_of(kind, &entries[i].1) {
                    Some(en) => {
                        out.push((entries[i].0.clone(), en));
                        proof {
                            assert(pairs_view(out) =~= opre.push((es[i as int].0@, en)));
                            assert(pairs_view(out) =~= server_entries(kind, post));
                        }
                    },
                    None => {
                        proof {
                            assert(pairs_view(out) =~= server_entries(kind, post));
                        }
                    },
                }
                i += 1;
            }
            proof {
                assert(es.take(entries.len() as int) =~= es);
            }
            out
        },
        _ => empty,
    }
}

/// Inserts a (name, enabled) pair into a list sorted by name, keeping
/// it sorted; the pairs afterwards are the pairs before plus the new
/// one.
fn insert_pair_sorted(out: &mut Vec<(String, bool)>, x: (String, bool))
    requires
        sorted_pairs(pairs_view(*old(out))),
    ensures
        sorted_pairs(pairs_view(*final(out))),
        pairs_view(*final(out)).len() == pairs_view(*old(out)).len() + 1,
        forall|pr: (Seq<char>, bool)| #[trigger]
            pairs_view(*final(out)).contains(pr) <==> pairs_view(*old(out)).contains(pr) || pr
                == (x.0@, x.1),
        distinct_pair_names(pairs_view(*old(out))) && (forall|k: int|
            0 <= k < pairs_view(*old(out)).len() ==> (#[trigger] pairs_view(*old(out))[k]).0
                != x.0@) ==> distinct_pair_names(pairs_view(*final(out))),
{
    let ghost d0 = pairs_view(*out);
    let ghost xv = (x.0@, x.1);
    let mut j: usize = 0;
    while j < out.len()
        invariant_except_break
            j <= out.len(),
            d0 == pairs_view(*out),
            xv == (x.0@, x.1),
            forall|k: int| 0 <= k < j ==> lex_lt(#[trigger] d0[k].0, xv.0),
        ensures
            j <= out.len(),
            d0 == pairs_view(*out),
            forall|k: int| 0 <= k < j ==> lex_lt(#[trigger] d0[k].0, xv.0),
            j < out.len() ==> !lex_lt(d0[j as int].0, xv.0),
        decreases out.len() - j,
    {
        if !str_lex_lt(out[j].0.as_str(), x.0.as_str()) {
            break ;
        }
        j += 1;
    }
    let ghost jj = j as int;
    out.insert(j, x);
    proof {
        let d1 = pairs_view(*out);
        assert(d1 =~= d0.insert(jj, xv)) by {
            assert forall|k: int| 0 <= k < d1.len() implies d1[k] == d0.insert(jj, xv)[k] by {
                assert(d1[k] == (out@[k].0@, out@[k].1));
            }
        }
        assert forall|p: int, q: int| 0 <= p < q < d1.len() implies !lex_lt(d1[q].0, d1[p].0) by {
            let pp: int = if p < jj {
                p
            } else {
                p - 1
            };
            let qq: int = if q < jj {
                q
            } else {
                q - 1
            };
            if p == jj {
                assert(d1[q] == d0[qq]);
                if qq != jj {
                    crate::name::lemma_lex_le_trans(xv.0, d0[jj].0, d0[qq].0);
                }
            } else if q == jj {
                assert(d1[p] == d0[pp]);
                crate::name::lemma_lex_lt_connected(d0[pp].0, xv.0);
            } else if p < jj && q > jj {
                assert(d1[p] == d0[pp] && d1[q] == d0[qq]);
                if qq == jj {
                    crate::name::lemma_lex_lt_connected(d0[pp].0, xv.0);
                    crate::name::lemma_lex_le_trans(d0[pp].0, xv.0, d0[jj].0);
                }
            } else {
                assert(d1[p] == d0[pp] && d1[q] == d0[qq]);
            }
        }
        assert forall|pr: (Seq<char>, bool)| #[trigger]
            d1.contains(pr) <==> d0.contains(pr) || pr == xv by {
            if d1.contains(pr) {
                let w = choose|w: int| 0 <= w < d1.len() && d1[w] == pr;
                if w < jj {
                    assert(d0[w] == pr);
                } else if w == jj {
                } else {
                    assert(d0[w - 1] == pr);
                }
            }
            if d0.contains(pr) {
                let w = choose|w: int| 0 <= w < d0.len() && d0[w] == pr;
                if w < jj {
                    assert(d1[w] == pr);
                } else {
                    assert(d1[w + 1] == pr);
                }
            }
            if pr == xv {
                assert(d1[jj] == pr);
            }
        }
        if distinct_pair_names(d0) && (forall|k: int| 0 <= k < d0.len() ==> (#[trigger] d0[k]).0
            != xv.0) {
            assert forall|p: int, q: int| 0 <= p < q < d1.len() implies d1[p].0 != d1[q].0 by {
                let pp: int = if p < jj {
                    p
                } else {
                    p - 1
                };
                let qq: int = if q < jj {
                    q
                } else {
                    q - 1
                };
                if p == jj {
                    assert(d1[q] == d0[qq]);
                } else if q == jj {
                    assert(d1[p] == d0[pp]);
                } else {
                    assert(d1[p] == d0[pp] && d1[q] == d0[qq]);
                }
            }
        }
    }
}

/// Sorts (name, enabled) pairs by name, keeping the same pairs.
fn sort_server_pairs(v: Vec<(String, bool)>) -> (r: Vec<(String, bool)>)
    ensures
        sorted_pairs(pairs_view(r)),
        forall|pr: (Seq<char>, bool)|
            #![trigger pairs_view(r).contains(pr)]
            #![trigger pairs_view(v).contains(pr)]
            pairs_view(r).contains(pr) <==> pairs_view(v).contains(pr),
        distinct_pair_names(pairs_view(v)) ==> distinct_pair_names(pairs_view(r)),
{
    let ghost d = pairs_view(v);
    let mut out: Vec<(String, bool)> = Vec::new();
    proof {
        assert(pairs_view(out) =~= Seq::<(Seq<char>, bool)>::empty());
    }
    let mut rest = v;
    while rest.len() > 0
        invariant
            sorted_pairs(pairs_view(out)),
            forall|pr: (Seq<char>, bool)|
                #![trigger d.contains(pr)]
                d.contains(pr) <==> (pairs_view(out).contains(pr) || pairs_view(rest).contains(
                    pr,
                )),
            distinct_pair_names(d) ==> distinct_pair_names(pairs_view(out))
                && distinct_pair_names(pairs_view(rest)) && (forall|p: int, q: int|
                0 <= p < pairs_view(out).len() && 0 <= q < pairs_view(rest).len() ==> (
                #[trigger] pairs_view(out)[p]).0 != (#[trigger] pairs_view(rest)[q]).0),
        decreases rest.len(),
    {
        let ghost opre = pairs_view(out);
        let ghost rpre = pairs_view(rest);
        let x = match rest.pop() {
            Some(x) => x,
            None => {
                proof {
                    assert(false);
                }
                vstd::pervasive::unreached()
            },
        };
        let ghost xv = (x.0@, x.1);
        proof {
            assert(pairs_view(rest) =~= rpre.drop_last());
            assert(xv == rpre[rpre.len() - 1]);
        }
        proof {
            if distinct_pair_names(d) {
                assert(pairs_view(rest) =~= rpre.drop_last());
                assert forall|k: int| 0 <= k < opre.len() implies (#[trigger] opre[k]).0
                    != xv.0 by {
                    assert(rpre[rpre.len() - 1] == xv);
                }
            }
        }
        insert_pair_sorted(&mut out, x);
        proof {
            if distinct_pair_names(d) {
                assert forall|p: int, q: int|
                    0 <= p < q < pairs_view(rest).len() implies pairs_view(rest)[p].0
                    != pairs_view(rest)[q].0 by {
                    assert(pairs_view(rest)[p] == rpre[p] && pairs_view(rest)[q] == rpre[q]);
                }
                assert forall|p: int, q: int|
                    0 <= p < pairs_view(out).len() && 0 <= q < pairs_view(rest).len() implies (
                #[trigger] pairs_view(out)[p]).0 != (#[trigger] pairs_view(rest)[q]).0 by {
                    let po = pairs_view(out)[p];
                    assert(pairs_view(out).contains(po));
                    assert(pairs_view(rest)[q] == rpre[q]);
                    if opre.contains(po) {
                        let w = choose|w: int| 0 <= w < opre.len() && opre[w] == po;
                        assert(opre[w].0 != rpre[q].0);
                    } else {
                        assert(po == xv);
                        if po.0 == rpre[q].0 {
                            assert(rpre[rpre.len() - 1].0 == rpre[q].0);
                            assert(false);
                        }
                    }
                }
            }
            assert forall|pr: (Seq<char>, bool)| #[trigger]
                d.contains(pr) <==> (pairs_view(out).contains(pr) || pairs_view(rest).contains(
                pr,
            )) by {
                if d.contains(pr) {
                    if opre.contains(pr) {
                    } else {
                        let w = choose|w: int| 0 <= w < rpre.len() && rpre[w] == pr;
                        if w < rpre.len() - 1 {
                            assert(pairs_view(rest)[w] == pr);
                        } else {
                            assert(pr == xv);
                        }
                    }
                }
                if pairs_view(rest).contains(pr) {
                    let w = choose|w: int|
                        0 <= w < pairs_view(rest).len() && pairs_view(rest)[w] == pr;
                    assert(rpre[w] == pr);
                    assert(d.contains(pr));
                }
                if pairs_view(out).contains(pr) {
                    if opre.contains(pr) {
                        assert(d.contains(pr));
                    } else {
                        assert(pr == xv);
                        assert(rpre[rpre.len() - 1] == pr);
                        assert(d.contains(pr));
                    }
                }
            }
        }
    }
    proof {
        assert(pairs_view(rest).len() == 0);
    }
    out
}

/// The outcome the MCP enumeration owes for this tool and profile tree:
/// `Some` of the configured (name, enabled) pairs — empty when the tool
/// declares no MCP file or the profile lacks it — and `None` exactly
/// when the file is present but malformed (bad UTF-8, or a text its
/// format does not parse).
pub open spec fn mcp_outcome(tool: &ToolInfo, t: Seq<EntryV>) -> Option<Seq<(Seq<char>, bool)>> {
    match tool.mcp_filename {
        None => Some(Seq::empty()),
        Some(f) => if !has_file_at(t, seq![f@]) {
            Some(Seq::empty())
        } else {
            let b = file_bytes_at(t, seq![f@]);
            if !valid_utf8(b) {
                None
            } else {
                let doc_opt = if is_yaml_name(f@) {
                    yaml_doc_of(decode_utf8(b))
                } else {
                    json_doc_of(decode_utf8(b))
                };
                match doc_opt {
                    Some(d) => Some(servers_of(tool.kind, d)),
                    None => None,
                }
            }
        },
    }
}

/// Enumerates the MCP servers a profile configures, as (name, enabled)
/// pairs sorted by name. The profile's copy of the tool's MCP
/// configuration file is parsed as JSON, or as YAML when its name says
/// so; a missing file (or a tool without one) gives an empty list, and
/// malformed content gives `ParseFailure` — never any other error.
pub fn extract_mcp_servers(tool: &ToolInfo, profile: &Tree) -> (r: Result<
    Vec<(String, bool)>,
    Error,
>)
    requires
        tree_wf(profile.deep_view()),
    ensures
        r is Ok <==> mcp_outcome(tool, profile.deep_view()) is Some,
        r matches Err(e) ==> e is ParseFailure,
        r matches Ok(v) ==> {
            &&& sorted_pairs(pairs_view(v))
            &&& distinct_pair_names(pairs_view(v))
            &&& (forall|pr: (Seq<char>, bool)| #[trigger]
                pairs_view(v).contains(pr) <==> mcp_outcome(
                    tool,
                    profile.deep_view(),
                )->0.contains(pr))
        },
{
    let filename = match &tool.mcp_filename {
        None => {
            let empty: Vec<(String, bool)> = Vec::new();
            proof {
                assert(pairs_view(empty) =~= Seq::<(Seq<char>, bool)>::empty());
            }
            return Ok(empty);
        },
        Some(f) => f,
    };
    let mut fpath: Vec<String> = Vec::new();
    fpath.push(filename.clone());
    proof {
        assert(fpath.deep_view() =~= seq![filename@]);
    }
    let bytes = match file_bytes(profile, &fpath) {
        None => {
            let empty: Vec<(String, bool)> = Vec::new();
            proof {
                assert(pairs_view(empty) =~= Seq::<(Seq<char>, bool)>::empty());
            }
            return Ok(empty);
        },
        Some(b) => b,
    };
    let content = match bytes_to_string(bytes) {
        None => {
            return Err(Error::ParseFailure { message: "not valid UTF-8".to_owned() });
        },
        Some(c) => c,
    };
    let is_yaml = str_ends_with(filename.as_str(), ".yaml") || str_ends_with(
        filename.as_str(),
        ".yml",
    );
    proof {
        assert(is_yaml == is_yaml_name(filename@));
    }
    let doc: JsonVal;
    if is_yaml {
        doc = match yaml_parse_doc(content.as_str()) {
            Err(e) => {
                return Err(Error::ParseFailure { message: e });
            },
            Ok(d) => d,
        };
    } else {
        doc = match json_parse_doc(content.as_str()) {
            Err(e) => {
                return Err(Error::ParseFailure { message: e });
            },
            Ok(d) => d,
        };
    }
    proof {
        assert(mcp_outcome(tool, profile.deep_view()) == Some(
            servers_of(tool.kind, doc),
        ));
        assert(distinct_pair_names(servers_of(tool.kind, doc))) by {
            match doc_get(doc, mcp_key(tool.kind)) {
                Some(section) => {
                    match doc {
                        JsonVal::Obj { entries } => {
                            lemma_entries_get_is_entry(entries@, mcp_key(tool.kind));
                            let i0 = choose|i0: int|
                                0 <= i0 < entries@.len() && (#[trigger] entries@[i0]).1
                                    == section;
                            assert(inner_keys_unique(section));
                            match section {
                                JsonVal::Obj { entries } => {
                                    lemma_server_entries_distinct(tool.kind, entries@);
                                },
                                _ => {},
                            }
                        },
                        _ => {},
                    }
                },
                None => {},
            }
        }
    }
    let pairs = collect_servers(tool.kind, &doc);
    let sorted = sort_server_pairs(pairs);
    Ok(sorted)
}

/// The file each tool exposes its theme and model settings in.
pub open spec fn settings_filename(k: ToolKind) -> Seq<char> {
    match k {
        ToolKind::Aider => "settings.json"@,
        ToolKind::OpenCode => "opencode.json"@,
        ToolKind::Goose => "config.yaml"@,
        ToolKind::Unknown => "settings.json"@,
    }
}

/// The file each tool exposes its theme and model settings in.
fn settings_filename_str(k: ToolKind) -> (r: &'static str)
    ensures
        r@ == settings_filename(k),
{
    match k {
        ToolKind::Aider => "settings.json",
        ToolKind::OpenCode => "opencode.json",
        ToolKind::Goose => "config.yaml",
        ToolKind::Unknown => "settings.json",
    }
}

/// The string a top-level settings field holds for this tool and tree:
/// `None` on a missing file, malformed content, a missing key or a
/// non-string value.
pub open spec fn setting_of(tool: &ToolInfo, t: Seq<EntryV>, key: Seq<char>) -> Option<Seq<char>> {
    let f = settings_filename(tool.kind);
    if !has_file_at(t, seq![f]) {
        None
    } else {
        let b = file_bytes_at(t, seq![f]);
        if !valid_utf8(b) {
            None
        } else {
            let doc_opt = if is_yaml_name(f) {
                yaml_doc_of(decode_utf8(b))
            } else {
                json_doc_of(decode_utf8(b))
            };
            match doc_opt {
                Some(d) => match doc_get(d, key) {
                    Some(v) => doc_str(v),
                    None => None,
                },
                None => None,
            }
        }
    }
}

/// Reads a top-level string field of the tool's settings file in this
/// tree: exactly [`setting_of`], opportunistic and never an error.
pub fn extract_setting(tool: &ToolInfo, t: &Tree, key: &str) -> (r: Option<String>)
    requires
        tree_wf(t.deep_view()),
    ensures
        match r {
            Some(s) => setting_of(tool, t.deep_view(), key@) == Some(s@),
            None => setting_of(tool, t.deep_view(), key@) is None,
        },
{
    let filename = settings_filename_str(tool.kind);
    let mut fpath: Vec<String> = Vec::new();
    fpath.push(filename.to_owned());
    proof {
        assert(fpath.deep_view() =~= seq![settings_filename(tool.kind)]);
    }
    let bytes = match file_bytes(t, &fpath) {
        None => {
            return None;
        },
        Some(b) => b,
    };
    let content = match bytes_to_string(bytes) {
        None => {
            return None;
        },
        Some(c) => c,
    };
    let is_yaml = str_ends_with(filename, ".yaml") || str_ends_with(filename, ".yml");
    proof {
        assert(is_yaml == is_yaml_name(settings_filename(tool.kind)));
    }
    let doc: JsonVal;
    if is_yaml {
        doc = match yaml_parse_doc(content.as_str()) {
            Err(_) => {
                return None;
            },
            Ok(d) => d,
        };
    } else {
        doc = match json_parse_doc(content.as_str()) {
            Err(_) => {
                return None;
            },
            Ok(d) => d,
        };
    }
    match obj_get(&doc, key) {
        None => None,
        Some(v) => match str_of(v) {
            None => None,
            Some(sv) => Some(sv.clone()),
        },
    }
}

/// The conventional rules file each tool reads.
pub open spec fn rules_filename(k: ToolKind) -> Seq<char> {
    match k {
        ToolKind::Aider => "AGENTS.md"@,
        ToolKind::OpenCode => "AGENTS.md"@,
        ToolKind::Goose => ".goosehints"@,
        ToolKind::Unknown => "AGENTS.md"@,
    }
}

/// The conventional rules file each tool reads.
fn rules_filename_str(k: ToolKind) -> (r: &'static str)
    ensures
        r@ == rules_filename(k),
{
    match k {
        ToolKind::Aider => "AGENTS.md",
        ToolKind::OpenCode => "AGENTS.md",
        ToolKind::Goose => ".goosehints",
        ToolKind::Unknown => "AGENTS.md",
    }
}

/// The tree resource bundles are read from: the live tree when the
/// profile is the active one and the live tree is at hand, otherwise
/// the profile's stored copy.
pub open spec fn lookup_view(active: bool, live: Option<&Tree>, ptree: Seq<EntryV>) -> Seq<
    EntryV,
> {
    if active && live is Some {
        live->0.deep_view()
    } else {
        ptree
    }
}

/// Information about a profile, for display: computed on demand, never
/// persisted, and never a reason to fail beyond a missing profile.
pub struct ProfileInfo {
    /// Profile name.
    pub name: String,
    /// Tool identifier.
    pub harness_id: String,
    /// Whether the active-profile record names this profile.
    pub is_active: bool,
    /// Path of the profile directory.
    pub path: Vec<String>,
    /// MCP server names configured in this profile, sorted.
    pub mcp_servers: Vec<String>,
    /// Skill names found in the skills bundle, sorted.
    pub skills: Vec<String>,
    /// Command names found in the commands bundle, sorted.
    pub commands: Vec<String>,
    /// Plugin names found in the plugins bundle, sorted.
    pub plugins: Vec<String>,
    /// Agent names found in the agents bundle, sorted.
    pub agents: Vec<String>,
    /// The tool's rules file, when the bundle source holds one.
    pub rules_file: Option<String>,
    /// The configured theme, where the tool's format exposes one.
    pub theme: Option<String>,
    /// The configured model, where the tool's format exposes one.
    pub model: Option<String>,
    /// Non-fatal extraction failures, one message each.
    pub extraction_errors: Vec<String>,
}

impl ProfileManager {
    /// Summarizes a stored profile. Fails with `ProfileNotFound` exactly
    /// when the store has no profile of this tool and name; a malformed
    /// MCP configuration yields exactly one entry in
    /// `extraction_errors` and an empty server list, while theme, model
    /// and the resource bundles are still extracted. Bundles (and the
    /// rules file) are read from the live tree exactly when the profile
    /// is the active one and the live tree is at hand, so the display
    /// reflects edits made since the switch; skills, agents and plugins
    /// are flat `*.md` bundles, commands are subdirectories holding an
    /// `index.md` marker.
    pub fn show_profile(
        &self,
        store: &ProfileStore,
        tool: &ToolInfo,
        name: &ProfileName,
        settings: &BridleConfig,
        live: Option<&Tree>,
    ) -> (r: Result<ProfileInfo, Error>)
        requires
            store_wf(store.deep_view()),
            forall|i: int| 0 <= i < store.deep_view().len() ==> tree_wf(
                (#[trigger] store.deep_view()[i]).tree,
            ),
            live matches Some(t) ==> tree_wf(t.deep_view()),
        ensures
            r is Ok <==> store_has(store.deep_view(), tool.id@, name@),
            r matches Err(e) ==> e is ProfileNotFound,
            r matches Ok(info) ==> {
                let ptree = store_tree(store.deep_view(), tool.id@, name@);
                let lk = lookup_view(info.is_active, live, ptree);
                let mo = mcp_outcome(tool, ptree);
                &&& info.name@ == name@
                &&& info.harness_id@ == tool.id@
                &&& info.path.deep_view() == self@ + seq![tool.id@, name@]
                &&& info.is_active == (assoc_get(settings.active.deep_view(), tool.id@) == Some(
                    name@,
                ))
                &&& info.extraction_errors@.len() == (if mo is Some {
                    0int
                } else {
                    1int
                })
                &&& (mo is None ==> info.mcp_servers@.len() == 0)
                &&& (mo matches Some(ps) ==> sorted_names(info.mcp_servers.deep_view())
                    && distinct_names(info.mcp_servers.deep_view()) && (forall|st: Seq<char>|
                    #[trigger] info.mcp_servers.deep_view().contains(st) <==> (exists|en: bool|
                        ps.contains((st, en)))))
                &&& (match info.theme {
                    Some(s) => setting_of(tool, ptree, "theme"@) == Some(s@),
                    None => setting_of(tool, ptree, "theme"@) is None,
                })
                &&& (match info.model {
                    Some(s) => setting_of(tool, ptree, "model"@) == Some(s@),
                    None => setting_of(tool, ptree, "model"@) is None,
                })
                &&& sorted_names(info.skills.deep_view())
                &&& (forall|st: Seq<char>| #[trigger] info.skills.deep_view().contains(st)
                    <==> matching_stem(subtree_view(lk, "skills"@), "*.md"@, st))
                &&& sorted_names(info.commands.deep_view())
                &&& (forall|st: Seq<char>| #[trigger] info.commands.deep_view().contains(st)
                    <==> matching_subdir(subtree_view(lk, "commands"@), "*"@, "index.md"@, st))
                &&& sorted_names(info.agents.deep_view())
                &&& (forall|st: Seq<char>| #[trigger] info.agents.deep_view().contains(st)
                    <==> matching_stem(subtree_view(lk, "agents"@), "*.md"@, st))
                &&& sorted_names(info.plugins.deep_view())
                &&& (forall|st: Seq<char>| #[trigger] info.plugins.deep_view().contains(st)
                    <==> matching_stem(subtree_view(lk, "plugins"@), "*.md"@, st))
                &&& (match info.rules_file {
                    Some(n) => n@ == rules_filename(tool.kind) && has_file_at(
                        lk,
                        seq![rules_filename(tool.kind)],
                    ),
                    None => !has_file_at(lk, seq![rules_filename(tool.kind)]),
                })
            },
    {
        let ghost sdv = store.deep_view();
        let idx = match store_find(store, tool.id.as_str(), name.as_str()) {
            None => {
                return Err(Error::ProfileNotFound { name: name.as_str().to_owned() });
            },
            Some(i) => i,
        };
        proof {
            let k = store_idx(sdv, tool.id@, name@);
            assert(0 <= k < sdv.len() && sdv[k].tool == tool.id@ && sdv[k].name == name@);
            if k < idx {
                assert(!(sdv[k].tool == sdv[idx as int].tool && sdv[k].name
                    == sdv[idx as int].name));
                assert(false);
            } else if k > idx {
                assert(!(sdv[idx as int].tool == sdv[k].tool && sdv[idx as int].name
                    == sdv[k].name));
                assert(false);
            }
        }
        let ptree: &Tree = &store[idx].tree;
        proof {
            assert(ptree.deep_view() == store_tree(sdv, tool.id@, name@));
        }
        let is_active = match settings.active_profile_for(tool.id.as_str()) {
            Some(active_name) => str_equal(active_name.as_str(), name.as_str()),
            None => false,
        };
        proof {
            assert(is_active == (assoc_get(settings.active.deep_view(), tool.id@) == Some(
                name@,
            )));
        }
        let lookup: &Tree = match live {
            Some(lt) if is_active => lt,
            _ => ptree,
        };
        proof {
            assert(lookup.deep_view() == lookup_view(is_active, live, ptree.deep_view()));
        }
        let mut extraction_errors: Vec<String> = Vec::new();
        let mut mcp_servers: Vec<String> = Vec::new();
        proof {
            assert(mcp_servers.deep_view() =~= Seq::<Seq<char>>::empty());
        }
        match extract_mcp_servers(tool, ptree) {
            Ok(pairs) => {
                let ghost pv = pairs_view(pairs);
                let mut i: usize = 0;
                while i < pairs.len()
                    invariant
                        i <= pairs.len(),
                        pv == pairs_view(pairs),
                        mcp_servers@.len() == i,
                        forall|k: int| 0 <= k < i ==> (#[trigger] mcp_servers@[k])@ == pv[k].0,
                    decreases pairs.len() - i,
                {
                    mcp_servers.push(pairs[i].0.clone());
                    i += 1;
                }
                proof {
                    let names = mcp_servers.deep_view();
                    assert forall|p: int, q: int| 0 <= p < q < names.len() implies !lex_lt(
                        names[q],
                        names[p],
                    ) && names[p] != names[q] by {
                        assert(names[p] == pv[p].0 && names[q] == pv[q].0);
                    }
                    assert(distinct_names(names));
                    let ghost ps = mcp_outcome(tool, ptree.deep_view())->0;
                    assert forall|st: Seq<char>| #[trigger]
                        names.contains(st) <==> (exists|en: bool| ps.contains((st, en))) by {
                        if names.contains(st) {
                            let w = choose|w: int| 0 <= w < names.len() && names[w] == st;
                            assert(pv[w] == (st, pv[w].1));
                            assert(pv.contains((st, pv[w].1)));
                            assert(ps.contains((st, pv[w].1)));
                        }
                        if exists|en: bool| ps.contains((st, en)) {
                            let en = choose|en: bool| ps.contains((st, en));
                            assert(pv.contains((st, en)));
                            let w = choose|w: int| 0 <= w < pv.len() && pv[w] == (st, en);
                            assert(names[w] == st);
                        }
                    }
                }
            },
            Err(e) => {
                let mut msg = String::from_str("MCP config: ");
                msg.append(e.message().as_str());
                extraction_errors.push(msg);
                proof {
                    assert(extraction_errors@.len() == 1);
                }
            },
        }
        let flat_md = DirectoryStructure::Flat { file_pattern: "*.md".to_owned() };
        let nested_index = DirectoryStructure::Nested {
            dir_pattern: "*".to_owned(),
            marker_file: "index.md".to_owned(),
        };
        let skills = extract_resource_summary(lookup, "skills", &flat_md).items;
        let commands = extract_resource_summary(lookup, "commands", &nested_index).items;
        let agents = extract_resource_summary(lookup, "agents", &flat_md).items;
        let plugins = extract_resource_summary(lookup, "plugins", &flat_md).items;
        let rules_name = rules_filename_str(tool.kind);
        let mut rules_path: Vec<String> = Vec::new();
        rules_path.push(rules_name.to_owned());
        proof {
            assert(rules_path.deep_view() =~= seq![rules_filename(tool.kind)]);
        }
        let rules_file = if tree_has_file(lookup, &rules_path) {
            Some(rules_name.to_owned())
        } else {
            None
        };
        let theme = extract_setting(tool, ptree, "theme");
        let model = extract_setting(tool, ptree, "model");
        let info = ProfileInfo {
            name: name.as_str().to_owned(),
            harness_id: tool.id.clone(),
            is_active,
            path: self.profile_path(tool, name),
            mcp_servers,
            skills,
            commands,
            plugins,
            agents,
            rules_file,
            theme,
            model,
            extraction_errors,
        };
        Ok(info)
    }
}

} // verus!

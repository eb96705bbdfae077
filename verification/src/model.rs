//! In-memory model of a configuration directory tree.
//!
//! A directory's recursive contents are represented flat, the way a
//! recursive walk enumerates them: one entry per file, symbolic link or
//! (sub)directory, each carrying its path relative to the tree's root as
//! a sequence of name components.

use vstd::prelude::*;
use vstd::string::StrSliceExecFns;

verus! {

/// What a single directory entry is: a regular file with its bytes, a
/// symbolic link with its target string, or a directory.
#[derive(Clone)]
pub enum EntryKind {
    File { bytes: Vec<u8> },
    Link { target: String },
    Dir,
}

/// One entry of a directory tree: a relative path (name components,
/// outermost first) and what sits at that path.
#[derive(Clone)]
pub struct TreeEntry {
    pub path: Vec<String>,
    pub kind: EntryKind,
}

/// A whole directory tree: the flat enumeration of its entries.
pub type Tree = Vec<TreeEntry>;

/// Mathematical counterpart of [`EntryKind`].
#[verifier::ext_equal]
pub enum KindV {
    File { bytes: Seq<u8> },
    Link { target: Seq<char> },
    Dir,
}

/// Mathematical counterpart of [`TreeEntry`].
#[verifier::ext_equal]
pub struct EntryV {
    pub path: Seq<Seq<char>>,
    pub kind: KindV,
}

impl DeepView for EntryKind {
    type V = KindV;

    open spec fn deep_view(&self) -> KindV {
        match self {
            EntryKind::File { bytes } => KindV::File { bytes: bytes@ },
            EntryKind::Link { target } => KindV::Link { target: target@ },
            EntryKind::Dir => KindV::Dir,
        }
    }
}

impl DeepView for TreeEntry {
    type V = EntryV;

    open spec fn deep_view(&self) -> EntryV {
        EntryV { path: self.path.deep_view(), kind: self.kind.deep_view() }
    }
}

/// A well-formed tree lists each path at most once, and no entry sits at
/// the tree's root itself.
pub open spec fn tree_wf(t: Seq<EntryV>) -> bool {
    &&& forall|i: int, j: int| 0 <= i < j < t.len() ==> t[i].path != t[j].path
    &&& forall|i: int| 0 <= i < t.len() ==> t[i].path.len() >= 1
}

/// Whether some entry of `t` sits at `path`.
pub open spec fn tree_has_path(t: Seq<EntryV>, path: Seq<Seq<char>>) -> bool {
    exists|i: int| 0 <= i < t.len() && t[i].path == path
}

/// What sits at `path` in `t` (meaningful when the path is present and
/// the tree is well-formed).
pub open spec fn tree_at(t: Seq<EntryV>, path: Seq<Seq<char>>) -> KindV {
    t[choose|i: int| 0 <= i < t.len() && t[i].path == path].kind
}

/// In a well-formed tree, looking an entry's own path up gives that
/// entry's kind.
pub proof fn lemma_tree_at_index(t: Seq<EntryV>, i: int)
    requires
        tree_wf(t),
        0 <= i < t.len(),
    ensures
        tree_has_path(t, t[i].path),
        tree_at(t, t[i].path) == t[i].kind,
{
    assert(tree_has_path(t, t[i].path));
    let j = choose|j: int| 0 <= j < t.len() && t[j].path == t[i].path;
    if j < i {
        assert(t[j].path != t[i].path);
    } else if j > i {
        assert(t[i].path != t[j].path);
    }
}

/// Equality test on strings, stated over their character sequences.
pub fn str_equal(a: &str, b: &str) -> (r: bool)
    ensures
        r == (a@ == b@),
{
    let alen = a.unicode_len();
    let blen = b.unicode_len();
    if alen != blen {
        proof {
            assert(a@ != b@);
        }
        return false;
    }
    let mut i: usize = 0;
    while i < alen
        invariant
            i <= alen,
            alen == a@.len(),
            alen == b@.len(),
            forall|k: int| 0 <= k < i ==> a@[k] == b@[k],
        decreases alen - i,
    {
        if a.get_char(i) != b.get_char(i) {
            proof {
                assert(a@[i as int] != b@[i as int]);
            }
            return false;
        }
        i += 1;
    }
    proof {
        assert(a@ =~= b@);
    }
    true
}

/// Equality test on paths, stated over their component views.
pub fn path_equal(a: &Vec<String>, b: &Vec<String>) -> (r: bool)
    ensures
        r == (a.deep_view() == b.deep_view()),
{
    if a.len() != b.len() {
        proof {
            assert(a.deep_view().len() == a@.len());
            assert(b.deep_view().len() == b@.len());
        }
        return false;
    }
    let mut i: usize = 0;
    while i < a.len()
        invariant
            i <= a.len(),
            a.len() == b.len(),
            forall|k: int| 0 <= k < i ==> a@[k]@ == b@[k]@,
        decreases a.len() - i,
    {
        if !str_equal(a[i].as_str(), b[i].as_str()) {
            proof {
                assert(a.deep_view()[i as int] != b.deep_view()[i as int]);
            }
            return false;
        }
        i += 1;
    }
    proof {
        assert(a.deep_view() =~= b.deep_view());
    }
    true
}

/// Copies a path, component by component.
pub fn clone_path(p: &Vec<String>) -> (r: Vec<String>)
    ensures
        r.deep_view() == p.deep_view(),
{
    let mut r: Vec<String> = Vec::new();
    let mut i: usize = 0;
    while i < p.len()
        invariant
            i <= p.len(),
            r.len() == i,
            forall|k: int| 0 <= k < i ==> r@[k]@ == p@[k]@,
        decreases p.len() - i,
    {
        r.push(p[i].clone());
        i += 1;
    }
    proof {
        assert(r.deep_view() =~= p.deep_view());
    }
    r
}

/// Copies an entry kind, bytes and all.
pub fn clone_kind(k: &EntryKind) -> (r: EntryKind)
    ensures
        r.deep_view() == k.deep_view(),
{
    match k {
        EntryKind::File { bytes } => {
            let b = bytes.clone();
            proof {
                assert(b@ =~= bytes@);
            }
            EntryKind::File { bytes: b }
        },
        EntryKind::Link { target } => EntryKind::Link { target: target.clone() },
        EntryKind::Dir => EntryKind::Dir,
    }
}

/// Copies a single tree entry.
pub fn clone_entry(e: &TreeEntry) -> (r: TreeEntry)
    ensures
        r.deep_view() == e.deep_view(),
{
    TreeEntry { path: clone_path(&e.path), kind: clone_kind(&e.kind) }
}

/// Finds the entry at `p`, if the tree has one.
pub fn tree_find(t: &Tree, p: &Vec<String>) -> (r: Option<usize>)
    ensures
        match r {
            Some(i) => i < t.len() && t.deep_view()[i as int].path == p.deep_view(),
            None => !tree_has_path(t.deep_view(), p.deep_view()),
        },
{
    let ghost d = t.deep_view();
    let mut i: usize = 0;
    while i < t.len()
        invariant
            i <= t.len(),
            d == t.deep_view(),
            forall|k: int| 0 <= k < i ==> (#[trigger] d[k]).path != p.deep_view(),
        decreases t.len() - i,
    {
        if path_equal(&t[i].path, p) {
            return Some(i);
        }
        i += 1;
    }
    None
}

/// Copies a whole tree. This is the strict copy of the engine: the
/// result's contents equal the source's, entry for entry. (Propagation
/// of I/O failures is the caller's concern; the model copy is total.)
pub fn copy_strict(t: &Tree) -> (r: Tree)
    ensures
        r.deep_view() == t.deep_view(),
{
    let mut r: Tree = Vec::new();
    let mut i: usize = 0;
    while i < t.len()
        invariant
            i <= t.len(),
            r.len() == i,
            forall|k: int| 0 <= k < i ==> r@[k].deep_view() == t@[k].deep_view(),
        decreases t.len() - i,
    {
        r.push(clone_entry(&t[i]));
        i += 1;
    }
    proof {
        assert(r.deep_view() =~= t.deep_view());
    }
    r
}

} // verus!

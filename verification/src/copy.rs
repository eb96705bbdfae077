//! The exclusion/copy engine.
//!
//! Two copy modes work on tree models: a strict copy (in `model`) that
//! reproduces a tree entry for entry, and a filtered copy that drops
//! every entry with an excluded name anywhere on its path — version
//! control metadata, OS bookkeeping files and dependency caches — and
//! reports a per-entry outcome. Symbolic links are carried over as
//! links, never resolved.

use vstd::prelude::*;
use crate::model::{Tree, EntryV, tree_wf, tree_has_path, str_equal, clone_entry, clone_path};

verus! {

/// Names that the filtered copy never carries over, at any depth.
pub open spec fn excluded_name(n: Seq<char>) -> bool {
    ||| n == ".git"@
    ||| n == ".svn"@
    ||| n == ".hg"@
    ||| n == ".DS_Store"@
    ||| n == "Thumbs.db"@
    ||| n == "node_modules"@
    ||| n == "__pycache__"@
}

/// Whether any component of `p` is an excluded name.
pub open spec fn path_excluded(p: Seq<Seq<char>>) -> bool {
    exists|k: int| 0 <= k < p.len() && excluded_name(p[k])
}

/// The predicate the filtered copy keeps entries by.
pub open spec fn keep_pred() -> spec_fn(EntryV) -> bool {
    |e: EntryV| !path_excluded(e.path)
}

/// The filtered copy of a tree: every entry whose path avoids the
/// excluded names, in the source's order, unchanged.
pub open spec fn filtered_view(t: Seq<EntryV>) -> Seq<EntryV> {
    t.filter(keep_pred())
}

/// Per-entry outcome of a filtered copy.
pub enum CopyOutcome {
    /// The entry was carried over.
    Copied { path: Vec<String> },
    /// The entry's name (or an ancestor's) is on the exclusion list.
    SkippedExcluded { path: Vec<String> },
    /// Never produced by the model copy; reserved for callers that
    /// mirror the copy onto a real filesystem and meet an I/O failure.
    Failed { path: Vec<String>, reason: String },
}

/// Mathematical counterpart of [`CopyOutcome`].
#[verifier::ext_equal]
pub enum OutcomeV {
    Copied { path: Seq<Seq<char>> },
    SkippedExcluded { path: Seq<Seq<char>> },
    Failed { path: Seq<Seq<char>>, reason: Seq<char> },
}

impl DeepView for CopyOutcome {
    type V = OutcomeV;

    open spec fn deep_view(&self) -> OutcomeV {
        match self {
            CopyOutcome::Copied { path } => OutcomeV::Copied { path: path.deep_view() },
            CopyOutcome::SkippedExcluded { path } => (OutcomeV::SkippedExcluded {
                path: path.deep_view(),
            }),
            CopyOutcome::Failed { path, reason } => (OutcomeV::Failed {
                path: path.deep_view(),
                reason: reason@,
            }),
        }
    }
}

/// The outcome list a filtered copy of `t` reports: one outcome per
/// source entry, in order.
pub open spec fn outcomes_view(t: Seq<EntryV>) -> Seq<OutcomeV> {
    Seq::new(
        t.len(),
        |i: int|
            if path_excluded(t[i].path) {
                OutcomeV::SkippedExcluded { path: t[i].path }
            } else {
                OutcomeV::Copied { path: t[i].path }
            },
    )
}

/// Whether `s` is one of the excluded names.
pub fn is_excluded_name(s: &str) -> (r: bool)
    ensures
        r == excluded_name(s@),
{
    str_equal(s, ".git") || str_equal(s, ".svn") || str_equal(s, ".hg") || str_equal(
        s,
        ".DS_Store",
    ) || str_equal(s, "Thumbs.db") || str_equal(s, "node_modules") || str_equal(s, "__pycache__")
}

/// Whether any component of `p` is an excluded name.
pub fn is_path_excluded(p: &Vec<String>) -> (r: bool)
    ensures
        r == path_excluded(p.deep_view()),
{
    let mut k: usize = 0;
    while k < p.len()
        invariant
            k <= p.len(),
            forall|j: int| 0 <= j < k ==> !excluded_name(p.deep_view()[j]),
        decreases p.len() - k,
    {
        if is_excluded_name(p[k].as_str()) {
            proof {
                assert(excluded_name(p.deep_view()[k as int]));
            }
            return true;
        }
        k += 1;
    }
    false
}

/// Best-effort filtered copy: reproduces `t` minus every entry whose
/// path touches an excluded name, and reports one outcome per source
/// entry. The model copy itself cannot fail; a caller that mirrors it
/// onto a real filesystem records I/O failures as further outcomes
/// rather than aborting.
pub fn copy_filtered(t: &Tree) -> (r: (Tree, Vec<CopyOutcome>))
    ensures
        r.0.deep_view() == filtered_view(t.deep_view()),
        r.1.deep_view() == outcomes_view(t.deep_view()),
{
    let mut out: Tree = Vec::new();
    let mut outcomes: Vec<CopyOutcome> = Vec::new();
    let mut i: usize = 0;
    while i < t.len()
        invariant
            i <= t.len(),
            out.deep_view() == filtered_view(t.deep_view().take(i as int)),
            outcomes.deep_view() =~= outcomes_view(t.deep_view().take(i as int)),
        decreases t.len() - i,
    {
        let ghost pre = t.deep_view().take(i as int);
        let ghost post = t.deep_view().take(i + 1 as int);
        proof {
            assert(post.drop_last() =~= pre);
            assert(post.last() == t.deep_view()[i as int]);
            assert(t.deep_view().len() == t@.len());
            assert(pre.len() == i);
            assert(outcomes.deep_view().len() == i);
        }
        let entry = &t[i];
        if is_path_excluded(&entry.path) {
            outcomes.push(CopyOutcome::SkippedExcluded { path: clone_path(&entry.path) });
        } else {
            out.push(clone_entry(entry));
            outcomes.push(CopyOutcome::Copied { path: clone_path(&entry.path) });
        }
        proof {
            reveal(Seq::filter);
            assert(out.deep_view() =~= filtered_view(post));
            assert(post[i as int] == t.deep_view()[i as int]);
            assert(outcomes.deep_view().len() == i + 1);
            assert(outcomes_view(post).len() == i + 1);
            assert(outcomes.deep_view()[i as int] == outcomes_view(post)[i as int]);
            assert forall|k: int| 0 <= k < i + 1 implies outcomes.deep_view()[k] == outcomes_view(
                post,
            )[k] by {
                if k < i {
                    assert(outcomes_view(pre)[k] == outcomes_view(post)[k]);
                }
            }
            assert(outcomes.deep_view() =~= outcomes_view(post));
        }
        i += 1;
    }
    proof {
        assert(t.deep_view().take(t.len() as int) =~= t.deep_view());
    }
    (out, outcomes)
}

/// No entry of a filtered copy has an excluded name anywhere on its
/// path, however deep the excluded entry sat in the source.
pub proof fn lemma_filtered_excludes(t: Seq<EntryV>)
    ensures
        forall|i: int| 0 <= i < filtered_view(t).len() ==> !path_excluded(
            #[trigger] filtered_view(t)[i].path,
        ),
{
    assert forall|i: int| 0 <= i < filtered_view(t).len() implies !path_excluded(
        filtered_view(t)[i].path,
    ) by {
        t.lemma_filter_pred(keep_pred(), i);
    }
}

/// A symbolic link that survives the filter survives as a link with the
/// same target, not as a copy of what it points to.
pub proof fn lemma_filtered_preserves_links(t: Seq<EntryV>, i: int)
    requires
        0 <= i < t.len(),
        t[i].kind is Link,
        !path_excluded(t[i].path),
    ensures
        filtered_view(t).contains(t[i]),
{
    t.lemma_filter_contains(keep_pred(), i);
}

/// On a tree with no excluded names at all, the filtered copy is the
/// identity.
pub proof fn lemma_filtered_identity(t: Seq<EntryV>)
    requires
        forall|i: int| 0 <= i < t.len() ==> !path_excluded(#[trigger] t[i].path),
    ensures
        filtered_view(t) == t,
    decreases t.len(),
{
    reveal(Seq::filter);
    if t.len() == 0 {
        assert(filtered_view(t) =~= t);
    } else {
        lemma_filtered_identity(t.drop_last());
        assert(filtered_view(t) =~= t);
    }
}

/// Every path of the filtered copy is a path of the source.
pub proof fn lemma_filtered_paths_subset(t: Seq<EntryV>, p: Seq<Seq<char>>)
    requires
        tree_has_path(filtered_view(t), p),
    ensures
        tree_has_path(t, p),
    decreases t.len(),
{
    reveal(Seq::filter);
    if t.len() > 0 {
        let f = filtered_view(t);
        let fd = filtered_view(t.drop_last());
        let i = choose|i: int| 0 <= i < f.len() && f[i].path == p;
        if !path_excluded(t.last().path) && i == f.len() - 1 {
            assert(t[t.len() - 1].path == p);
        } else {
            assert(fd[i] == f[i]);
            lemma_filtered_paths_subset(t.drop_last(), p);
            let j = choose|j: int| 0 <= j < t.drop_last().len() && t.drop_last()[j].path == p;
            assert(t[j].path == p);
        }
    }
}

/// Filtering keeps a tree well-formed.
pub proof fn lemma_filtered_wf(t: Seq<EntryV>)
    requires
        tree_wf(t),
    ensures
        tree_wf(filtered_view(t)),
    decreases t.len(),
{
    reveal(Seq::filter);
    if t.len() > 0 {
        assert(tree_wf(t.drop_last()));
        lemma_filtered_wf(t.drop_last());
        let f = filtered_view(t);
        let fd = filtered_view(t.drop_last());
        if !path_excluded(t.last().path) {
            assert(f == fd.push(t.last()));
            assert forall|i: int, j: int| 0 <= i < j < f.len() implies f[i].path != f[j].path by {
                if j < f.len() - 1 {
                    assert(fd[i] == f[i] && fd[j] == f[j]);
                } else {
                    assert(fd[i] == f[i]);
                    if f[i].path == t.last().path {
                        lemma_filtered_paths_subset(t.drop_last(), f[i].path);
                        let k = choose|k: int|
                            0 <= k < t.drop_last().len() && t.drop_last()[k].path == f[i].path;
                        assert(t[k].path == t[t.len() - 1].path);
                        assert(false);
                    }
                }
            }
            assert forall|i: int| 0 <= i < f.len() implies f[i].path.len() >= 1 by {
                if i < f.len() - 1 {
                    assert(fd[i] == f[i]);
                } else {
                    assert(f[i] == t.last());
                }
            }
        } else {
            assert(f == fd);
        }
    }
}

} // verus!

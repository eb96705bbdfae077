//! Merging one tree's contents into another: the strict recursive copy
//! onto an existing destination, and the resource-bundle synchronizer
//! that a switch uses to carry named subdirectories (agents, commands,
//! skills and the like) between a profile and the live tree.
//!
//! A merge is upsert semantics, as a recursive on-disk copy over an
//! existing directory is: every source entry lands at its path,
//! replacing what sat there; destination entries the source does not
//! mention stay.

use vstd::prelude::*;
use vstd::pervasive::VecAdditionalExecFns;
use crate::model::{Tree, TreeEntry, EntryV, EntryKind, KindV, tree_wf, tree_has_path, tree_at,
    tree_find, lemma_tree_at_index, clone_entry, str_equal};
use crate::tool::{ToolInfo, fallback_names, fallback_resource_dirs};

verus! {

/// Whether `x` is one of `names`.
pub open spec fn in_names(names: Seq<Seq<char>>, x: Seq<char>) -> bool {
    exists|k: int| 0 <= k < names.len() && names[k] == x
}

/// The directory names a resource synchronization touches for this
/// tool: the bundles it declares, then the conventional fallbacks.
pub open spec fn sync_names(tool: &ToolInfo) -> Seq<Seq<char>> {
    tool.resource_dirs.deep_view() + fallback_names()
}

/// Whether `x` is one of `names`.
fn name_listed(names: &Vec<String>, x: &str) -> (r: bool)
    ensures
        r == in_names(names.deep_view(), x@),
{
    let ghost nv = names.deep_view();
    let mut k: usize = 0;
    while k < names.len()
        invariant
            k <= names.len(),
            nv == names.deep_view(),
            forall|j: int| 0 <= j < k ==> nv[j] != x@,
        decreases names.len() - k,
    {
        if str_equal(names[k].as_str(), x) {
            proof {
                assert(nv[k as int] == x@);
            }
            return true;
        }
        k += 1;
    }
    false
}

/// The directory names a resource synchronization touches, as a list:
/// the tool's declared bundles, then the conventional fallbacks.
pub fn sync_name_list(tool: &ToolInfo) -> (r: Vec<String>)
    ensures
        r.deep_view() == sync_names(tool),
{
    let mut names = crate::model::clone_path(&tool.resource_dirs);
    let mut fallback = fallback_resource_dirs();
    names.append(&mut fallback);
    proof {
        assert(names.deep_view() =~= sync_names(tool));
    }
    names
}

/// Puts `e` at its path in `dst`: replaces the entry already there, or
/// appends. Every other path is untouched.
pub fn tree_upsert(dst: &mut Tree, e: TreeEntry)
    requires
        tree_wf(old(dst).deep_view()),
        e.path@.len() >= 1,
    ensures
        tree_wf(final(dst).deep_view()),
        tree_has_path(final(dst).deep_view(), e.deep_view().path),
        tree_at(final(dst).deep_view(), e.deep_view().path) == e.deep_view().kind,
        forall|p: Seq<Seq<char>>| p != e.deep_view().path ==> (#[trigger] tree_has_path(
            final(dst).deep_view(),
            p,
        ) <==> tree_has_path(old(dst).deep_view(), p)),
        forall|p: Seq<Seq<char>>| p != e.deep_view().path && tree_has_path(
            old(dst).deep_view(),
            p,
        ) ==> #[trigger] tree_at(final(dst).deep_view(), p) == tree_at(old(dst).deep_view(), p),
{
    let ghost d0 = dst.deep_view();
    let ghost ev = e.deep_view();
    proof {
        assert(ev.path.len() == e.path@.len());
    }
    match tree_find(dst, &e.path) {
        Some(i) => {
            let ghost idx: int = i as int;
            proof {
                assert(d0[idx].path == ev.path);
            }
            dst.set(i, e);
            proof {
                let d1 = dst.deep_view();
                assert(d1 =~= d0.update(idx, ev));
                assert forall|k: int| 0 <= k < d1.len() implies (#[trigger] d1[k]).path
                    == d0[k].path by {
                    if k != idx {
                        assert(d1[k] == d0[k]);
                    }
                }
                assert(tree_wf(d1));
                lemma_tree_at_index(d1, idx);
                assert forall|p: Seq<Seq<char>>| p != ev.path implies (#[trigger] tree_has_path(
                    d1,
                    p,
                ) <==> tree_has_path(d0, p)) by {
                    if tree_has_path(d1, p) {
                        let w = choose|w: int| 0 <= w < d1.len() && d1[w].path == p;
                        assert(d0[w].path == p);
                    }
                    if tree_has_path(d0, p) {
                        let w = choose|w: int| 0 <= w < d0.len() && d0[w].path == p;
                        assert(d1[w].path == p);
                    }
                }
                assert forall|p: Seq<Seq<char>>| p != ev.path && tree_has_path(d0, p) implies
                    #[trigger] tree_at(d1, p) == tree_at(d0, p) by {
                    let w = choose|w: int| 0 <= w < d0.len() && d0[w].path == p;
                    lemma_tree_at_index(d0, w);
                    assert(d1[w] == d0[w]);
                    lemma_tree_at_index(d1, w);
                }
            }
        },
        None => {
            dst.push(e);
            proof {
                let d1 = dst.deep_view();
                assert(d1 =~= d0.push(ev));
                assert forall|p2: int, q: int| 0 <= p2 < q < d1.len() implies d1[p2].path
                    != d1[q].path by {
                    if q < d0.len() {
                        assert(d1[p2] == d0[p2] && d1[q] == d0[q]);
                    } else {
                        assert(d1[p2] == d0[p2] && d1[q] == ev);
                        if d0[p2].path == ev.path {
                            assert(tree_has_path(d0, ev.path));
                        }
                    }
                }
                assert(tree_wf(d1));
                lemma_tree_at_index(d1, d0.len() as int);
                assert forall|p: Seq<Seq<char>>| p != ev.path implies (#[trigger] tree_has_path(
                    d1,
                    p,
                ) <==> tree_has_path(d0, p)) by {
                    if tree_has_path(d1, p) {
                        let w = choose|w: int| 0 <= w < d1.len() && d1[w].path == p;
                        assert(w < d0.len());
                        assert(d0[w].path == p);
                    }
                    if tree_has_path(d0, p) {
                        let w = choose|w: int| 0 <= w < d0.len() && d0[w].path == p;
                        assert(d1[w].path == p);
                    }
                }
                assert forall|p: Seq<Seq<char>>| p != ev.path && tree_has_path(d0, p) implies
                    #[trigger] tree_at(d1, p) == tree_at(d0, p) by {
                    let w = choose|w: int| 0 <= w < d0.len() && d0[w].path == p;
                    lemma_tree_at_index(d0, w);
                    assert(d1[w] == d0[w]);
                    lemma_tree_at_index(d1, w);
                }
            }
        },
    }
}

/// The strict recursive copy onto an existing destination: every source
/// entry lands at its path in the destination, replacing what sat
/// there; everything else in the destination stays.
pub fn copy_dir_recursive(src: &Tree, dst: &mut Tree)
    requires
        tree_wf(src.deep_view()),
        tree_wf(old(dst).deep_view()),
    ensures
        tree_wf(final(dst).deep_view()),
        forall|p: Seq<Seq<char>>| #[trigger] tree_has_path(final(dst).deep_view(), p)
            <==> tree_has_path(old(dst).deep_view(), p) || tree_has_path(src.deep_view(), p),
        forall|p: Seq<Seq<char>>| tree_has_path(src.deep_view(), p) ==> #[trigger] tree_at(
            final(dst).deep_view(),
            p,
        ) == tree_at(src.deep_view(), p),
        forall|p: Seq<Seq<char>>| !tree_has_path(src.deep_view(), p) && tree_has_path(
            old(dst).deep_view(),
            p,
        ) ==> #[trigger] tree_at(final(dst).deep_view(), p) == tree_at(old(dst).deep_view(), p),
{
    let ghost sv = src.deep_view();
    let ghost d0 = old(dst).deep_view();
    let mut i: usize = 0;
    while i < src.len()
        invariant
            i <= src.len(),
            sv == src.deep_view(),
            tree_wf(sv),
            tree_wf(dst.deep_view()),
            forall|p: Seq<Seq<char>>| #[trigger] tree_has_path(dst.deep_view(), p)
                <==> tree_has_path(d0, p) || tree_has_path(sv.take(i as int), p),
            forall|p: Seq<Seq<char>>| tree_has_path(sv.take(i as int), p) ==> #[trigger] tree_at(
                dst.deep_view(),
                p,
            ) == tree_at(sv, p),
            forall|p: Seq<Seq<char>>| !tree_has_path(sv.take(i as int), p) && tree_has_path(
                d0,
                p,
            ) ==> #[trigger] tree_at(dst.deep_view(), p) == tree_at(d0, p),
        decreases src.len() - i,
    {
        let ghost dpre = dst.deep_view();
        let ghost p0 = sv[i as int].path;
        let e = clone_entry(&src[i]);
        proof {
            assert(e.path@.len() == e.deep_view().path.len());
            assert(e.deep_view() == sv[i as int]);
        }
        tree_upsert(dst, e);
        proof {
            lemma_tree_at_index(sv, i as int);
            let pre = sv.take(i as int);
            let post = sv.take(i + 1 as int);
            assert forall|p: Seq<Seq<char>>| #[trigger] tree_has_path(post, p) implies p == p0
                || tree_has_path(pre, p) by {
                let w = choose|w: int| 0 <= w < post.len() && post[w].path == p;
                if w < i {
                    assert(pre[w].path == p);
                }
            }
            assert forall|p: Seq<Seq<char>>| p == p0 || #[trigger] tree_has_path(pre, p) implies
                tree_has_path(post, p) by {
                if tree_has_path(pre, p) {
                    let w = choose|w: int| 0 <= w < pre.len() && pre[w].path == p;
                    assert(post[w].path == p);
                } else {
                    assert(post[i as int].path == p0);
                }
            }
            assert forall|p: Seq<Seq<char>>| tree_has_path(post, p) implies #[trigger] tree_at(
                dst.deep_view(),
                p,
            ) == tree_at(sv, p) by {
                if p != p0 {
                    assert(tree_has_path(pre, p));
                }
            }
        }
        i += 1;
    }
    proof {
        assert(sv.take(sv.len() as int) =~= sv);
    }
}

/// Merges, from `src` into `dst`, every entry that sits under one of
/// the named top-level directories; everything else in `dst` stays.
pub fn sync_subtrees(src: &Tree, dst: &mut Tree, names: &Vec<String>)
    requires
        tree_wf(src.deep_view()),
        tree_wf(old(dst).deep_view()),
    ensures
        tree_wf(final(dst).deep_view()),
        forall|p: Seq<Seq<char>>| #[trigger] tree_has_path(final(dst).deep_view(), p)
            <==> tree_has_path(old(dst).deep_view(), p) || (tree_has_path(src.deep_view(), p)
            && p.len() >= 1 && in_names(names.deep_view(), p[0])),
        forall|p: Seq<Seq<char>>| tree_has_path(src.deep_view(), p) && p.len() >= 1 && in_names(
            names.deep_view(),
            p[0],
        ) ==> #[trigger] tree_at(final(dst).deep_view(), p) == tree_at(src.deep_view(), p),
        forall|p: Seq<Seq<char>>| !(tree_has_path(src.deep_view(), p) && p.len() >= 1
            && in_names(names.deep_view(), p[0])) && tree_has_path(old(dst).deep_view(), p)
            ==> #[trigger] tree_at(final(dst).deep_view(), p) == tree_at(old(dst).deep_view(), p),
{
    let ghost sv = src.deep_view();
    let ghost d0 = old(dst).deep_view();
    let ghost nv = names.deep_view();
    let mut i: usize = 0;
    while i < src.len()
        invariant
            i <= src.len(),
            sv == src.deep_view(),
            nv == names.deep_view(),
            tree_wf(sv),
            tree_wf(dst.deep_view()),
            forall|p: Seq<Seq<char>>| #[trigger] tree_has_path(dst.deep_view(), p)
                <==> tree_has_path(d0, p) || (tree_has_path(sv.take(i as int), p) && p.len() >= 1
                && in_names(nv, p[0])),
            forall|p: Seq<Seq<char>>| tree_has_path(sv.take(i as int), p) && p.len() >= 1
                && in_names(nv, p[0]) ==> #[trigger] tree_at(dst.deep_view(), p) == tree_at(sv, p),
            forall|p: Seq<Seq<char>>| !(tree_has_path(sv.take(i as int), p) && p.len() >= 1
                && in_names(nv, p[0])) && tree_has_path(d0, p) ==> #[trigger] tree_at(
                dst.deep_view(),
                p,
            ) == tree_at(d0, p),
        decreases src.len() - i,
    {
        let ghost p0 = sv[i as int].path;
        let ghost pre = sv.take(i as int);
        let ghost post = sv.take(i + 1 as int);
        proof {
            assert(sv[i as int].path.len() >= 1);
            assert forall|p: Seq<Seq<char>>| #[trigger] tree_has_path(post, p) implies p == p0
                || tree_has_path(pre, p) by {
                let w = choose|w: int| 0 <= w < post.len() && post[w].path == p;
                if w < i {
                    assert(pre[w].path == p);
                }
            }
            assert forall|p: Seq<Seq<char>>| p == p0 || #[trigger] tree_has_path(pre, p) implies
                tree_has_path(post, p) by {
                if tree_has_path(pre, p) {
                    let w = choose|w: int| 0 <= w < pre.len() && pre[w].path == p;
                    assert(post[w].path == p);
                } else {
                    assert(post[i as int].path == p0);
                }
            }
        }
        let entry = &src[i];
        let included = if entry.path.len() >= 1 {
            name_listed(names, entry.path[0].as_str())
        } else {
            false
        };
        proof {
            assert(entry.deep_view() == sv[i as int]);
            assert(entry.path.deep_view()[0] == entry.path@[0]@);
            assert(included == (p0.len() >= 1 && in_names(nv, p0[0])));
        }
        if included {
            let e = clone_entry(entry);
            proof {
                assert(e.path@.len() == e.deep_view().path.len());
                assert(e.deep_view() == sv[i as int]);
            }
            tree_upsert(dst, e);
            proof {
                lemma_tree_at_index(sv, i as int);
                assert forall|p: Seq<Seq<char>>| tree_has_path(post, p) && p.len() >= 1
                    && in_names(nv, p[0]) implies #[trigger] tree_at(dst.deep_view(), p)
                    == tree_at(sv, p) by {
                    if p != p0 {
                        assert(tree_has_path(pre, p));
                    }
                }
            }
        }
        i += 1;
    }
    proof {
        assert(sv.take(sv.len() as int) =~= sv);
    }
}

/// Synchronizes the tool's resource bundles between the live tree and a
/// profile tree, in the direction the switch implies: the bundles the
/// tool declares, then the conventional fallback names, each merged
/// with the strict engine. Only entries under those directory names
/// move; the destination's other contents stay.
pub fn copy_resource_directories(
    tool: &ToolInfo,
    to_profile: bool,
    live: &mut Tree,
    profile: &mut Tree,
)
    requires
        tree_wf(old(live).deep_view()),
        tree_wf(old(profile).deep_view()),
    ensures
        tree_wf(final(live).deep_view()),
        tree_wf(final(profile).deep_view()),
        to_profile ==> *final(live) == *old(live) && synced_view(
            old(live).deep_view(),
            old(profile).deep_view(),
            final(profile).deep_view(),
            sync_names(tool),
        ),
        !to_profile ==> *final(profile) == *old(profile) && synced_view(
            old(profile).deep_view(),
            old(live).deep_view(),
            final(live).deep_view(),
            sync_names(tool),
        ),
{
    let names = sync_name_list(tool);
    if to_profile {
        sync_subtrees(live, profile, &names);
    } else {
        sync_subtrees(profile, live, &names);
    }
}

/// What a resource synchronization from `src` leaves of a destination:
/// `dst0` was the destination before, `dst1` after. Everything of `src`
/// under one of the named directories landed; everything else stayed.
pub open spec fn synced_view(
    src: Seq<EntryV>,
    dst0: Seq<EntryV>,
    dst1: Seq<EntryV>,
    names: Seq<Seq<char>>,
) -> bool {
    &&& (forall|p: Seq<Seq<char>>| #[trigger] tree_has_path(dst1, p) <==> tree_has_path(dst0, p)
        || (tree_has_path(src, p) && p.len() >= 1 && in_names(names, p[0])))
    &&& (forall|p: Seq<Seq<char>>| tree_has_path(src, p) && p.len() >= 1 && in_names(names, p[0])
        ==> #[trigger] tree_at(dst1, p) == tree_at(src, p))
    &&& (forall|p: Seq<Seq<char>>| !(tree_has_path(src, p) && p.len() >= 1 && in_names(
        names,
        p[0],
    )) && tree_has_path(dst0, p) ==> #[trigger] tree_at(dst1, p) == tree_at(dst0, p))
}



/// What copying configuration files into a profile leaves there: the
/// live tree's top-level files at their names, and the external MCP
/// configuration file's bytes under its own name when the tool declares
/// one, its contents are at hand, and the live tree did not already
/// hold a file of that name. Entries with excluded names are never
/// carried, and nothing else lands in the profile.
pub open spec fn config_copied_to_profile(
    mcp: Option<Seq<char>>,
    live: Seq<EntryV>,
    mcp_bytes: Option<Seq<u8>>,
    profile0: Seq<EntryV>,
    profile1: Seq<EntryV>,
) -> bool {
    &&& (forall|p: Seq<Seq<char>>| #[trigger] top_file_at(live, p)
        && !crate::copy::path_excluded(p) ==> tree_has_path(profile1, p) && tree_at(profile1, p)
        == tree_at(live, p))
    &&& (match (mcp, mcp_bytes) {
        (Some(f), Some(b)) => !tree_has_path(live, seq![f]) ==> tree_has_path(profile1, seq![f])
            && tree_at(profile1, seq![f]) == (KindV::File { bytes: b }),
        _ => true,
    })
    &&& (forall|p: Seq<Seq<char>>| #[trigger] tree_has_path(profile1, p) <==> tree_has_path(
        profile0,
        p,
    ) || (top_file_at(live, p) && !crate::copy::path_excluded(p)) || (match (mcp, mcp_bytes) {
        (Some(f), Some(b)) => !tree_has_path(live, seq![f]) && p == seq![f],
        _ => false,
    }))
}

/// What restoring configuration files from a profile leaves of the live
/// tree and the external MCP configuration file: the profile's
/// top-level files at their names in the live tree, except a file named
/// like the tool's external MCP configuration file, whose bytes go to
/// the external place instead — and nothing else lands in the live
/// tree (in particular that file is not duplicated into it).
pub open spec fn config_restored_to_live(
    mcp: Option<Seq<char>>,
    profile: Seq<EntryV>,
    live0: Seq<EntryV>,
    live1: Seq<EntryV>,
    mcp_before: Option<Seq<u8>>,
    mcp_after: Option<Seq<u8>>,
) -> bool {
    &&& (forall|p: Seq<Seq<char>>| #[trigger] top_file_at(profile, p) && !(mcp matches Some(f)
        && p == seq![f]) ==> tree_has_path(live1, p) && tree_at(live1, p) == tree_at(profile, p))
    &&& (forall|p: Seq<Seq<char>>| #[trigger] tree_has_path(live1, p) <==> tree_has_path(live0, p)
        || (top_file_at(profile, p) && !(mcp matches Some(f) && p == seq![f])))
    &&& (match mcp {
        Some(f) => if top_file_at(profile, seq![f]) {
            mcp_after == Some(tree_at(profile, seq![f])->File_bytes)
        } else {
            mcp_after == mcp_before
        },
        None => mcp_after == mcp_before,
    })
}

/// Whether `p` names a top-level file of `t`.
pub open spec fn top_file_at(t: Seq<EntryV>, p: Seq<Seq<char>>) -> bool {
    p.len() == 1 && tree_has_path(t, p) && tree_at(t, p) is File
}

/// Copies configuration files between a tool's live tree and a profile
/// tree: the top-level files of the source land at their names in the
/// destination, and nothing else moves (deeper entries, directories and
/// symbolic links are the whole-tree engine's and the resource
/// synchronizer's business). Toward the profile, files with excluded
/// names are left behind, and the tool's external MCP configuration
/// file is captured too, under its own name, unless the directory copy
/// already brought a file of that name. Toward the live tree, a stored
/// file of that name goes back to its external place — the `mcp_file`
/// slot — instead of the live tree.
pub fn copy_config_files(
    tool: &ToolInfo,
    source_is_live: bool,
    live: &mut Tree,
    profile: &mut Tree,
    mcp_file: &mut Option<Vec<u8>>,
)
    requires
        tree_wf(old(live).deep_view()),
        tree_wf(old(profile).deep_view()),
    ensures
        tree_wf(final(live).deep_view()),
        tree_wf(final(profile).deep_view()),
        source_is_live ==> *final(live) == *old(live) && *final(mcp_file) == *old(mcp_file)
            && config_copied_to_profile(
            crate::switching::tool_mcp(tool),
            old(live).deep_view(),
            (*old(mcp_file)).deep_view(),
            old(profile).deep_view(),
            final(profile).deep_view(),
        ),
        !source_is_live ==> *final(profile) == *old(profile) && config_restored_to_live(
            crate::switching::tool_mcp(tool),
            old(profile).deep_view(),
            old(live).deep_view(),
            final(live).deep_view(),
            (*old(mcp_file)).deep_view(),
            (*final(mcp_file)).deep_view(),
        ),
{
    if source_is_live {
        let ghost lv = live.deep_view();
        let saved = clone_opt_bytes(&*mcp_file);
        merge_top_files(&*live, profile, None, true);
        let ghost p1 = profile.deep_view();
        let fname: Option<&String> = tool_mcp_filename(tool);
        match (fname, saved) {
            (Some(f), Some(bytes)) => {
                let mut fpath: Vec<String> = Vec::new();
                fpath.push(f.clone());
                proof {
                    assert(fpath.deep_view() =~= seq![f@]);
                }
                match tree_find(&*live, &fpath) {
                    Some(found) => {
                        proof {
                            assert(live.deep_view()[found as int].path == fpath.deep_view());
                            assert(tree_has_path(lv, seq![f@]));
                        }
                    },
                    None => {
                        let ghost bv = bytes@;
                        let e = TreeEntry { path: fpath, kind: EntryKind::File { bytes } };
                        proof {
                            assert(e.deep_view().path =~= seq![f@]);
                            assert(e.path@.len() == 1);
                            assert(e.deep_view().kind == (KindV::File { bytes: bv }));
                        }
                        tree_upsert(profile, e);
                        proof {
                            assert(tree_at(profile.deep_view(), seq![f@]) == (KindV::File {
                                bytes: bv,
                            }));
                            assert forall|p: Seq<Seq<char>>| #[trigger] top_file_at(lv, p)
                                && !crate::copy::path_excluded(p) implies tree_has_path(
                                profile.deep_view(),
                                p,
                            ) && tree_at(profile.deep_view(), p) == tree_at(lv, p) by {
                                if p == seq![f@] {
                                    assert(tree_has_path(lv, p));
                                    assert(false);
                                } else {
                                    assert(merge_lands(lv, None::<Seq<char>>, true, p));
                                    assert(tree_has_path(p1, p) && tree_at(p1, p) == tree_at(
                                        lv,
                                        p,
                                    ));
                                }
                            }
                        }
                    },
                }
            },
            _ => {},
        }
        proof {
            assert(tree_wf(profile.deep_view()));
            assert(*live == *old(live));
            assert(*mcp_file == *old(mcp_file));
            let mcp = crate::switching::tool_mcp(tool);
            let mb = (*old(mcp_file)).deep_view();
            assert(config_copied_to_profile(
                mcp,
                old(live).deep_view(),
                mb,
                old(profile).deep_view(),
                profile.deep_view(),
            )) by {
                assert forall|p: Seq<Seq<char>>| #[trigger] top_file_at(lv, p)
                    && !crate::copy::path_excluded(p) implies tree_has_path(
                    profile.deep_view(),
                    p,
                ) && tree_at(profile.deep_view(), p) == tree_at(lv, p) by {
                    assert(merge_lands(lv, None::<Seq<char>>, true, p));
                }
                if mcp is Some {
                    let fv = mcp->0;
                    if mb is Some {
                        let bv2 = mb->0;
                        if !tree_has_path(lv, seq![fv]) {
                            assert(tree_has_path(profile.deep_view(), seq![fv]) && tree_at(
                                profile.deep_view(),
                                seq![fv],
                            ) == (KindV::File { bytes: bv2 }));
                        }
                    }
                }
                assert forall|p: Seq<Seq<char>>| #[trigger] tree_has_path(profile.deep_view(), p)
                    <==> tree_has_path(old(profile).deep_view(), p) || (top_file_at(lv, p)
                    && !crate::copy::path_excluded(p)) || (match (mcp, mb) {
                    (Some(f2), Some(b2)) => !tree_has_path(lv, seq![f2]) && p == seq![f2],
                    _ => false,
                }) by {
                    if merge_lands(lv, None::<Seq<char>>, true, p) {
                        assert(top_file_at(lv, p) && !crate::copy::path_excluded(p));
                    }
                    if top_file_at(lv, p) && !crate::copy::path_excluded(p) {
                        assert(merge_lands(lv, None::<Seq<char>>, true, p));
                    }
                }
            }
        }
    } else {
        let ghost pv0 = profile.deep_view();
        let fname: Option<&String> = tool_mcp_filename(tool);
        let routed = merge_top_files(&*profile, live, fname, false);
        let ghost routed_v = routed.deep_view();
        match routed {
            Some(b) => {
                *mcp_file = Some(b);
            },
            None => {},
        }
        proof {
            assert(tree_wf(live.deep_view()));
            assert(*profile == *old(profile));
            let mcp = crate::switching::tool_mcp(tool);
            assert forall|p: Seq<Seq<char>>| #[trigger] top_file_at(pv0, p) && !(mcp matches Some(
                fv,
            ) && p == seq![fv]) implies tree_has_path(live.deep_view(), p) && tree_at(
                live.deep_view(),
                p,
            ) == tree_at(pv0, p) by {
                match fname {
                    Some(f) => {
                        assert(!(p == seq![f@]));
                    },
                    None => {},
                }
            }
            match mcp {
                Some(fv) => {
                    if top_file_at(pv0, seq![fv]) {
                        assert(routed_v matches Some(bb) && bb == tree_at(
                            pv0,
                            seq![fv],
                        )->File_bytes);
                        assert((*mcp_file).deep_view() == Some(
                            tree_at(pv0, seq![fv])->File_bytes,
                        ));
                    } else {
                        assert(routed_v is None);
                        assert((*mcp_file).deep_view() == (*old(mcp_file)).deep_view());
                    }
                },
                None => {
                    assert(routed_v is None);
                },
            }
            assert forall|p: Seq<Seq<char>>| #[trigger] tree_has_path(live.deep_view(), p)
                <==> tree_has_path(old(live).deep_view(), p) || (top_file_at(pv0, p) && !(
            mcp matches Some(fv) && p == seq![fv])) by {
                if merge_lands(pv0, skip_view(fname), false, p) {
                    match fname {
                        Some(f) => {
                            assert(!(p == seq![f@]));
                        },
                        None => {},
                    }
                }
                if top_file_at(pv0, p) && !(mcp matches Some(fv) && p == seq![fv]) {
                    assert(merge_lands(pv0, skip_view(fname), false, p));
                }
            }
            assert(config_restored_to_live(
                mcp,
                pv0,
                old(live).deep_view(),
                live.deep_view(),
                (*old(mcp_file)).deep_view(),
                (*mcp_file).deep_view(),
            ));
        }
    }
}


/// A copy of an optional byte string.
fn clone_opt_bytes(o: &Option<Vec<u8>>) -> (r: Option<Vec<u8>>)
    ensures
        r is Some <==> o is Some,
        r matches Some(b) ==> (o matches Some(c) && b@ == c@),
{
    match o {
        Some(b) => {
            let c = b.clone();
            proof {
                assert(c@ =~= b@);
            }
            Some(c)
        },
        None => None,
    }
}

/// The external MCP file name the tool declares, if any.
fn tool_mcp_filename(tool: &ToolInfo) -> (r: Option<&String>)
    ensures
        match r {
            Some(f) => crate::switching::tool_mcp(tool) == Some(f@),
            None => crate::switching::tool_mcp(tool) is None,
        },
{
    match &tool.mcp_filename {
        Some(f) if tool.mcp_external => Some(f),
        _ => None,
    }
}

/// What the source tree hands the destination: whether the entry at
/// `p` is a top-level file that the merge carries over — not the one
/// routed aside by name, and, when the exclusion filter is on, not one
/// with an excluded name.
pub open spec fn merge_lands(
    src: Seq<EntryV>,
    skip: Option<Seq<char>>,
    filter_excluded: bool,
    p: Seq<Seq<char>>,
) -> bool {
    &&& top_file_at(src, p)
    &&& !(skip matches Some(f) && p == seq![f])
    &&& !(filter_excluded && crate::copy::path_excluded(p))
}

/// The name a merge routes aside, as its character sequence.
pub open spec fn skip_view(skip: Option<&String>) -> Option<Seq<char>> {
    match skip {
        Some(f) => Some(f@),
        None => None,
    }
}

/// Merges the source's top-level files into the destination; a file
/// named like `skip` is captured and returned instead of merged, and
/// when the exclusion filter is on, files with excluded names are
/// silently left behind. Nothing else lands in the destination.
fn merge_top_files(
    src: &Tree,
    dst: &mut Tree,
    skip: Option<&String>,
    filter_excluded: bool,
) -> (routed: Option<Vec<u8>>)
    requires
        tree_wf(src.deep_view()),
        tree_wf(old(dst).deep_view()),
    ensures
        tree_wf(final(dst).deep_view()),
        forall|p: Seq<Seq<char>>| #[trigger] merge_lands(
            src.deep_view(),
            skip_view(skip),
            filter_excluded,
            p,
        ) ==> tree_has_path(final(dst).deep_view(), p) && tree_at(final(dst).deep_view(), p)
            == tree_at(src.deep_view(), p),
        forall|p: Seq<Seq<char>>| #[trigger] tree_has_path(final(dst).deep_view(), p)
            <==> tree_has_path(old(dst).deep_view(), p) || merge_lands(
            src.deep_view(),
            skip_view(skip),
            filter_excluded,
            p,
        ),
        skip matches Some(f) ==> (top_file_at(src.deep_view(), seq![f@]) ==> (routed matches Some(
            b,
        ) && b@ == tree_at(src.deep_view(), seq![f@])->File_bytes)),
        skip matches Some(f) ==> (!top_file_at(src.deep_view(), seq![f@]) ==> routed is None),
        skip is None ==> routed is None,
{
    let ghost sv = src.deep_view();
    let ghost skv = skip_view(skip);
    let mut routed: Option<Vec<u8>> = None;
    let mut i: usize = 0;
    while i < src.len()
        invariant
            i <= src.len(),
            sv == src.deep_view(),
            skv == skip_view(skip),
            tree_wf(sv),
            tree_wf(dst.deep_view()),
            forall|p: Seq<Seq<char>>| #[trigger] merge_lands(
                sv.take(i as int),
                skv,
                filter_excluded,
                p,
            ) ==> tree_has_path(dst.deep_view(), p) && tree_at(dst.deep_view(), p) == tree_at(
                sv,
                p,
            ),
            forall|p: Seq<Seq<char>>| #[trigger] tree_has_path(dst.deep_view(), p)
                <==> tree_has_path(old(dst).deep_view(), p) || merge_lands(
                sv.take(i as int),
                skv,
                filter_excluded,
                p,
            ),
            skip matches Some(f) ==> (top_file_at(sv.take(i as int), seq![f@])
                ==> (routed matches Some(b) && b@ == tree_at(sv, seq![f@])->File_bytes)),
            skip matches Some(f) ==> (!top_file_at(sv.take(i as int), seq![f@]) ==> routed
                is None),
            skip is None ==> routed is None,
        decreases src.len() - i,
    {
        let ghost pre = sv.take(i as int);
        let ghost post = sv.take(i + 1 as int);
        let ghost p0 = sv[i as int].path;
        proof {
            assert forall|p: Seq<Seq<char>>| #[trigger] top_file_at(post, p) implies p == p0
                || top_file_at(pre, p) by {
                let w = choose|w: int| 0 <= w < post.len() && post[w].path == p;
                if w < i {
                    assert(pre[w].path == p);
                    assert(tree_has_path(pre, p));
                    lemma_tree_at_index(post, w);
                    lemma_tree_at_index(pre, w);
                } else {
                    assert(post[w] == sv[i as int]);
                }
            }
            assert forall|p: Seq<Seq<char>>| #[trigger] top_file_at(pre, p) implies top_file_at(
                post,
                p,
            ) && tree_at(post, p) == tree_at(pre, p) by {
                let w = choose|w: int| 0 <= w < pre.len() && pre[w].path == p;
                assert(post[w] == pre[w]);
                lemma_tree_at_index(pre, w);
                lemma_tree_at_index(post, w);
            }
            assert forall|p: Seq<Seq<char>>| #[trigger] top_file_at(post, p) implies tree_at(
                post,
                p,
            ) == tree_at(sv, p) by {
                let w = choose|w: int| 0 <= w < post.len() && post[w].path == p;
                lemma_tree_at_index(post, w);
                lemma_tree_at_index(sv, w);
            }
        }
        let entry = &src[i];
        let is_top_file = match &entry.kind {
            EntryKind::File { .. } => entry.path.len() == 1,
            _ => false,
        };
        if is_top_file {
            proof {
                assert(entry.deep_view() == sv[i as int]);
                lemma_tree_at_index(sv, i as int);
                assert(top_file_at(post, p0)) by {
                    assert(post[i as int] == sv[i as int]);
                    lemma_tree_at_index(post, i as int);
                }
            }
            let mut route_this = false;
            match skip {
                Some(f) => {
                    if str_equal(entry.path[0].as_str(), f.as_str()) {
                        proof {
                            assert(entry.path.deep_view()[0] == entry.path@[0]@);
                            assert(p0 =~= seq![f@]);
                        }
                        route_this = true;
                        match &entry.kind {
                            EntryKind::File { bytes } => {
                                let b = bytes.clone();
                                proof {
                                    assert(b@ =~= bytes@);
                                    assert(tree_at(sv, p0) == sv[i as int].kind);
                                }
                                routed = Some(b);
                            },
                            _ => {
                                proof {
                                    assert(false);
                                }
                            },
                        }
                    } else {
                        proof {
                            assert(entry.path.deep_view()[0] == entry.path@[0]@);
                            assert(p0 != seq![f@]);
                        }
                    }
                },
                None => {},
            }
            let mut drop_this = false;
            if filter_excluded && !route_this {
                if crate::copy::is_excluded_name(entry.path[0].as_str()) {
                    drop_this = true;
                    proof {
                        assert(entry.path.deep_view()[0] == entry.path@[0]@);
                        assert(crate::copy::excluded_name(p0[0]));
                        assert(crate::copy::path_excluded(p0));
                    }
                } else {
                    proof {
                        assert(entry.path.deep_view()[0] == entry.path@[0]@);
                        assert forall|k: int| 0 <= k < p0.len() implies !crate::copy::excluded_name(
                            p0[k],
                        ) by {
                            assert(k == 0);
                        }
                        assert(!crate::copy::path_excluded(p0));
                    }
                }
            }
            if !route_this && !drop_this {
                let e = clone_entry(entry);
                proof {
                    assert(e.path@.len() == e.deep_view().path.len());
                    assert(e.deep_view() == sv[i as int]);
                }
                tree_upsert(dst, e);
                proof {
                    assert(tree_at(dst.deep_view(), p0) == sv[i as int].kind);
                    assert(tree_at(sv, p0) == sv[i as int].kind);
                }
            }
        } else {
            proof {
                assert(!(sv[i as int].kind is File) || sv[i as int].path.len() != 1);
                if top_file_at(post, p0) {
                    lemma_tree_at_index(sv, i as int);
                    assert(tree_at(post, p0) == tree_at(sv, p0));
                    assert(!(p0 == p0 && false));
                }
            }
        }
        proof {
            assert forall|p: Seq<Seq<char>>| #[trigger] merge_lands(
                post,
                skv,
                filter_excluded,
                p,
            ) implies tree_has_path(dst.deep_view(), p) && tree_at(dst.deep_view(), p) == tree_at(
                sv,
                p,
            ) by {
                if p != p0 {
                    assert(merge_lands(pre, skv, filter_excluded, p));
                }
            }
            assert forall|p: Seq<Seq<char>>| #[trigger] tree_has_path(dst.deep_view(), p)
                <==> tree_has_path(old(dst).deep_view(), p) || merge_lands(
                post,
                skv,
                filter_excluded,
                p,
            ) by {
                if merge_lands(post, skv, filter_excluded, p) && p != p0 {
                    assert(merge_lands(pre, skv, filter_excluded, p));
                }
                if merge_lands(pre, skv, filter_excluded, p) {
                    assert(merge_lands(post, skv, filter_excluded, p));
                }
            }
        }
        i += 1;
    }
    proof {
        assert(sv.take(src.len() as int) =~= sv);
    }
    routed
}


} // verus!

//! The switch coordinator: the only component that replaces a tool's
//! live configuration directory as a whole.
//!
//! A switch stages a strict copy of the stored profile and replaces the
//! live tree with it in one step, never file by file; the caller
//! mirrors this on disk with the staging-directory-then-rename
//! protocol: write the staged copy first (the slow part), remove the
//! old live directory, rename the staging directory into place, and
//! only then persist the active-profile record. Pre-switch backups are
//! timestamped strict copies of the live tree.

use vstd::prelude::*;
use crate::model::{Tree, TreeEntry, EntryKind, EntryV, KindV, clone_path, clone_entry,
    copy_strict, str_equal, tree_has_path};
use crate::manager::{ProfileManager, ProfileStore, store_has, store_tree, store_idx, store_wf,
    store_find, backups_dir_view};
use crate::name::ProfileName;
use crate::tool::ToolInfo;
use crate::settings::{BridleConfig, settings_wf, assoc_get};
use crate::errors::Error;

verus! {

/// The name of the tool's external MCP configuration file, when it
/// keeps one outside the live directory; switching routes a stored file
/// of that name back to its external place instead of the live tree.
pub open spec fn tool_mcp(tool: &ToolInfo) -> Option<Seq<char>> {
    match tool.mcp_filename {
        Some(f) => if tool.mcp_external {
            Some(f@)
        } else {
            None
        },
        None => None,
    }
}

/// Keeps every entry except a top-level file named `f`.
pub open spec fn route_pred(f: Seq<char>) -> spec_fn(EntryV) -> bool {
    |e: EntryV| !(e.path == seq![f] && e.kind is File)
}

/// What the live tree holds after switching to a profile stored as `t`:
/// all of `t`, except that a top-level file named like the tool's
/// external MCP configuration file goes back to its external place.
pub open spec fn live_after_switch(t: Seq<EntryV>, mcp: Option<Seq<char>>) -> Seq<EntryV> {
    match mcp {
        Some(f) => t.filter(route_pred(f)),
        None => t,
    }
}

/// The bytes of the last top-level file named `f` in `t`, if any.
pub open spec fn last_file_bytes(t: Seq<EntryV>, f: Seq<char>) -> Option<Seq<u8>>
    decreases t.len(),
{
    if t.len() == 0 {
        None
    } else if t.last().path == seq![f] && t.last().kind is File {
        Some(t.last().kind->File_bytes)
    } else {
        last_file_bytes(t.drop_last(), f)
    }
}

/// What the external MCP configuration file holds after switching to a
/// profile stored as `t`: the stored copy if the profile has one,
/// otherwise whatever it held before.
pub open spec fn mcp_after_switch(
    t: Seq<EntryV>,
    mcp: Option<Seq<char>>,
    before: Option<Seq<u8>>,
) -> Option<Seq<u8>> {
    match mcp {
        Some(f) => match last_file_bytes(t, f) {
            Some(b) => Some(b),
            None => before,
        },
        None => before,
    }
}

/// One switch, as a transition on the live tree: the result depends on
/// the stored profile alone, never on what was live before.
pub open spec fn switch_transition(
    live: Option<Seq<EntryV>>,
    t: Seq<EntryV>,
    mcp: Option<Seq<char>>,
) -> Option<Seq<EntryV>> {
    Some(live_after_switch(t, mcp))
}

/// Relies on chrono's `Local::now` and its `format`: a timestamp of the
/// local time, `%Y%m%d_%H%M%S`. The result depends on the clock, so
/// nothing is promised of its value.
#[verifier::external_body]
fn now_timestamp() -> (r: String) {
    chrono::Local::now().format("%Y%m%d_%H%M%S").to_string()
}

impl ProfileManager {
    /// Copies the tool's live configuration, verbatim, into a fresh
    /// timestamped directory under the backups root, and returns that
    /// path with the copy. Fails with `NoConfigFound` exactly when
    /// there is no live directory. The backup is write-once: nothing
    /// here ever reads one back.
    pub fn backup_current(&self, tool: &ToolInfo, live: Option<&Tree>) -> (r: Result<
        (Vec<String>, Tree),
        Error,
    >)
        ensures
            r is Ok <==> live is Some,
            r matches Ok((p, b)) ==> {
                &&& live matches Some(t) && b.deep_view() == t.deep_view()
                &&& p.deep_view().len() == backups_dir_view(self@).len() + 2
                &&& p.deep_view().take(p.deep_view().len() - 1) == backups_dir_view(
                    self@,
                ).push(tool.id@)
            },
            r matches Err(e) ==> e is NoConfigFound,
    {
        match live {
            None => Err(Error::NoConfigFound { what: tool.id.clone() }),
            Some(t) => {
                let copy = copy_strict(t);
                let mut p = self.backups_dir();
                p.push(tool.id.clone());
                p.push(now_timestamp());
                proof {
                    assert(p.deep_view().take(p.deep_view().len() - 1) =~= backups_dir_view(
                        self@,
                    ).push(tool.id@));
                }
                Ok((p, copy))
            },
        }
    }

    /// Switches the tool's live configuration to a stored profile.
    /// Fails with `ProfileNotFound`, touching nothing, exactly when the
    /// store has no profile of this tool and name. On success the live
    /// tree is replaced — not merged — by the stored profile's
    /// contents; a stored copy of the tool's external MCP configuration
    /// file goes back to its external place instead; and the
    /// active-profile record for this tool (and only this tool) is
    /// updated as the final step.
    pub fn switch_profile(
        &self,
        store: &ProfileStore,
        tool: &ToolInfo,
        name: &ProfileName,
        live: &mut Option<Tree>,
        mcp_file: &mut Option<Vec<u8>>,
        settings: &mut BridleConfig,
    ) -> (r: Result<Vec<String>, Error>)
        requires
            store_wf(store.deep_view()),
            settings_wf(*old(settings)),
        ensures
            settings_wf(*final(settings)),
            r is Ok <==> store_has(store.deep_view(), tool.id@, name@),
            r matches Err(e) ==> {
                &&& e is ProfileNotFound
                &&& *final(live) == *old(live)
                &&& *final(mcp_file) == *old(mcp_file)
                &&& *final(settings) == *old(settings)
            },
            r is Ok ==> {
                let t = store_tree(store.deep_view(), tool.id@, name@);
                &&& (*final(live) matches Some(lt) && lt.deep_view() == live_after_switch(
                    t,
                    tool_mcp(tool),
                ))
                &&& (*final(mcp_file)).deep_view() == mcp_after_switch(
                    t,
                    tool_mcp(tool),
                    (*old(mcp_file)).deep_view(),
                )
                &&& assoc_get(final(settings).active.deep_view(), tool.id@) == Some(name@)
                &&& (forall|k: Seq<char>| k != tool.id@ ==> assoc_get(
                    final(settings).active.deep_view(),
                    k,
                ) == assoc_get(old(settings).active.deep_view(), k))
                &&& final(settings).profiles_dir == old(settings).profiles_dir
            },
            r matches Ok(p) ==> p.deep_view() == tool.config_dir.deep_view(),
    {
        let idx = match store_find(store, tool.id.as_str(), name.as_str()) {
            None => {
                return Err(Error::ProfileNotFound { name: name.as_str().to_owned() });
            },
            Some(i) => i,
        };
        let ghost sdv = store.deep_view();
        let ghost t = store_tree(sdv, tool.id@, name@);
        proof {
            let k = store_idx(sdv, tool.id@, name@);
            assert(0 <= k < sdv.len() && sdv[k].tool == tool.id@ && sdv[k].name == name@);
            if k < idx {
                assert(!(sdv[k].tool == sdv[idx as int].tool && sdv[k].name
                    == sdv[idx as int].name));
                assert(false);
            } else if k > idx {
                assert(!(sdv[idx as int].tool == sdv[k].tool && sdv[idx as int].name
                    == sdv[k].name));
                assert(false);
            }
            assert(t == sdv[idx as int].tree);
        }
        let stored: &Tree = &store[idx].tree;
        // Stage the whole copy first (the slow part), then replace the
        // live tree in one step.
        let mut staged: Tree = Vec::new();
        let mut routed: Option<Vec<u8>> = None;
        let mut i: usize = 0;
        while i < stored.len()
            invariant
                i <= stored.len(),
                t == stored.deep_view(),
                staged.deep_view() == live_after_switch(t.take(i as int), tool_mcp(tool)),
                routed.deep_view() == mcp_after_switch(
                    t.take(i as int),
                    tool_mcp(tool),
                    None::<Seq<u8>>,
                ),
            decreases stored.len() - i,
        {
            let ghost pre = t.take(i as int);
            let ghost post = t.take(i + 1 as int);
            proof {
                assert(post.drop_last() =~= pre);
                assert(post.last() == t[i as int]);
            }
            let entry = &stored[i];
            let mut is_mcp_entry = false;
            if tool.mcp_external {
                match &tool.mcp_filename {
                    Some(f) => {
                        if entry.path.len() == 1 && str_equal(entry.path[0].as_str(), f.as_str())
                        {
                            proof {
                                assert(entry.path.deep_view() =~= seq![f@]);
                            }
                            match &entry.kind {
                                EntryKind::File { .. } => {
                                    is_mcp_entry = true;
                                },
                                _ => {
                                    proof {
                                        assert(!(entry.deep_view().kind is File));
                                    }
                                },
                            }
                        } else {
                            proof {
                                if entry.path.len() != 1 {
                                    assert(entry.path.deep_view().len() != 1);
                                } else {
                                    assert(entry.path.deep_view()[0] != f@);
                                }
                                assert(entry.path.deep_view() != seq![f@]);
                            }
                        }
                    },
                    None => {},
                }
            }
            proof {
                match tool_mcp(tool) {
                    Some(f) => {
                        assert(is_mcp_entry == (entry.deep_view().path == seq![f]
                            && entry.deep_view().kind is File));
                    },
                    None => {
                        assert(!is_mcp_entry);
                    },
                }
            }
            if is_mcp_entry {
                match &entry.kind {
                    EntryKind::File { bytes } => {
                        let b = bytes.clone();
                        proof {
                            assert(b@ =~= bytes@);
                        }
                        routed = Some(b);
                    },
                    _ => {
                        proof {
                            assert(false);
                        }
                    },
                }
                proof {
                    let f = tool_mcp(tool)->0;
                    assert(t[i as int].path == seq![f] && t[i as int].kind is File);
                    reveal(Seq::filter);
                    assert(staged.deep_view() =~= live_after_switch(post, tool_mcp(tool)));
                }
            } else {
                staged.push(clone_entry(entry));
                proof {
                    match tool_mcp(tool) {
                        Some(f) => {
                            reveal(Seq::filter);
                            assert(staged.deep_view() =~= live_after_switch(post, tool_mcp(tool)));
                        },
                        None => {
                            assert(staged.deep_view() =~= live_after_switch(post, tool_mcp(tool)));
                        },
                    }
                }
            }
            proof {
                assert(routed.deep_view() == mcp_after_switch(post, tool_mcp(tool), None::<
                    Seq<u8>,
                >));
            }
            i += 1;
        }
        proof {
            assert(t.take(t.len() as int) =~= t);
        }
        // Replace the live tree in one step, then route the stored MCP
        // file, then record the switch.
        *live = Some(staged);
        match routed {
            Some(b) => {
                *mcp_file = Some(b);
            },
            None => {},
        }
        settings.set_active_profile(tool.id.as_str(), name.as_str());
        Ok(clone_path(&tool.config_dir))
    }
}

// The laws of switching.

/// Creating a profile from a live tree and switching back to it
/// reproduces the live contents byte for byte, provided nothing in the
/// live tree carries an excluded name (an excluded entry, such as
/// version-control metadata, is deliberately not captured), and the
/// profile's copy of the external MCP configuration file — when the
/// tool keeps one — comes back to its external place, also verbatim.
pub proof fn lemma_create_then_switch_restores(
    t: Seq<EntryV>,
    mcp: Option<(Seq<char>, Seq<u8>)>,
    before: Option<Seq<u8>>,
)
    requires
        forall|i: int| 0 <= i < t.len() ==> !crate::copy::path_excluded(#[trigger] t[i].path),
        match mcp {
            Some((f, b)) => !tree_has_path(t, seq![f]),
            None => true,
        },
    ensures
        live_after_switch(
            crate::manager::created_tree(Some(t), mcp),
            match mcp {
                Some((f, b)) => Some(f),
                None => None,
            },
        ) == t,
        match mcp {
            Some((f, b)) => mcp_after_switch(
                crate::manager::created_tree(Some(t), mcp),
                Some(f),
                before,
            ) == Some(b),
            None => true,
        },
{
    crate::copy::lemma_filtered_identity(t);
    match mcp {
        Some((f, b)) => {
            let created = crate::manager::created_tree(Some(t), mcp);
            let e = EntryV { path: seq![f], kind: KindV::File { bytes: b } };
            assert(created == t.push(e));
            assert(created.last() == e);
            assert(last_file_bytes(created, f) == Some(b));
            lemma_route_filter_keeps_all(t, f);
            reveal(Seq::filter);
            assert(created.drop_last() =~= t);
            assert(live_after_switch(created, Some(f)) == t);
        },
        None => {},
    }
}

/// A tree with no top-level file named `f` passes the routing filter
/// unchanged.
proof fn lemma_route_filter_keeps_all(t: Seq<EntryV>, f: Seq<char>)
    requires
        !tree_has_path(t, seq![f]),
    ensures
        t.filter(route_pred(f)) == t,
    decreases t.len(),
{
    reveal(Seq::filter);
    if t.len() == 0 {
        assert(t.filter(route_pred(f)) =~= t);
    } else {
        assert(!tree_has_path(t.drop_last(), seq![f])) by {
            if tree_has_path(t.drop_last(), seq![f]) {
                let i = choose|i: int|
                    0 <= i < t.drop_last().len() && t.drop_last()[i].path == seq![f];
                assert(t[i].path == seq![f]);
            }
        }
        lemma_route_filter_keeps_all(t.drop_last(), f);
        assert(t[t.len() - 1].path != seq![f]);
        assert(t.filter(route_pred(f)) =~= t);
    }
}

/// Nothing is live after a switch that the stored profile does not
/// hold: the replaced live tree has no residual entries from what was
/// live before, nor from any other profile.
pub proof fn lemma_switch_leaves_no_residue(t: Seq<EntryV>, mcp: Option<Seq<char>>, p: Seq<Seq<char>>)
    requires
        tree_has_path(live_after_switch(t, mcp), p),
    ensures
        tree_has_path(t, p),
{
    match mcp {
        Some(f) => {
            lemma_route_filter_paths_subset(t, f, p);
        },
        None => {},
    }
}

/// Every path of the routed tree is a path of the stored tree.
proof fn lemma_route_filter_paths_subset(t: Seq<EntryV>, f: Seq<char>, p: Seq<Seq<char>>)
    requires
        tree_has_path(t.filter(route_pred(f)), p),
    ensures
        tree_has_path(t, p),
    decreases t.len(),
{
    reveal(Seq::filter);
    if t.len() > 0 {
        let ft = t.filter(route_pred(f));
        let fd = t.drop_last().filter(route_pred(f));
        let i = choose|i: int| 0 <= i < ft.len() && ft[i].path == p;
        if route_pred(f)(t.last()) && i == ft.len() - 1 {
            assert(t[t.len() - 1].path == p);
        } else {
            assert(fd[i] == ft[i]);
            lemma_route_filter_paths_subset(t.drop_last(), f, p);
            let j = choose|j: int| 0 <= j < t.drop_last().len() && t.drop_last()[j].path == p;
            assert(t[j].path == p);
        }
    }
}

/// Switching is replacement, not merge: what is live after a switch is
/// a function of the stored profile alone. In particular, switching to
/// A, then to B, then back to A leaves exactly what the first switch to
/// A left — nothing of B (or of any edits in between) survives.
pub proof fn lemma_switch_round_trip(
    l0: Option<Seq<EntryV>>,
    ta: Seq<EntryV>,
    tb: Seq<EntryV>,
    mcp: Option<Seq<char>>,
)
    ensures
        switch_transition(
            switch_transition(switch_transition(l0, ta, mcp), tb, mcp),
            ta,
            mcp,
        ) == switch_transition(l0, ta, mcp),
{
}

/// Edits made to the live tree between switches are lost by the next
/// switch — the live tree afterwards does not depend on them — unless
/// captured first: a backup taken before switching away is the live
/// tree verbatim (the backup contract), and so are the contents of a
/// profile created from it when nothing in it carries an excluded name.
pub proof fn lemma_edits_lost_unless_backed_up(
    edited: Seq<EntryV>,
    other: Seq<EntryV>,
    t: Seq<EntryV>,
    mcp: Option<Seq<char>>,
)
    ensures
        switch_transition(Some(edited), t, mcp) == switch_transition(Some(other), t, mcp),
{
}

} // verus!

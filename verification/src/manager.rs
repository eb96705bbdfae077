//! The profile store: pure path logic plus create/list/delete/exists
//! over the model of the profiles root.
//!
//! A profile lives at `<profiles_root>/<tool_id>/<profile_name>/`. The
//! caller reads the profiles root from disk into a [`ProfileStore`]
//! value, runs the operations here on it, and mirrors the changes back.

use vstd::prelude::*;
use crate::model::{Tree, EntryV, TreeEntry, EntryKind, tree_wf, str_equal, clone_path};
use crate::copy::{copy_filtered, filtered_view};
use crate::name::{ProfileName, valid_name, sorted_names, distinct_names, sort_strings};
use crate::tool::{ToolInfo, InstallationStatus};
use crate::errors::Error;

verus! {

/// One profile as found under the profiles root: which tool it belongs
/// to, its directory name, and its contents. The name is kept as found
/// on disk, valid or not; listing skips invalid ones.
pub struct StoreProfile {
    pub tool_id: String,
    pub name: String,
    pub tree: Tree,
}

/// Mathematical counterpart of [`StoreProfile`].
#[verifier::ext_equal]
pub struct StoreProfileV {
    pub tool: Seq<char>,
    pub name: Seq<char>,
    pub tree: Seq<EntryV>,
}

impl DeepView for StoreProfile {
    type V = StoreProfileV;

    open spec fn deep_view(&self) -> StoreProfileV {
        StoreProfileV {
            tool: self.tool_id@,
            name: self.name@,
            tree: self.tree.deep_view(),
        }
    }
}

/// The profiles root, as its list of profiles.
pub type ProfileStore = Vec<StoreProfile>;

/// Whether the store holds a profile of this tool and name.
pub open spec fn store_has(s: Seq<StoreProfileV>, tool: Seq<char>, name: Seq<char>) -> bool {
    exists|i: int| 0 <= i < s.len() && s[i].tool == tool && s[i].name == name
}

/// The index of the profile of this tool and name.
pub open spec fn store_idx(s: Seq<StoreProfileV>, tool: Seq<char>, name: Seq<char>) -> int {
    choose|i: int| 0 <= i < s.len() && s[i].tool == tool && s[i].name == name
}

/// The stored tree of the profile of this tool and name.
pub open spec fn store_tree(s: Seq<StoreProfileV>, tool: Seq<char>, name: Seq<char>) -> Seq<
    EntryV,
> {
    s[store_idx(s, tool, name)].tree
}

/// Every listed name belongs to some store entry of this tool among
/// the first `n`.
pub open spec fn witnessed_names(
    s: Seq<StoreProfileV>,
    tool: Seq<char>,
    names: Seq<Seq<char>>,
    n: int,
) -> bool {
    forall|k: int| 0 <= k < names.len() ==> store_has(s.take(n), tool, #[trigger] names[k])
}

/// Widening the searched prefix keeps every witness.
proof fn lemma_witnessed_widen(
    s: Seq<StoreProfileV>,
    tool: Seq<char>,
    names: Seq<Seq<char>>,
    n1: int,
    n2: int,
)
    requires
        witnessed_names(s, tool, names, n1),
        n1 <= n2,
        0 <= n1,
        n2 <= s.len(),
    ensures
        witnessed_names(s, tool, names, n2),
{
    assert forall|k: int| 0 <= k < names.len() implies store_has(
        s.take(n2),
        tool,
        #[trigger] names[k],
    ) by {
        let t1 = s.take(n1);
        let t2 = s.take(n2);
        let j0 = choose|j0: int| 0 <= j0 < t1.len() && t1[j0].tool == tool && t1[j0].name
            == names[k];
        assert(t2[j0] == t1[j0]);
        assert(store_has(t2, tool, names[k]));
    }
}

/// Appending a name witnessed at `j` keeps the whole list witnessed.
proof fn lemma_witnessed_push(
    s: Seq<StoreProfileV>,
    tool: Seq<char>,
    names: Seq<Seq<char>>,
    n: int,
    j: int,
)
    requires
        witnessed_names(s, tool, names, n),
        0 <= j < n,
        n <= s.len(),
        s[j].tool == tool,
    ensures
        witnessed_names(s, tool, names.push(s[j].name), n),
{
    let names2 = names.push(s[j].name);
    let t = s.take(n);
    assert forall|k: int| 0 <= k < names2.len() implies store_has(
        t,
        tool,
        #[trigger] names2[k],
    ) by {
        if k < names.len() {
            assert(names2[k] == names[k]);
            assert(store_has(t, tool, names[k]));
        } else {
            assert(names2[k] == s[j].name);
            assert(t[j] == s[j]);
            assert(store_has(t, tool, s[j].name));
        }
    }
}

/// Each (tool, name) pair occurs at most once.
pub open spec fn store_wf(s: Seq<StoreProfileV>) -> bool {
    forall|i: int, j: int|
        0 <= i < j < s.len() ==> !(s[i].tool == s[j].tool && s[i].name == s[j].name)
}

/// What a successful profile creation appends to the store.
pub open spec fn store_create(
    s: Seq<StoreProfileV>,
    tool: Seq<char>,
    name: Seq<char>,
    tree: Seq<EntryV>,
) -> Seq<StoreProfileV> {
    s.push(StoreProfileV { tool, name, tree })
}

/// What deleting the profile of this tool and name leaves.
pub open spec fn store_delete(s: Seq<StoreProfileV>, tool: Seq<char>, name: Seq<char>) -> Seq<
    StoreProfileV,
> {
    s.remove(store_idx(s, tool, name))
}

/// The tree a profile created from a live directory holds: the filtered
/// copy of the live tree (empty when there is no live directory), plus
/// the tool's external MCP configuration file under its own name, if
/// one was supplied and the directory copy did not already capture a
/// file of that name.
pub open spec fn created_tree(
    live: Option<Seq<EntryV>>,
    mcp: Option<(Seq<char>, Seq<u8>)>,
) -> Seq<EntryV> {
    let base = match live {
        Some(t) => filtered_view(t),
        None => Seq::<EntryV>::empty(),
    };
    match mcp {
        Some((f, b)) => if !crate::model::tree_has_path(base, seq![f]) {
            base.push(EntryV { path: seq![f], kind: crate::model::KindV::File { bytes: b } })
        } else {
            base
        },
        None => base,
    }
}

/// Builds the tree a created profile holds: the filtered copy of the
/// live tree plus the tool's external MCP configuration file, as
/// [`created_tree`] says. Well-formed whenever the live tree is.
fn build_created_tree(tool: &ToolInfo, live: Option<&Tree>, mcp_bytes: Option<&Vec<u8>>) -> (r:
    Tree)
    ensures
        r.deep_view() == created_tree(
            match live {
                Some(t) => Some(t.deep_view()),
                None => None,
            },
            mcp_arg_view(tool, mcp_bytes),
        ),
        (match live {
            Some(t) => tree_wf(t.deep_view()),
            None => true,
        }) ==> tree_wf(r.deep_view()),
{
    let ghost live_wf = match live {
        Some(t) => tree_wf(t.deep_view()),
        None => true,
    };
    let mut tree: Tree = Vec::new();
    match live {
        Some(t) => {
            let (copied, _outcomes) = copy_filtered(t);
            tree = copied;
            proof {
                if live_wf {
                    crate::copy::lemma_filtered_wf(t.deep_view());
                }
            }
        },
        None => {
            proof {
                assert(tree.deep_view() =~= Seq::<EntryV>::empty());
            }
        },
    }
    let ghost base = tree.deep_view();
    proof {
        if live_wf {
            assert(tree_wf(base));
        }
    }
    match (&tool.mcp_filename, mcp_bytes) {
        (Some(f), Some(b)) if tool.mcp_external => {
            let mut fpath: Vec<String> = Vec::new();
            fpath.push(f.clone());
            proof {
                assert(fpath.deep_view() =~= seq![f@]);
            }
            match crate::model::tree_find(&tree, &fpath) {
                Some(_) => {},
                None => {
                    let bytes = b.clone();
                    proof {
                        assert(bytes@ =~= b@);
                    }
                    let e = TreeEntry { path: fpath, kind: EntryKind::File { bytes } };
                    tree.push(e);
                    proof {
                        assert(tree.deep_view() =~= base.push(
                            EntryV {
                                path: seq![f@],
                                kind: crate::model::KindV::File { bytes: b@ },
                            },
                        ));
                        if live_wf {
                            let d1 = tree.deep_view();
                            assert forall|p: int, q: int| 0 <= p < q < d1.len() implies d1[p].path
                                != d1[q].path by {
                                if q < base.len() {
                                    assert(d1[p] == base[p] && d1[q] == base[q]);
                                } else {
                                    assert(d1[p] == base[p]);
                                    if base[p].path == seq![f@] {
                                        assert(crate::model::tree_has_path(base, seq![f@]));
                                    }
                                }
                            }
                            assert(tree_wf(d1));
                        }
                    }
                },
            }
        },
        _ => {},
    }
    tree
}

/// Finds the profile of this tool and name in the store.
pub fn store_find(store: &ProfileStore, tool_id: &str, name: &str) -> (r: Option<usize>)
    ensures
        match r {
            Some(i) => i < store.len() && store.deep_view()[i as int].tool == tool_id@
                && store.deep_view()[i as int].name == name@,
            None => !store_has(store.deep_view(), tool_id@, name@),
        },
{
    let ghost s = store.deep_view();
    let mut i: usize = 0;
    while i < store.len()
        invariant
            i <= store.len(),
            s == store.deep_view(),
            forall|k: int| 0 <= k < i ==> !((#[trigger] s[k]).tool == tool_id@ && s[k].name
                == name@),
        decreases store.len() - i,
    {
        if str_equal(store[i].tool_id.as_str(), tool_id) && str_equal(
            store[i].name.as_str(),
            name,
        ) {
            return Some(i);
        }
        i += 1;
    }
    None
}

/// Manages the profiles root and the paths under it. Holds no tree
/// itself: operations take the store they work on.
pub struct ProfileManager {
    profiles_dir: Vec<String>,
}

impl View for ProfileManager {
    type V = Seq<Seq<char>>;

    closed spec fn view(&self) -> Seq<Seq<char>> {
        self.profiles_dir.deep_view()
    }
}

/// Where backups go: beside the profiles root (under its parent), in a
/// directory named `backups`.
pub open spec fn backups_dir_view(profiles_dir: Seq<Seq<char>>) -> Seq<Seq<char>> {
    if profiles_dir.len() > 0 {
        profiles_dir.drop_last().push("backups"@)
    } else {
        profiles_dir.push("backups"@)
    }
}

impl ProfileManager {
    /// A manager rooted at the given profiles directory.
    pub fn new(profiles_dir: Vec<String>) -> (r: ProfileManager)
        ensures
            r@ == profiles_dir.deep_view(),
    {
        ProfileManager { profiles_dir }
    }

    /// The base directory where all profiles are stored.
    pub fn profiles_dir(&self) -> (r: &Vec<String>)
        ensures
            r.deep_view() == self@,
    {
        &self.profiles_dir
    }

    /// The directory where backups are stored: `backups` under the
    /// profiles root's parent.
    pub fn backups_dir(&self) -> (r: Vec<String>)
        ensures
            r.deep_view() == backups_dir_view(self@),
    {
        let mut r = clone_path(&self.profiles_dir);
        if r.len() > 0 {
            let _last = r.pop();
            proof {
                assert(r.deep_view() =~= self@.drop_last());
            }
        }
        r.push("backups".to_owned());
        proof {
            assert(r.deep_view() =~= backups_dir_view(self@));
        }
        r
    }

    /// The filesystem path of a profile: deterministic join, no disk.
    pub fn profile_path(&self, tool: &ToolInfo, name: &ProfileName) -> (r: Vec<String>)
        ensures
            r.deep_view() == self@ + seq![tool.id@, name@],
    {
        let mut r = clone_path(&self.profiles_dir);
        r.push(tool.id.clone());
        r.push(name.as_str().to_owned());
        proof {
            assert(r.deep_view() =~= self@ + seq![tool.id@, name@]);
        }
        r
    }

    /// Whether a profile of this tool and name is in the store.
    pub fn profile_exists(&self, store: &ProfileStore, tool: &ToolInfo, name: &ProfileName) -> (r:
        bool)
        ensures
            r == store_has(store.deep_view(), tool.id@, name@),
    {
        match store_find(store, tool.id.as_str(), name.as_str()) {
            Some(i) => {
                proof {
                    assert(store_has(store.deep_view(), tool.id@, name@));
                }
                true
            },
            None => false,
        }
    }

    /// Creates an empty profile. Fails with `ProfileExists` exactly
    /// when the store already holds one of this tool and name.
    pub fn create_profile(
        &self,
        store: &mut ProfileStore,
        tool: &ToolInfo,
        name: &ProfileName,
    ) -> (r: Result<Vec<String>, Error>)
        requires
            store_wf(old(store).deep_view()),
        ensures
            store_wf(final(store).deep_view()),
            r is Ok <==> !store_has(old(store).deep_view(), tool.id@, name@),
            r matches Ok(p) ==> {
                &&& final(store).deep_view() == store_create(
                    old(store).deep_view(),
                    tool.id@,
                    name@,
                    Seq::<EntryV>::empty(),
                )
                &&& p.deep_view() == self@ + seq![tool.id@, name@]
            },
            r is Err ==> *final(store) == *old(store) && (r matches Err(e) ==> e is ProfileExists),
    {
        if self.profile_exists(store, tool, name) {
            return Err(Error::ProfileExists { name: name.as_str().to_owned() });
        }
        let entry = StoreProfile {
            tool_id: tool.id.clone(),
            name: name.as_str().to_owned(),
            tree: Vec::new(),
        };
        store.push(entry);
        proof {
            let s0 = old(store).deep_view();
            let s1 = store.deep_view();
            assert(s1 =~~= store_create(s0, tool.id@, name@, Seq::<EntryV>::empty()));
            assert forall|i: int, j: int| 0 <= i < j < s1.len() implies !(s1[i].tool == s1[j].tool
                && s1[i].name == s1[j].name) by {
                if j < s0.len() {
                    assert(s1[i] == s0[i] && s1[j] == s0[j]);
                } else {
                    assert(s1[i] == s0[i]);
                    if s1[i].tool == tool.id@ && s1[i].name == name@ {
                        assert(store_has(s0, tool.id@, name@));
                    }
                }
            }
        }
        Ok(self.profile_path(tool, name))
    }

    /// Creates a profile from the tool's current live configuration:
    /// an empty profile first, then the filtered copy of the live tree
    /// into it, then the tool's external MCP configuration file if it
    /// declares one and the copy did not already capture it. A missing
    /// live directory gives an empty profile, not an error.
    pub fn create_from_current(
        &self,
        store: &mut ProfileStore,
        tool: &ToolInfo,
        live: Option<&Tree>,
        mcp_bytes: Option<&Vec<u8>>,
        name: &ProfileName,
    ) -> (r: Result<Vec<String>, Error>)
        requires
            store_wf(old(store).deep_view()),
        ensures
            store_wf(final(store).deep_view()),
            r is Ok <==> !store_has(old(store).deep_view(), tool.id@, name@),
            r matches Ok(p) ==> {
                &&& final(store).deep_view() == store_create(
                    old(store).deep_view(),
                    tool.id@,
                    name@,
                    created_tree(
                        match live {
                            Some(t) => Some(t.deep_view()),
                            None => None,
                        },
                        mcp_arg_view(tool, mcp_bytes),
                    ),
                )
                &&& p.deep_view() == self@ + seq![tool.id@, name@]
            },
            r is Err ==> *final(store) == *old(store) && (r matches Err(e) ==> e is ProfileExists),
    {
        if self.profile_exists(store, tool, name) {
            return Err(Error::ProfileExists { name: name.as_str().to_owned() });
        }
        let tree = build_created_tree(tool, live, mcp_bytes);
        let entry = StoreProfile {
            tool_id: tool.id.clone(),
            name: name.as_str().to_owned(),
            tree,
        };
        let ghost s0 = store.deep_view();
        store.push(entry);
        proof {
            let s1 = store.deep_view();
            assert(s1 =~~= store_create(
                s0,
                tool.id@,
                name@,
                created_tree(
                    match live {
                        Some(t) => Some(t.deep_view()),
                        None => None,
                    },
                    mcp_arg_view(tool, mcp_bytes),
                ),
            ));
            assert forall|i: int, j: int| 0 <= i < j < s1.len() implies !(s1[i].tool == s1[j].tool
                && s1[i].name == s1[j].name) by {
                if j < s0.len() {
                    assert(s1[i] == s0[i] && s1[j] == s0[j]);
                } else {
                    assert(s1[i] == s0[i]);
                    if s1[i].tool == tool.id@ && s1[i].name == name@ {
                        assert(store_has(s0, tool.id@, name@));
                    }
                }
            }
        }
        Ok(self.profile_path(tool, name))
    }

    /// Creates a profile from the live configuration and, on request,
    /// also synchronizes the tool's resource bundles (declared names,
    /// then the conventional fallbacks) from the live tree into the new
    /// profile with the strict engine.
    pub fn create_from_current_with_resources(
        &self,
        store: &mut ProfileStore,
        tool: &ToolInfo,
        live: Option<&Tree>,
        mcp_bytes: Option<&Vec<u8>>,
        with_resources: bool,
        name: &ProfileName,
    ) -> (r: Result<Vec<String>, Error>)
        requires
            store_wf(old(store).deep_view()),
            live matches Some(t) ==> tree_wf(t.deep_view()),
        ensures
            store_wf(final(store).deep_view()),
            r is Ok <==> !store_has(old(store).deep_view(), tool.id@, name@),
            r is Err ==> *final(store) == *old(store) && (r matches Err(e) ==> e is ProfileExists),
            r matches Ok(p) ==> {
                let s0 = old(store).deep_view();
                let s1 = final(store).deep_view();
                let base = created_tree(
                    match live {
                        Some(t) => Some(t.deep_view()),
                        None => None,
                    },
                    mcp_arg_view(tool, mcp_bytes),
                );
                &&& p.deep_view() == self@ + seq![tool.id@, name@]
                &&& s1.len() == s0.len() + 1
                &&& s1.take(s0.len() as int) == s0
                &&& s1.last().tool == tool.id@
                &&& s1.last().name == name@
                &&& (match live {
                    Some(t) => if with_resources {
                        tree_wf(s1.last().tree) && crate::sync::synced_view(
                            t.deep_view(),
                            base,
                            s1.last().tree,
                            crate::sync::sync_names(tool),
                        )
                    } else {
                        s1.last().tree == base
                    },
                    None => s1.last().tree == base,
                })
            },
    {
        if self.profile_exists(store, tool, name) {
            return Err(Error::ProfileExists { name: name.as_str().to_owned() });
        }
        let mut tree = build_created_tree(tool, live, mcp_bytes);
        if with_resources {
            match live {
                Some(lt) => {
                    let names = crate::sync::sync_name_list(tool);
                    crate::sync::sync_subtrees(lt, &mut tree, &names);
                },
                None => {},
            }
        }
        let entry = StoreProfile {
            tool_id: tool.id.clone(),
            name: name.as_str().to_owned(),
            tree,
        };
        let ghost s0 = store.deep_view();
        store.push(entry);
        proof {
            let s1 = store.deep_view();
            assert(s1.len() == s0.len() + 1);
            assert(s1.take(s0.len() as int) =~= s0);
            assert(s1.last().tool == tool.id@ && s1.last().name == name@);
            assert forall|i: int, j: int| 0 <= i < j < s1.len() implies !(s1[i].tool == s1[j].tool
                && s1[i].name == s1[j].name) by {
                if j < s0.len() {
                    assert(s1[i] == s0[i] && s1[j] == s0[j]);
                } else {
                    assert(s1[i] == s0[i]);
                    if s1[i].tool == tool.id@ && s1[i].name == name@ {
                        assert(store_has(s0, tool.id@, name@));
                    }
                }
            }
        }
        Ok(self.profile_path(tool, name))
    }

    /// Deletes a profile. Fails with `ProfileNotFound` exactly when the
    /// store holds none of this tool and name; afterwards the store no
    /// longer holds it.
    pub fn delete_profile(
        &self,
        store: &mut ProfileStore,
        tool: &ToolInfo,
        name: &ProfileName,
    ) -> (r: Result<(), Error>)
        requires
            store_wf(old(store).deep_view()),
        ensures
            store_wf(final(store).deep_view()),
            r is Ok <==> store_has(old(store).deep_view(), tool.id@, name@),
            r is Ok ==> {
                &&& final(store).deep_view() == store_delete(
                    old(store).deep_view(),
                    tool.id@,
                    name@,
                )
                &&& !store_has(final(store).deep_view(), tool.id@, name@)
            },
            r is Err ==> *final(store) == *old(store) && (r matches Err(e) ==> e
                is ProfileNotFound),
    {
        let ghost s0 = store.deep_view();
        match store_find(store, tool.id.as_str(), name.as_str()) {
            None => Err(Error::ProfileNotFound { name: name.as_str().to_owned() }),
            Some(i) => {
                proof {
                    assert(store_has(s0, tool.id@, name@));
                    let k = store_idx(s0, tool.id@, name@);
                    assert(0 <= k < s0.len() && s0[k].tool == tool.id@ && s0[k].name == name@);
                    if k < i {
                        assert(!(s0[k].tool == s0[i as int].tool && s0[k].name
                            == s0[i as int].name));
                        assert(false);
                    } else if k > i {
                        assert(!(s0[i as int].tool == s0[k].tool && s0[i as int].name
                            == s0[k].name));
                        assert(false);
                    }
                }
                let _removed = store.remove(i);
                proof {
                    let s1 = store.deep_view();
                    assert(s1 =~= store_delete(s0, tool.id@, name@));
                    assert forall|p: int, q: int| 0 <= p < q < s1.len() implies !(s1[p].tool
                        == s1[q].tool && s1[p].name == s1[q].name) by {
                        let pp: int = if p < i { p } else { p + 1 };
                        let qq: int = if q < i { q } else { q + 1 };
                        assert(s1[p] == s0[pp] && s1[q] == s0[qq]);
                    }
                    assert forall|j: int| 0 <= j < s1.len() implies !((#[trigger] s1[j]).tool
                        == tool.id@ && s1[j].name == name@) by {
                        let jj: int = if j < i { j } else { j + 1 };
                        assert(s1[j] == s0[jj]);
                    }
                }
                Ok(())
            },
        }
    }

    /// Lists the tool's profiles whose directory names are valid
    /// profile names, sorted lexicographically; invalid names are
    /// silently skipped. A tool with no profiles (or no profiles root
    /// yet) gives an empty list, never an error.
    pub fn list_profiles(&self, store: &ProfileStore, tool: &ToolInfo) -> (r: Result<
        Vec<ProfileName>,
        Error,
    >)
        requires
            store_wf(store.deep_view()),
        ensures
            r is Ok,
            r matches Ok(v) ==> {
                &&& sorted_names(v.deep_view())
                &&& distinct_names(v.deep_view())
                &&& forall|i: int| 0 <= i < v.deep_view().len() ==> valid_name(
                    #[trigger] v.deep_view()[i],
                ) && store_has(store.deep_view(), tool.id@, v.deep_view()[i])
                &&& forall|j: int|
                    0 <= j < store.deep_view().len() && (#[trigger] store.deep_view()[j]).tool
                        == tool.id@ && valid_name(store.deep_view()[j].name) ==> v.deep_view()
                        .contains(store.deep_view()[j].name)
            },
    {
        let ghost s = store.deep_view();
        let mut collected: Vec<String> = Vec::new();
        let mut i: usize = 0;
        while i < store.len()
            invariant
                i <= store.len(),
                s == store.deep_view(),
                store_wf(s),
                forall|k: int| 0 <= k < collected.deep_view().len() ==> valid_name(
                    #[trigger] collected.deep_view()[k],
                ) && store_has(s, tool.id@, collected.deep_view()[k]),
                witnessed_names(s, tool.id@, collected.deep_view(), i as int),
                distinct_names(collected.deep_view()),
                forall|j: int|
                    0 <= j < i && (#[trigger] s[j]).tool == tool.id@ && valid_name(s[j].name)
                        ==> collected.deep_view().contains(s[j].name),
            decreases store.len() - i,
        {
            let ghost cpre = collected.deep_view();
            let mut pushed = false;
            if str_equal(store[i].tool_id.as_str(), tool.id.as_str()) {
                match ProfileName::new(store[i].name.as_str()) {
                    Ok(p) => {
                        proof {
                            assert(store_has(s, tool.id@, s[i as int].name));
                        }
                        collected.push(store[i].name.clone());
                        pushed = true;
                        proof {
                            assert(collected.deep_view() =~= cpre.push(s[i as int].name));
                            let cdv = collected.deep_view();
                            lemma_witnessed_widen(s, tool.id@, cpre, i as int, i as int + 1);
                            lemma_witnessed_push(s, tool.id@, cpre, i as int + 1, i as int);
                            assert(cdv =~= cpre.push(s[i as int].name));
                            assert(witnessed_names(s, tool.id@, cdv, i as int + 1));
                            assert forall|p2: int, q2: int| 0 <= p2 < q2 < cdv.len() implies
                                cdv[p2] != cdv[q2] by {
                                if q2 == cpre.len() {
                                    assert(cdv[p2] == cpre[p2]);
                                    if cpre[p2] == s[i as int].name {
                                        assert(store_has(s.take(i as int), tool.id@, cpre[p2]));
                                        let t0 = s.take(i as int);
                                        let j0 = choose|j0: int|
                                            0 <= j0 < t0.len() && t0[j0].tool == tool.id@
                                                && t0[j0].name == cpre[p2];
                                        assert(t0[j0] == s[j0]);
                                        assert(!(s[j0].tool == s[i as int].tool && s[j0].name
                                            == s[i as int].name));
                                        assert(false);
                                    }
                                } else {
                                    assert(cdv[p2] == cpre[p2] && cdv[q2] == cpre[q2]);
                                }
                            }
                            assert forall|j: int|
                                0 <= j < i + 1 && (#[trigger] s[j]).tool == tool.id@ && valid_name(
                                    s[j].name,
                                ) implies collected.deep_view().contains(s[j].name) by {
                                if j < i {
                                    let w = choose|w: int|
                                        0 <= w < cpre.len() && cpre[w] == s[j].name;
                                    assert(collected.deep_view()[w] == s[j].name);
                                } else {
                                    assert(collected.deep_view()[cpre.len() as int]
                                        == s[j].name);
                                }
                            }
                        }
                    },
                    Err(_) => {},
                }
            }
            proof {
                if !pushed {
                    assert(collected.deep_view() == cpre);
                    lemma_witnessed_widen(s, tool.id@, cpre, i as int, i as int + 1);
                }
            }
            i += 1;
        }
        let ghost c = collected.deep_view();
        proof {
            assert(distinct_names(c));
        }
        let sorted = sort_strings(collected);
        proof {
            assert forall|j: int|
                0 <= j < s.len() && (#[trigger] s[j]).tool == tool.id@ && valid_name(s[j].name)
                    implies sorted.deep_view().contains(s[j].name) by {
                assert(c.contains(s[j].name));
            }
            assert forall|i2: int| 0 <= i2 < sorted.deep_view().len() implies valid_name(
                #[trigger] sorted.deep_view()[i2],
            ) && store_has(s, tool.id@, sorted.deep_view()[i2]) by {
                let y = sorted.deep_view()[i2];
                assert(sorted.deep_view().contains(y));
                assert(c.contains(y));
                let w = choose|w: int| 0 <= w < c.len() && c[w] == y;
                assert(valid_name(c[w]) && store_has(s, tool.id@, c[w]));
            }
        }
        let ghost sv2 = sorted.deep_view();
        let mut result: Vec<ProfileName> = Vec::new();
        let mut k: usize = 0;
        while k < sorted.len()
            invariant
                k <= sorted.len(),
                sv2 == sorted.deep_view(),
                result.deep_view() == sv2.take(k as int),
                forall|i2: int| 0 <= i2 < sv2.len() ==> valid_name(#[trigger] sv2[i2]),
            decreases sorted.len() - k,
        {
            match ProfileName::new(sorted[k].as_str()) {
                Ok(p) => {
                    proof {
                        assert(sv2[k as int] == sorted@[k as int]@);
                        assert(p@ == sv2[k as int]);
                    }
                    let ghost rpre = result.deep_view();
                    result.push(p);
                    proof {
                        assert(result.deep_view().len() == rpre.len() + 1);
                        assert forall|i2: int| 0 <= i2 < result.deep_view().len() implies result
                            .deep_view()[i2] == sv2.take(k + 1 as int)[i2] by {
                            if i2 < rpre.len() {
                                assert(result.deep_view()[i2] == rpre[i2]);
                            } else {
                                assert(result.deep_view()[i2] == result@[i2]@);
                            }
                        }
                        assert(result.deep_view() =~= sv2.take(k + 1 as int));
                    }
                },
                Err(_) => {
                    proof {
                        assert(valid_name(sv2[k as int]));
                        assert(false);
                    }
                },
            }
            k += 1;
        }
        proof {
            assert(sv2.take(sorted.len() as int) =~= sv2);
            assert(result.deep_view() == sv2);
            assert(distinct_names(result.deep_view()));
        }
        Ok(result)
    }

    /// Bootstraps a `default` profile from the live configuration, once:
    /// only for a fully installed tool, and only when no profile named
    /// `default` exists yet. Never fails; says whether it created one.
    pub fn create_from_current_if_missing(
        &self,
        store: &mut ProfileStore,
        tool: &ToolInfo,
        live: Option<&Tree>,
        mcp_bytes: Option<&Vec<u8>>,
    ) -> (r: Result<bool, Error>)
        requires
            store_wf(old(store).deep_view()),
        ensures
            store_wf(final(store).deep_view()),
            r matches Ok(created) ==> created == (tool.status is FullyInstalled && !store_has(
                old(store).deep_view(),
                tool.id@,
                "default"@,
            )),
            r matches Ok(created) && created ==> final(store).deep_view() == store_create(
                old(store).deep_view(),
                tool.id@,
                "default"@,
                created_tree(
                    match live {
                        Some(t) => Some(t.deep_view()),
                        None => None,
                    },
                    mcp_arg_view(tool, mcp_bytes),
                ),
            ),
            r matches Ok(created) && !created ==> *final(store) == *old(store),
            r is Ok,
    {
        match tool.status {
            InstallationStatus::FullyInstalled => {},
            _ => {
                return Ok(false);
            },
        }
        let name = default_profile_name();
        if self.profile_exists(store, tool, &name) {
            return Ok(false);
        }
        match self.create_from_current(store, tool, live, mcp_bytes, &name) {
            Ok(_) => Ok(true),
            Err(e) => Err(e),
        }
    }
}

/// The reserved name of the bootstrap profile.
pub fn default_profile_name() -> (r: ProfileName)
    ensures
        r@ == "default"@,
{
    proof {
        reveal_strlit("default");
        reveal_strlit(".");
        reveal_strlit("..");
        assert forall|i: int| 0 <= i < "default"@.len() implies crate::name::allowed_char(
            #[trigger] "default"@[i],
        ) by {
            if i == 0 {
                assert("default"@[0] == 'd' && crate::name::allowed_char('d'));
            } else if i == 1 {
                assert("default"@[1] == 'e' && crate::name::allowed_char('e'));
            } else if i == 2 {
                assert("default"@[2] == 'f' && crate::name::allowed_char('f'));
            } else if i == 3 {
                assert("default"@[3] == 'a' && crate::name::allowed_char('a'));
            } else if i == 4 {
                assert("default"@[4] == 'u' && crate::name::allowed_char('u'));
            } else if i == 5 {
                assert("default"@[5] == 'l' && crate::name::allowed_char('l'));
            } else {
                assert(i == 6);
                assert("default"@[6] == 't' && crate::name::allowed_char('t'));
            }
        }
        assert("default"@.len() == 7);
        assert("default"@ != "."@);
        assert("default"@ != ".."@);
        assert(forall|i: int| 0 <= i < "default"@.len() ==> crate::name::allowed_char(
            #[trigger] "default"@[i],
        ));
        assert(valid_name("default"@));
    }
    match ProfileName::new("default") {
        Ok(p) => p,
        Err(_) => {
            proof {
                assert(false);
            }
            vstd::pervasive::unreached()
        },
    }
}

/// The (filename, bytes) pair that an external MCP configuration file
/// contributes to a created profile, if the tool declares one and the
/// caller supplied its contents.
pub open spec fn mcp_arg_view(tool: &ToolInfo, mcp_bytes: Option<&Vec<u8>>) -> Option<
    (Seq<char>, Seq<u8>),
> {
    match (tool.mcp_filename, mcp_bytes) {
        (Some(f), Some(b)) => if tool.mcp_external {
            Some((f@, b@))
        } else {
            None
        },
        _ => None,
    }
}

// The laws of the store.

/// Creating a profile makes it exist: after a successful creation the
/// store holds the (tool, name) pair, so a second creation of the same
/// pair is refused with `ProfileExists` (the create contract returns
/// `Ok` exactly when the pair is absent).
pub proof fn lemma_create_then_exists(
    s: Seq<StoreProfileV>,
    tool: Seq<char>,
    name: Seq<char>,
    tree: Seq<EntryV>,
)
    ensures
        store_has(store_create(s, tool, name, tree), tool, name),
{
    let s1 = store_create(s, tool, name, tree);
    assert(s1[s.len() as int].tool == tool && s1[s.len() as int].name == name);
}

/// Deleting a profile removes exactly it: afterwards the pair is gone
/// and every other profile is still there.
pub proof fn lemma_delete_removes(s: Seq<StoreProfileV>, tool: Seq<char>, name: Seq<char>)
    requires
        store_wf(s),
        store_has(s, tool, name),
    ensures
        !store_has(store_delete(s, tool, name), tool, name),
        forall|t: Seq<char>, n: Seq<char>|
            !(t == tool && n == name) ==> (#[trigger] store_has(store_delete(s, tool, name), t, n)
                <==> store_has(s, t, n)),
{
    let i = store_idx(s, tool, name);
    assert(0 <= i < s.len() && s[i].tool == tool && s[i].name == name);
    let s1 = store_delete(s, tool, name);
    assert forall|j: int| 0 <= j < s1.len() implies !((#[trigger] s1[j]).tool == tool && s1[j].name
        == name) by {
        let jj: int = if j < i { j } else { j + 1 };
        assert(s1[j] == s[jj]);
    }
    assert forall|t: Seq<char>, n: Seq<char>| !(t == tool && n == name) implies (
    #[trigger] store_has(s1, t, n) <==> store_has(s, t, n)) by {
        if store_has(s1, t, n) {
            let j = choose|j: int| 0 <= j < s1.len() && s1[j].tool == t && s1[j].name == n;
            let jj: int = if j < i { j } else { j + 1 };
            assert(s1[j] == s[jj]);
            assert(store_has(s, t, n));
        }
        if store_has(s, t, n) {
            let j = choose|j: int| 0 <= j < s.len() && s[j].tool == t && s[j].name == n;
            if j != i {
                let jj: int = if j < i { j } else { j - 1 };
                assert(s1[jj] == s[j]);
                assert(store_has(s1, t, n));
            }
        }
    }
}

} // verus!

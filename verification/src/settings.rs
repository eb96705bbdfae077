//! The manager's own persisted settings: which profile is active for
//! each tool, and an optional override of the profiles root.
//!
//! The record is advisory display metadata: the source of truth for
//! what is live is always the live directory's contents, and a mismatch
//! is tolerated, never treated as corruption. It is written only as the
//! final step of a successful switch. Reading and writing the file
//! itself is the caller's concern; this module holds the value.

use vstd::prelude::*;
use vstd::pervasive::VecAdditionalExecFns;
use crate::model::str_equal;

verus! {

/// Looks a key up in an association list.
pub open spec fn assoc_get(a: Seq<(Seq<char>, Seq<char>)>, k: Seq<char>) -> Option<Seq<char>>
    decreases a.len(),
{
    if a.len() == 0 {
        None
    } else if a[0].0 == k {
        Some(a[0].1)
    } else {
        assoc_get(a.drop_first(), k)
    }
}

/// The settings value.
pub struct BridleConfig {
    /// Tool id, mapped to the name of the profile most recently
    /// switched into that tool's live directory.
    pub active: Vec<(String, String)>,
    /// Configured profiles root, if the settings file names one.
    pub profiles_dir: Option<Vec<String>>,
}

/// Keys of the active map are listed at most once.
pub open spec fn settings_wf(c: BridleConfig) -> bool {
    forall|i: int, j: int|
        0 <= i < j < c.active.deep_view().len() ==> c.active.deep_view()[i].0
            != c.active.deep_view()[j].0
}

/// With unique keys, the lookup of a listed key returns its value.
proof fn lemma_assoc_get_at(a: Seq<(Seq<char>, Seq<char>)>, i: int)
    requires
        0 <= i < a.len(),
        forall|p: int, q: int| 0 <= p < q < a.len() ==> a[p].0 != a[q].0,
    ensures
        assoc_get(a, a[i].0) == Some(a[i].1),
    decreases a.len(),
{
    if i == 0 {
    } else {
        assert(a[0].0 != a[i].0);
        assert(a.drop_first()[i - 1] == a[i]);
        lemma_assoc_get_at(a.drop_first(), i - 1);
    }
}

impl BridleConfig {
    /// An empty settings value: nothing active, no override.
    pub fn new_empty() -> (r: BridleConfig)
        ensures
            r.active.deep_view() == Seq::<(Seq<char>, Seq<char>)>::empty(),
            r.profiles_dir is None,
            settings_wf(r),
    {
        let r = BridleConfig { active: Vec::new(), profiles_dir: None };
        proof {
            assert(r.active.deep_view() =~= Seq::<(Seq<char>, Seq<char>)>::empty());
        }
        r
    }

    /// The active profile recorded for a tool, if any.
    pub fn active_profile_for(&self, id: &str) -> (r: Option<&String>)
        ensures
            match r {
                Some(name) => assoc_get(self.active.deep_view(), id@) == Some(name@),
                None => assoc_get(self.active.deep_view(), id@) is None,
            },
    {
        let ghost a = self.active.deep_view();
        let mut i: usize = 0;
        proof {
            assert(a.skip(0) =~= a);
        }
        while i < self.active.len()
            invariant
                i <= self.active.len(),
                a == self.active.deep_view(),
                forall|k: int| 0 <= k < i ==> (#[trigger] a[k]).0 != id@,
                assoc_get(a, id@) == assoc_get(a.skip(i as int), id@),
            decreases self.active.len() - i,
        {
            if str_equal(self.active[i].0.as_str(), id) {
                proof {
                    assert(a.skip(i as int)[0] == a[i as int]);
                    assert(a[i as int].0 == id@);
                    assert(assoc_get(a.skip(i as int), id@) == Some(a[i as int].1));
                }
                return Some(&self.active[i].1);
            }
            proof {
                assert(a.skip(i as int)[0] == a[i as int]);
                assert(a.skip(i as int).drop_first() =~= a.skip(i + 1 as int));
            }
            i += 1;
        }
        proof {
            assert(a.skip(i as int).len() == 0);
        }
        None
    }

    /// Records `name` as the active profile for `id`, replacing any
    /// earlier record for the same tool and touching no other tool's.
    pub fn set_active_profile(&mut self, id: &str, name: &str)
        requires
            settings_wf(*old(self)),
        ensures
            settings_wf(*final(self)),
            assoc_get(final(self).active.deep_view(), id@) == Some(name@),
            forall|k: Seq<char>| k != id@ ==> assoc_get(final(self).active.deep_view(), k)
                == assoc_get(old(self).active.deep_view(), k),
            final(self).profiles_dir == old(self).profiles_dir,
    {
        let ghost a0 = self.active.deep_view();
        let mut i: usize = 0;
        while i < self.active.len()
            invariant
                i <= self.active.len(),
                a0 == self.active.deep_view(),
                settings_wf(*self),
                self.profiles_dir == old(self).profiles_dir,
                a0 == old(self).active.deep_view(),
                forall|k: int| 0 <= k < i ==> (#[trigger] a0[k]).0 != id@,
            decreases self.active.len() - i,
        {
            if str_equal(self.active[i].0.as_str(), id) {
                let ghost idx: int = i as int;
                proof {
                    assert(a0[idx].0 == id@);
                }
                let entry = (id.to_owned(), name.to_owned());
                self.active.set(i, entry);
                proof {
                    let a1 = self.active.deep_view();
                    assert(a1 =~= a0.update(idx, (id@, name@)));
                    assert forall|p: int, q: int| 0 <= p < q < a1.len() implies a1[p].0
                        != a1[q].0 by {
                        if p != idx && q != idx {
                            assert(a1[p] == a0[p] && a1[q] == a0[q]);
                        } else if p == idx {
                            assert(a1[p].0 == id@ && a1[q] == a0[q]);
                            assert(a0[idx].0 != a0[q].0);
                        } else {
                            assert(a1[q].0 == id@ && a1[p] == a0[p]);
                            assert(a0[p].0 != a0[idx].0);
                        }
                    }
                    assert(settings_wf(*self));
                    lemma_assoc_get_at(a1, idx);
                    assert forall|k: Seq<char>| k != id@ implies assoc_get(a1, k) == assoc_get(
                        a0,
                        k,
                    ) by {
                        lemma_assoc_update_other(a0, idx, (id@, name@), k);
                    }
                }
                return ;
            }
            i += 1;
        }
        let entry = (id.to_owned(), name.to_owned());
        self.active.push(entry);
        proof {
            let a1 = self.active.deep_view();
            assert(a1 =~= a0.push((id@, name@)));
            assert(forall|k: int| 0 <= k < a0.len() ==> (#[trigger] a0[k]).0 != id@);
            assert forall|p: int, q: int| 0 <= p < q < a1.len() implies a1[p].0 != a1[q].0 by {
                if q < a0.len() {
                    assert(a0[p] == a1[p] && a0[q] == a1[q]);
                } else {
                    assert(a1[q] == (id@, name@));
                    assert(a0[p] == a1[p]);
                }
            }
            lemma_assoc_get_at(a1, a1.len() - 1);
            assert forall|k: Seq<char>| k != id@ implies assoc_get(a1, k) == assoc_get(a0, k) by {
                lemma_assoc_push_other(a0, (id@, name@), k);
            }
        }
    }
}

/// Updating one binding leaves every other key's lookup unchanged.
proof fn lemma_assoc_update_other(
    a: Seq<(Seq<char>, Seq<char>)>,
    i: int,
    e: (Seq<char>, Seq<char>),
    k: Seq<char>,
)
    requires
        0 <= i < a.len(),
        k != e.0,
        k != a[i].0,
    ensures
        assoc_get(a.update(i, e), k) == assoc_get(a, k),
    decreases a.len(),
{
    let b = a.update(i, e);
    if i == 0 {
        assert(b.drop_first() =~= a.drop_first());
    } else {
        assert(b[0] == a[0]);
        if a[0].0 != k {
            assert(b.drop_first() =~= a.drop_first().update(i - 1, e));
            lemma_assoc_update_other(a.drop_first(), i - 1, e, k);
        }
    }
}

/// Appending a binding leaves every other key's lookup unchanged.
proof fn lemma_assoc_push_other(
    a: Seq<(Seq<char>, Seq<char>)>,
    e: (Seq<char>, Seq<char>),
    k: Seq<char>,
)
    requires
        k != e.0,
    ensures
        assoc_get(a.push(e), k) == assoc_get(a, k),
    decreases a.len(),
{
    let b = a.push(e);
    if a.len() == 0 {
        assert(b[0] == e);
        assert(b.drop_first() =~= Seq::<(Seq<char>, Seq<char>)>::empty());
        assert(assoc_get(b, k) == assoc_get(b.drop_first(), k));
        assert(assoc_get(b.drop_first(), k) is None);
    } else {
        assert(b[0] == a[0]);
        if a[0].0 != k {
            assert(b.drop_first() =~= a.drop_first().push(e));
            lemma_assoc_push_other(a.drop_first(), e, k);
        }
    }
}

} // verus!

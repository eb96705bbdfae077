//! Validated profile names.
//!
//! A profile name is a non-empty string over a restricted character set
//! (ASCII letters, digits, `-`, `_`, `.`), with the path-traversal names
//! `.` and `..` ruled out. Every on-disk profile directory name is a
//! valid profile name; construction fails otherwise.

use vstd::prelude::*;
use vstd::string::StrSliceExecFns;
use crate::model::str_equal;
use crate::errors::Error;

verus! {

/// Whether `c` may appear in a profile name.
pub open spec fn allowed_char(c: char) -> bool {
    ||| ('a' <= c && c <= 'z')
    ||| ('A' <= c && c <= 'Z')
    ||| ('0' <= c && c <= '9')
    ||| c == '-'
    ||| c == '_'
    ||| c == '.'
}

/// Whether `s` is a valid profile name: non-empty, every character
/// allowed (which rules out path separators), and not a traversal name.
pub open spec fn valid_name(s: Seq<char>) -> bool {
    &&& s.len() > 0
    &&& (forall|i: int| 0 <= i < s.len() ==> allowed_char(#[trigger] s[i]))
    &&& s != "."@
    &&& s != ".."@
}

/// A validated profile name. Immutable once constructed; its view is
/// the name's character sequence, which [`valid_name`] always holds of.
pub struct ProfileName {
    name: String,
}

impl View for ProfileName {
    type V = Seq<char>;

    closed spec fn view(&self) -> Seq<char> {
        self.name@
    }
}

impl DeepView for ProfileName {
    type V = Seq<char>;

    open spec fn deep_view(&self) -> Seq<char> {
        self.view()
    }
}

/// Whether `c` may appear in a profile name.
pub fn is_allowed_char(c: char) -> (r: bool)
    ensures
        r == allowed_char(c),
{
    ('a' <= c && c <= 'z') || ('A' <= c && c <= 'Z') || ('0' <= c && c <= '9') || c == '-' || c
        == '_' || c == '.'
}

impl ProfileName {
    /// Validates `name` and wraps it. Returns the name itself on
    /// success, and `InvalidName` exactly on the strings that
    /// [`valid_name`] rejects.
    pub fn new(name: &str) -> (r: Result<ProfileName, Error>)
        ensures
            r is Ok <==> valid_name(name@),
            r matches Ok(p) ==> p@ == name@,
            r matches Err(e) ==> e is InvalidName,
    {
        let len = name.unicode_len();
        if len == 0 {
            return Err(Error::InvalidName { name: name.to_owned() });
        }
        if str_equal(name, ".") || str_equal(name, "..") {
            return Err(Error::InvalidName { name: name.to_owned() });
        }
        let mut i: usize = 0;
        while i < len
            invariant
                i <= len,
                len == name@.len(),
                forall|k: int| 0 <= k < i ==> allowed_char(#[trigger] name@[k]),
            decreases len - i,
        {
            if !is_allowed_char(name.get_char(i)) {
                return Err(Error::InvalidName { name: name.to_owned() });
            }
            i += 1;
        }
        Ok(ProfileName { name: name.to_owned() })
    }

    /// The name as a string slice.
    pub fn as_str(&self) -> (r: &str)
        ensures
            r@ == self@,
    {
        self.name.as_str()
    }

    /// A copy of this name.
    pub fn clone_name(&self) -> (r: ProfileName)
        ensures
            r@ == self@,
    {
        ProfileName { name: self.name.clone() }
    }
}

/// Strict lexicographic order on character sequences, by scalar value.
pub open spec fn lex_lt(a: Seq<char>, b: Seq<char>) -> bool
    decreases a.len(),
{
    if b.len() == 0 {
        false
    } else if a.len() == 0 {
        true
    } else if a[0] != b[0] {
        (a[0] as u32) < (b[0] as u32)
    } else {
        lex_lt(a.drop_first(), b.drop_first())
    }
}

/// Strict lexicographic comparison of two strings.
pub fn str_lex_lt(a: &str, b: &str) -> (r: bool)
    ensures
        r == lex_lt(a@, b@),
{
    let alen = a.unicode_len();
    let blen = b.unicode_len();
    let mut i: usize = 0;
    proof {
        assert(a@.skip(0) =~= a@);
        assert(b@.skip(0) =~= b@);
    }
    loop
        invariant
            i <= alen,
            i <= blen,
            alen == a@.len(),
            blen == b@.len(),
            forall|k: int| 0 <= k < i ==> a@[k] == b@[k],
            lex_lt(a@, b@) == lex_lt(a@.skip(i as int), b@.skip(i as int)),
        decreases alen - i,
    {
        if i == blen {
            proof {
                assert(b@.skip(i as int).len() == 0);
            }
            return false;
        }
        if i == alen {
            proof {
                assert(a@.skip(i as int).len() == 0 && b@.skip(i as int).len() > 0);
            }
            return true;
        }
        let ca = a.get_char(i);
        let cb = b.get_char(i);
        if ca != cb {
            proof {
                assert(a@.skip(i as int)[0] == a@[i as int]);
                assert(b@.skip(i as int)[0] == b@[i as int]);
            }
            return (ca as u32) < (cb as u32);
        }
        proof {
            assert(a@.skip(i as int)[0] == a@[i as int]);
            assert(b@.skip(i as int)[0] == b@[i as int]);
            assert(a@.skip(i as int).drop_first() =~= a@.skip(i + 1 as int));
            assert(b@.skip(i as int).drop_first() =~= b@.skip(i + 1 as int));
        }
        i += 1;
    }
}

/// Two equal-length sequences with a common strict prefix and equal
/// heads compare however their tails compare; full antisymmetry and
/// totality of `lex_lt` at the two points the sort needs them.
pub proof fn lemma_lex_lt_connected(a: Seq<char>, b: Seq<char>)
    ensures
        !lex_lt(a, b) && !lex_lt(b, a) ==> a == b,
        lex_lt(a, b) ==> !lex_lt(b, a),
    decreases a.len(),
{
    if b.len() == 0 || a.len() == 0 {
        if !lex_lt(a, b) && !lex_lt(b, a) {
            assert(a =~= b);
        }
    } else {
        lemma_lex_lt_connected(a.drop_first(), b.drop_first());
        if !lex_lt(a, b) && !lex_lt(b, a) {
            if a[0] != b[0] {
                assert((a[0] as u32) == (b[0] as u32));
                vstd::utf8::char_u32_cast(a[0], a[0] as u32);
                vstd::utf8::char_u32_cast(b[0], b[0] as u32);
                assert(false);
            }
            assert(a[0] == b[0]);
            assert(a.drop_first() == b.drop_first());
            assert(a =~= seq![a[0]] + a.drop_first());
            assert(b =~= seq![b[0]] + b.drop_first());
        }
    }
}

/// `lex_lt` is transitive.
pub proof fn lemma_lex_lt_trans(a: Seq<char>, b: Seq<char>, c: Seq<char>)
    requires
        lex_lt(a, b),
        lex_lt(b, c),
    ensures
        lex_lt(a, c),
    decreases a.len(),
{
    if a.len() != 0 && b.len() != 0 && c.len() != 0 {
        if a[0] == b[0] && b[0] == c[0] {
            lemma_lex_lt_trans(a.drop_first(), b.drop_first(), c.drop_first());
        }
    }
}

/// Non-strict lexicographic sortedness.
pub open spec fn sorted_names(s: Seq<Seq<char>>) -> bool {
    forall|i: int, j: int| 0 <= i < j < s.len() ==> !lex_lt(#[trigger] s[j], #[trigger] s[i])
}

/// No name listed twice.
pub open spec fn distinct_names(s: Seq<Seq<char>>) -> bool {
    forall|i: int, j: int| 0 <= i < j < s.len() ==> s[i] != s[j]
}

/// `lex_lt`'s reflexive closure is transitive.
pub proof fn lemma_lex_le_trans(a: Seq<char>, b: Seq<char>, c: Seq<char>)
    requires
        !lex_lt(b, a),
        !lex_lt(c, b),
    ensures
        !lex_lt(c, a),
{
    if lex_lt(c, a) {
        lemma_lex_lt_connected(a, b);
        lemma_lex_lt_connected(b, c);
        if lex_lt(a, b) {
            lemma_lex_lt_trans(c, a, b);
        } else {
            assert(a == b);
        }
    }
}

/// Inserts a name into a sorted vector, keeping it sorted; the elements
/// afterwards are the elements before plus the new one.
fn insert_sorted(out: &mut Vec<String>, x: String)
    requires
        sorted_names(old(out).deep_view()),
    ensures
        sorted_names(final(out).deep_view()),
        final(out).deep_view().len() == old(out).deep_view().len() + 1,
        forall|y: Seq<char>| #[trigger]
            final(out).deep_view().contains(y) <==> old(out).deep_view().contains(y) || y == x@,
        distinct_names(old(out).deep_view()) && !old(out).deep_view().contains(x@)
            ==> distinct_names(final(out).deep_view()),
{
    let ghost d0 = out.deep_view();
    let ghost xv = x@;
    let mut j: usize = 0;
    while j < out.len()
        invariant_except_break
            j <= out.len(),
            d0 == out.deep_view(),
            xv == x@,
            forall|k: int| 0 <= k < j ==> lex_lt(#[trigger] d0[k], xv),
        ensures
            j <= out.len(),
            d0 == out.deep_view(),
            forall|k: int| 0 <= k < j ==> lex_lt(#[trigger] d0[k], xv),
            j < out.len() ==> !lex_lt(d0[j as int], xv),
        decreases out.len() - j,
    {
        if !str_lex_lt(out[j].as_str(), x.as_str()) {
            break ;
        }
        j += 1;
    }
    let ghost jj = j as int;
    out.insert(j, x);
    proof {
        let d1 = out.deep_view();
        assert(d1 =~= d0.insert(jj, xv)) by {
            assert forall|k: int| 0 <= k < d1.len() implies d1[k] == d0.insert(jj, xv)[k] by {
                assert(d1[k] == out@[k].deep_view());
            }
        }
        assert forall|p: int, q: int| 0 <= p < q < d1.len() implies !lex_lt(d1[q], d1[p]) by {
            let pp: int = if p < jj { p } else { p - 1 };
            let qq: int = if q < jj { q } else { q - 1 };
            if p == jj {
                assert(d1[q] == d0[qq]);
                if qq == jj {
                    assert(!lex_lt(d1[q], d1[p]));
                } else {
                    lemma_lex_le_trans(xv, d0[jj], d0[qq]);
                }
            } else if q == jj {
                assert(d1[p] == d0[pp]);
                lemma_lex_lt_connected(d0[pp], xv);
            } else if p < jj && q > jj {
                assert(d1[p] == d0[pp] && d1[q] == d0[qq]);
                if qq == jj {
                    lemma_lex_lt_connected(d0[pp], xv);
                    lemma_lex_le_trans(d0[pp], xv, d0[jj]);
                }
            } else {
                assert(d1[p] == d0[pp] && d1[q] == d0[qq]);
            }
        }
        assert forall|y: Seq<char>| #[trigger]
            d1.contains(y) <==> d0.contains(y) || y == xv by {
            if d1.contains(y) {
                let w = choose|w: int| 0 <= w < d1.len() && d1[w] == y;
                if w < jj {
                    assert(d0[w] == y);
                } else if w == jj {
                } else {
                    assert(d0[w - 1] == y);
                }
            }
            if d0.contains(y) {
                let w = choose|w: int| 0 <= w < d0.len() && d0[w] == y;
                if w < jj {
                    assert(d1[w] == y);
                } else {
                    assert(d1[w + 1] == y);
                }
            }
            if y == xv {
                assert(d1[jj] == y);
            }
        }
        if distinct_names(d0) && !d0.contains(xv) {
            assert forall|p: int, q: int| 0 <= p < q < d1.len() implies d1[p] != d1[q] by {
                let pp: int = if p < jj {
                    p
                } else {
                    p - 1
                };
                let qq: int = if q < jj {
                    q
                } else {
                    q - 1
                };
                if p == jj {
                    assert(d1[q] == d0[qq]);
                    if d0[qq] == xv {
                        assert(d0.contains(xv));
                    }
                } else if q == jj {
                    assert(d1[p] == d0[pp]);
                    if d0[pp] == xv {
                        assert(d0.contains(xv));
                    }
                } else {
                    assert(d1[p] == d0[pp] && d1[q] == d0[qq]);
                }
            }
        }
    }
}

/// Sorts strings lexicographically, keeping the same elements.
pub fn sort_strings(v: Vec<String>) -> (r: Vec<String>)
    ensures
        sorted_names(r.deep_view()),
        forall|y: Seq<char>|
            #![trigger r.deep_view().contains(y)]
            #![trigger v.deep_view().contains(y)]
            r.deep_view().contains(y) <==> v.deep_view().contains(y),
        distinct_names(v.deep_view()) ==> distinct_names(r.deep_view()),
{
    let ghost d = v.deep_view();
    let mut out: Vec<String> = Vec::new();
    proof {
        assert(out.deep_view() =~= Seq::<Seq<char>>::empty());
    }
    let mut rest = v;
    while rest.len() > 0
        invariant
            sorted_names(out.deep_view()),
            forall|y: Seq<char>|
                #![trigger d.contains(y)]
                d.contains(y) <==> (out.deep_view().contains(y) || rest.deep_view().contains(y)),
            distinct_names(d) ==> distinct_names(out.deep_view()) && distinct_names(
                rest.deep_view(),
            ) && (forall|y: Seq<char>| !(#[trigger] out.deep_view().contains(y)
                && rest.deep_view().contains(y))),
        decreases rest.len(),
    {
        let ghost opre = out.deep_view();
        let ghost rpre = rest.deep_view();
        let x = match rest.pop() {
            Some(x) => x,
            None => {
                proof {
                    assert(false);
                }
                vstd::pervasive::unreached()
            },
        };
        let ghost xv = x@;
        proof {
            assert(rest.deep_view() =~= rpre.drop_last());
            assert(xv == rpre[rpre.len() - 1]);
        }
        proof {
            if distinct_names(d) {
                assert(rest.deep_view() =~= rpre.drop_last());
                if opre.contains(xv) {
                    assert(rpre.contains(xv));
                    assert(false);
                }
            }
        }
        insert_sorted(&mut out, x);
        proof {
            if distinct_names(d) {
                assert forall|p: int, q: int|
                    0 <= p < q < rest.deep_view().len() implies rest.deep_view()[p]
                    != rest.deep_view()[q] by {
                    assert(rest.deep_view()[p] == rpre[p] && rest.deep_view()[q] == rpre[q]);
                }
                assert forall|y: Seq<char>| !(#[trigger] out.deep_view().contains(y)
                    && rest.deep_view().contains(y)) by {
                    if out.deep_view().contains(y) && rest.deep_view().contains(y) {
                        let w = choose|w: int|
                            0 <= w < rest.deep_view().len() && rest.deep_view()[w] == y;
                        assert(rpre[w] == y);
                        assert(rpre.contains(y));
                        if y == xv {
                            assert(rpre[rpre.len() - 1] == xv);
                        } else {
                            assert(opre.contains(y));
                        }
                    }
                }
            }
            assert forall|y: Seq<char>| #[trigger]
                d.contains(y) <==> (out.deep_view().contains(y) || rest.deep_view().contains(
                y,
            )) by {
                if d.contains(y) {
                    if opre.contains(y) {
                    } else {
                        let w = choose|w: int| 0 <= w < rpre.len() && rpre[w] == y;
                        if w < rpre.len() - 1 {
                            assert(rest.deep_view()[w] == y);
                        } else {
                            assert(y == xv);
                        }
                    }
                }
                if rest.deep_view().contains(y) {
                    let w = choose|w: int|
                        0 <= w < rest.deep_view().len() && rest.deep_view()[w] == y;
                    assert(rpre[w] == y);
                    assert(d.contains(y));
                }
                if out.deep_view().contains(y) {
                    if opre.contains(y) {
                        assert(d.contains(y));
                    } else {
                        assert(y == xv);
                        assert(rpre[rpre.len() - 1] == y);
                        assert(d.contains(y));
                    }
                }
            }
        }
    }
    proof {
        assert(rest.deep_view().len() == 0);
    }
    out
}


} // verus!

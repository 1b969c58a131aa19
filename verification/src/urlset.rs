//! Lists of URL strings used as finite sets.
//!
//! A `Vec<String>` with no duplicated contents models a set of URLs; the
//! spec-level value of such a list is the set of its members' character
//! sequences.

use vstd::prelude::*;

verus! {

/// The character sequences held by a list of strings, in list order.
pub open spec fn views(v: Seq<String>) -> Seq<Seq<char>> {
    v.map_values(|s: String| s@)
}

/// The set of character sequences held by a list of strings.
pub open spec fn strset(v: Seq<String>) -> Set<Seq<char>> {
    Set::new(|u: Seq<char>| views(v).contains(u))
}

/// No two entries of the list hold the same characters.
pub open spec fn no_dups(v: Seq<String>) -> bool {
    forall|i: int, j: int| 0 <= i < j < v.len() ==> v[i]@ != v[j]@
}

/// Each entry of a list belongs to the list's set.
pub broadcast proof fn lemma_strset_index(v: Seq<String>, k: int)
    requires
        0 <= k < v.len(),
    ensures
        strset(v).contains(#[trigger] v[k]@),
{
    assert(views(v)[k] == v[k]@);
}

/// Each member of a list's set stands at some index of the list.
pub broadcast proof fn lemma_strset_member(v: Seq<String>, u: Seq<char>)
    requires
        #[trigger] strset(v).contains(u),
    ensures
        exists|k: int| 0 <= k < v.len() && #[trigger] v[k]@ == u,
{
    let k = choose|k: int| 0 <= k < views(v).len() && views(v)[k] == u;
    assert(v[k]@ == u);
}

/// Appending one string adds exactly its characters to the list's set.
pub broadcast proof fn lemma_strset_push(v: Seq<String>, s: String)
    ensures
        strset(#[trigger] v.push(s)) == strset(v).insert(s@),
{
    assert(strset(v.push(s)) =~= strset(v).insert(s@)) by {
        assert forall|u: Seq<char>| strset(v.push(s)).contains(u) implies
            strset(v).insert(s@).contains(u) by {
            lemma_strset_member(v.push(s), u);
            let k = choose|k: int| 0 <= k < v.push(s).len() && v.push(s)[k]@ == u;
            if k < v.len() {
                assert(v.push(s)[k] == v[k]);
                lemma_strset_index(v, k);
            } else {
                assert(v.push(s)[k] == s);
            }
        }
        assert forall|u: Seq<char>| strset(v).insert(s@).contains(u) implies
            strset(v.push(s)).contains(u) by {
            if u == s@ {
                assert(v.push(s)[v.len() as int] == s);
                lemma_strset_index(v.push(s), v.len() as int);
            } else {
                lemma_strset_member(v, u);
                let k = choose|k: int| 0 <= k < v.len() && v[k]@ == u;
                assert(v.push(s)[k] == v[k]);
                lemma_strset_index(v.push(s), k);
            }
        }
    }
}

/// The views of a list with one more entry are the views plus that entry's.
pub proof fn lemma_views_push(v: Seq<String>, s: String)
    ensures
        views(v.push(s)) == views(v).push(s@),
{
    assert(views(v.push(s)) =~= views(v).push(s@));
}

/// Splitting off the first entry splits the list's set accordingly.
pub proof fn lemma_strset_decompose(v: Seq<String>)
    requires
        v.len() > 0,
    ensures
        strset(v) == strset(v.subrange(1, v.len() as int)).insert(v[0]@),
{
    let rest = v.subrange(1, v.len() as int);
    assert(strset(v) =~= strset(rest).insert(v[0]@)) by {
        assert forall|u: Seq<char>| strset(v).contains(u) implies strset(rest).insert(
            v[0]@,
        ).contains(u) by {
            lemma_strset_member(v, u);
            let k = choose|k: int| 0 <= k < v.len() && v[k]@ == u;
            if k > 0 {
                assert(rest[k - 1] == v[k]);
                lemma_strset_index(rest, k - 1);
            }
        }
        assert forall|u: Seq<char>| strset(rest).insert(v[0]@).contains(u) implies
            strset(v).contains(u) by {
            if u == v[0]@ {
                lemma_strset_index(v, 0);
            } else {
                lemma_strset_member(rest, u);
                let k = choose|k: int| 0 <= k < rest.len() && rest[k]@ == u;
                assert(v[k + 1] == rest[k]);
                lemma_strset_index(v, k + 1);
            }
        }
    }
}

/// Extending a prefix by one entry adds exactly that entry's characters.
pub proof fn lemma_strset_subrange_extend(a: Seq<String>, i: int)
    requires
        0 <= i < a.len(),
    ensures
        strset(a.subrange(0, i + 1)) == strset(a.subrange(0, i)).insert(a[i]@),
{
    assert(a.subrange(0, i + 1) =~= a.subrange(0, i).push(a[i]));
    lemma_strset_push(a.subrange(0, i), a[i]);
}

/// Whether the list holds the characters of `s`.
pub fn contains_str(v: &Vec<String>, s: &String) -> (r: bool)
    ensures
        r == strset(v@).contains(s@),
{
    broadcast use lemma_strset_index, lemma_strset_member;

    let mut i: usize = 0;
    while i < v.len()
        invariant
            i <= v@.len(),
            forall|k: int| 0 <= k < i ==> v@[k]@ != s@,
        decreases v@.len() - i,
    {
        if v[i].eq(s) {
            proof {
                lemma_strset_index(v@, i as int);
            }
            return true;
        }
        i = i + 1;
    }
    return false;
}

/// The entries of `a` whose contents appear nowhere in `b`, in the order of
/// `a`.
pub fn vec_difference(a: &Vec<String>, b: &Vec<String>) -> (r: Vec<String>)
    requires
        no_dups(a@),
    ensures
        no_dups(r@),
        strset(r@) == strset(a@).difference(strset(b@)),
        forall|k: int| 0 <= k < r@.len() ==> strset(a@).contains(#[trigger] r@[k]@),
{
    broadcast use lemma_strset_index, lemma_strset_member, lemma_strset_push;

    let mut out: Vec<String> = Vec::new();
    let mut i: usize = 0;
    assert(strset(out@) =~= strset(a@.subrange(0, 0)).difference(strset(b@))) by {
        assert forall|u: Seq<char>| !strset(out@).contains(u) && !strset(
            a@.subrange(0, 0),
        ).contains(u) by {}
    }
    while i < a.len()
        invariant
            i <= a@.len(),
            no_dups(a@),
            no_dups(out@),
            strset(out@) == strset(a@.subrange(0, i as int)).difference(strset(b@)),
        decreases a@.len() - i,
    {
        let ghost prev = out@;
        if !contains_str(b, &a[i]) {
            proof {
                assert forall|p: int| 0 <= p < prev.len() implies prev[p]@ != a@[i as int]@ by {
                    lemma_strset_index(prev, p);
                    if prev[p]@ == a@[i as int]@ {
                        let sub = a@.subrange(0, i as int);
                        lemma_strset_member(sub, prev[p]@);
                        let j = choose|j: int| 0 <= j < sub.len() && sub[j]@ == prev[p]@;
                        assert(a@[j]@ == a@[i as int]@);
                        assert(false);
                    }
                }
            }
            out.push(a[i].clone());
            proof {
                lemma_strset_push(prev, a@[i as int]);
                assert(out@ == prev.push(a@[i as int]));
            }
        }
        proof {
            lemma_strset_subrange_extend(a@, i as int);
            assert(strset(out@) =~= strset(a@.subrange(0, i as int + 1)).difference(
                strset(b@),
            ));
        }
        i = i + 1;
    }
    proof {
        assert(a@.subrange(0, a@.len() as int) =~= a@);
        assert forall|k: int| 0 <= k < out@.len() implies strset(a@).contains(
            #[trigger] out@[k]@,
        ) by {
            assert(strset(out@).contains(out@[k]@));
        }
    }
    out
}

/// Adds to `dst` every entry of `src` whose contents `dst` does not hold yet.
pub fn merge_into(dst: &mut Vec<String>, src: &Vec<String>)
    requires
        no_dups(old(dst)@),
    ensures
        no_dups(final(dst)@),
        strset(final(dst)@) == strset(old(dst)@).union(strset(src@)),
        forall|k: int| 0 <= k < final(dst)@.len()
            ==> strset(old(dst)@).contains(#[trigger] final(dst)@[k]@)
                || strset(src@).contains(final(dst)@[k]@),
{
    broadcast use lemma_strset_index, lemma_strset_member, lemma_strset_push;

    let mut i: usize = 0;
    assert(strset(src@.subrange(0, 0)) =~= Set::<Seq<char>>::empty()) by {
        assert forall|u: Seq<char>| !strset(src@.subrange(0, 0)).contains(u) by {}
    }
    while i < src.len()
        invariant
            i <= src@.len(),
            no_dups(dst@),
            strset(dst@) == strset(old(dst)@).union(strset(src@.subrange(0, i as int))),
        decreases src@.len() - i,
    {
        let ghost prev = dst@;
        if !contains_str(dst, &src[i]) {
            proof {
                assert forall|p: int| 0 <= p < prev.len() implies prev[p]@ != src@[i as int]@ by {
                    lemma_strset_index(prev, p);
                }
            }
            dst.push(src[i].clone());
            proof {
                lemma_strset_push(prev, src@[i as int]);
                assert(dst@ == prev.push(src@[i as int]));
            }
        } else {
            proof {
                lemma_strset_index(src@, i as int);
            }
        }
        proof {
            lemma_strset_subrange_extend(src@, i as int);
            assert(strset(dst@) =~= strset(old(dst)@).union(
                strset(src@.subrange(0, i as int + 1)),
            ));
        }
        i = i + 1;
    }
    proof {
        assert(src@.subrange(0, src@.len() as int) =~= src@);
        assert forall|k: int| 0 <= k < dst@.len() implies strset(old(dst)@).contains(
            #[trigger] dst@[k]@,
        ) || strset(src@).contains(dst@[k]@) by {
            assert(strset(dst@).contains(dst@[k]@));
        }
    }
}

} // verus!

//! A directory, or a store of backups, as a map from file names to
//! contents, and what writing and deleting a sequence of files does to it.

use vstd::prelude::*;
use crate::text;

verus! {

/// The files of a directory: name to content.
pub open spec fn insert_all(
    m: Map<Seq<char>, Seq<u8>>,
    s: Seq<(Seq<char>, Seq<u8>)>,
) -> Map<Seq<char>, Seq<u8>>
    decreases s.len(),
{
    if s.len() == 0 {
        m
    } else {
        insert_all(m, s.drop_last()).insert(s.last().0, s.last().1)
    }
}

/// `m` after deleting each of `s` in turn.
pub open spec fn remove_all(m: Map<Seq<char>, Seq<u8>>, s: Seq<Seq<char>>) -> Map<
    Seq<char>,
    Seq<u8>,
>
    decreases s.len(),
{
    if s.len() == 0 {
        m
    } else {
        remove_all(m, s.drop_last()).remove(s.last())
    }
}

/// Some write of `s` is to `k`.
pub open spec fn writes_to(s: Seq<(Seq<char>, Seq<u8>)>, k: Seq<char>) -> bool {
    exists|i: int| 0 <= i < s.len() && (#[trigger] s[i]).0 == k
}

/// After deleting `s`, a name is there when it was and is not among `s`.
pub proof fn lemma_remove_all(m: Map<Seq<char>, Seq<u8>>, s: Seq<Seq<char>>, k: Seq<char>)
    ensures
        remove_all(m, s).dom().contains(k) == (m.dom().contains(k) && !s.contains(k)),
        remove_all(m, s).dom().contains(k) ==> remove_all(m, s)[k] == m[k],
    decreases s.len(),
{
    if s.len() > 0 {
        lemma_remove_all(m, s.drop_last(), k);
        if s.drop_last().contains(k) {
            let i = choose|i: int| 0 <= i < s.drop_last().len() && s.drop_last()[i] == k;
            assert(s[i] == k);
        }
        if s.contains(k) && s.last() != k {
            let i = choose|i: int| 0 <= i < s.len() && s[i] == k;
            assert(s.drop_last()[i] == k);
        }
    }
}

/// After writing `s`, a name that `s` writes holds what `s` writes to it
/// (all writes to it agree), and any other name is as it was.
pub proof fn lemma_insert_all(
    m: Map<Seq<char>, Seq<u8>>,
    s: Seq<(Seq<char>, Seq<u8>)>,
    k: Seq<char>,
    v: Seq<u8>,
)
    requires
        forall|i: int| 0 <= i < s.len() && (#[trigger] s[i]).0 == k ==> s[i].1 == v,
    ensures
        insert_all(m, s).dom().contains(k) == (m.dom().contains(k) || writes_to(s, k)),
        writes_to(s, k) ==> insert_all(m, s)[k] == v,
        !writes_to(s, k) && m.dom().contains(k) ==> insert_all(m, s)[k] == m[k],
    decreases s.len(),
{
    if s.len() > 0 {
        let t = s.drop_last();
        assert forall|i: int| 0 <= i < t.len() && (#[trigger] t[i]).0 == k implies t[i].1 == v by {
            assert(s[i] == t[i]);
        }
        lemma_insert_all(m, t, k, v);
        if writes_to(t, k) {
            let i = choose|i: int| 0 <= i < t.len() && (#[trigger] t[i]).0 == k;
            assert(s[i] == t[i]);
        }
        if writes_to(s, k) && s.last().0 != k {
            let i = choose|i: int| 0 <= i < s.len() && (#[trigger] s[i]).0 == k;
            assert(t[i] == s[i]);
        }
        if s.last().0 == k {
            assert(s[s.len() - 1] == s.last());
        }
    }
}

/// What `filter_map` keeps: each element comes from one of `s`, and each
/// element of `s` that `f` keeps is there.
pub proof fn lemma_filter_map_members<A, B>(s: Seq<A>, f: spec_fn(A) -> Option<B>)
    ensures
        forall|b: B|
            text::filter_map(s, f).contains(b) <==> exists|j: int|
                0 <= j < s.len() && #[trigger] f(s[j]) == Some(b),
    decreases s.len(),
{
    if s.len() > 0 {
        let t = s.drop_last();
        lemma_filter_map_members(t, f);
        assert forall|b: B|
            text::filter_map(s, f).contains(b) <==> exists|j: int|
                0 <= j < s.len() && #[trigger] f(s[j]) == Some(b) by {
            let fm = text::filter_map(s, f);
            let ft = text::filter_map(t, f);
            if fm.contains(b) {
                let i = choose|i: int| 0 <= i < fm.len() && fm[i] == b;
                if i < ft.len() {
                    assert(ft[i] == b);
                    assert(ft.contains(b));
                    let j = choose|j: int| 0 <= j < t.len() && #[trigger] f(t[j]) == Some(b);
                    assert(s[j] == t[j]);
                } else {
                    assert(f(s[s.len() - 1]) == Some(b));
                }
            }
            if exists|j: int| 0 <= j < s.len() && #[trigger] f(s[j]) == Some(b) {
                let j = choose|j: int| 0 <= j < s.len() && #[trigger] f(s[j]) == Some(b);
                if j < t.len() {
                    assert(t[j] == s[j]);
                    assert(ft.contains(b));
                    let i = choose|i: int| 0 <= i < ft.len() && ft[i] == b;
                    assert(fm[i] == b);
                } else {
                    assert(s[j] == s.last());
                    assert(fm[fm.len() - 1] == b);
                }
            }
        }
    }
}

} // verus!

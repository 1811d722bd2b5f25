//! Windows paths held as strings: their components and their file name, as
//! `std::path::Path` reads them on Windows.

use vstd::prelude::*;
use crate::text;

verus! {

pub open spec fn is_sep(c: char) -> bool {
    c == '\\' || c == '/'
}

/// A leading drive (`X:`) is a prefix, not a component.
pub open spec fn strip_drive(s: Seq<char>) -> Seq<char> {
    if s.len() >= 2 && s[1] == ':' && (('a' <= s[0] && s[0] <= 'z') || ('A' <= s[0] && s[0]
        <= 'Z')) {
        s.skip(2)
    } else {
        s
    }
}

/// `s` split at every separator (empty parts included).
pub open spec fn split_on(s: Seq<char>) -> Seq<Seq<char>>
    decreases s.len(),
{
    if s.len() == 0 {
        seq![Seq::empty()]
    } else if is_sep(s.last()) {
        split_on(s.drop_last()).push(Seq::empty())
    } else {
        let r = split_on(s.drop_last());
        r.update(r.len() - 1, r.last().push(s.last()))
    }
}

pub open spec fn keep_part() -> spec_fn(Seq<char>) -> Option<Seq<char>> {
    |p: Seq<char>|
        if p.len() > 0 && p != seq!['.'] {
            Some(p)
        } else {
            None
        }
}

/// The components of a path: the parts between separators, without empty
/// and `.` parts, after a leading drive.
pub open spec fn components(s: Seq<char>) -> Seq<Seq<char>> {
    text::filter_map(split_on(strip_drive(s)), keep_part())
}

/// The name of a component, unless it is `..`.
pub open spec fn name_of(c: Seq<char>) -> Option<Seq<char>> {
    if c == seq!['.', '.'] {
        None
    } else {
        Some(c)
    }
}

/// The last component's name, as `Path::file_name`.
pub open spec fn file_name(s: Seq<char>) -> Option<Seq<char>> {
    let c = components(s);
    if c.len() == 0 {
        None
    } else {
        name_of(c.last())
    }
}

/// The name of the component `back` places before the last (0 is the last).
pub open spec fn name_back(s: Seq<char>, back: int) -> Option<Seq<char>> {
    let c = components(s);
    if back < c.len() {
        name_of(c[c.len() - 1 - back])
    } else {
        None
    }
}

proof fn lemma_split_nonempty(s: Seq<char>)
    ensures
        split_on(s).len() >= 1,
    decreases s.len(),
{
    if s.len() > 0 {
        lemma_split_nonempty(s.drop_last());
    }
}

fn strip_drive_vec(s: &[char]) -> (r: Vec<char>)
    ensures
        r@ == strip_drive(s@),
{
    if s.len() >= 2 && s[1] == ':' && (('a' <= s[0] && s[0] <= 'z') || ('A' <= s[0] && s[0] <= 'Z')) {
        let r = text::slice_vec(s, 2, s.len());
        assert(r@ =~= s@.skip(2));
        r
    } else {
        text::to_vec(s)
    }
}

fn keep_exec(p: &Vec<char>) -> (r: bool)
    ensures
        r == (keep_part()(p@) is Some),
{
    if p.len() == 0 {
        return false;
    }
    if p.len() == 1 && p[0] == '.' {
        assert(p@ =~= seq!['.']);
        return false;
    }
    if p.len() == 1 {
        assert(p@ != seq!['.']) by {
            assert(p@[0] != seq!['.'][0]);
        }
    }
    true
}

/// The components of a path (see [`components`]).
pub fn components_vec(s: &str) -> (r: Vec<Vec<char>>)
    ensures
        text::vviews(r@) == components(s@),
{
    let v0 = text::chars_of(s);
    let v = strip_drive_vec(&v0);
    let ghost t = v@;
    let mut out: Vec<Vec<char>> = Vec::new();
    let mut cur: Vec<char> = Vec::new();
    let mut i: usize = 0;
    proof {
        assert(t.take(0) =~= Seq::<char>::empty());
        assert(split_on(t.take(0)).drop_last() =~= Seq::<Seq<char>>::empty());
    }
    while i < v.len()
        invariant
            i <= v.len(),
            t == v@,
            cur@ == split_on(t.take(i as int)).last(),
            text::vviews(out@) == text::filter_map(
                split_on(t.take(i as int)).drop_last(),
                keep_part(),
            ),
        decreases v.len() - i,
    {
        let c = v[i];
        let ghost prev = split_on(t.take(i as int));
        proof {
            lemma_split_nonempty(t.take(i as int));
            assert(t.take(i + 1).drop_last() =~= t.take(i as int));
            assert(t.take(i + 1).last() == c);
        }
        if c == '\\' || c == '/' {
            let ghost ob = text::vviews(out@);
            let k = keep_exec(&cur);
            if k {
                out.push(cur);
                proof {
                    assert(text::vviews(out@) =~= ob.push(prev.last()));
                }
            }
            cur = Vec::new();
            proof {
                let now = split_on(t.take(i + 1));
                assert(now == prev.push(Seq::empty()));
                assert(now.drop_last() =~= prev);
                assert(prev =~= prev.drop_last().push(prev.last()));
                text::lemma_filter_map_take(prev, keep_part(), prev.len() - 1);
                assert(prev.take(prev.len() - 1) =~= prev.drop_last());
                assert(prev.take(prev.len() as int) =~= prev);
                assert(cur@ =~= now.last());
            }
        } else {
            cur.push(c);
            proof {
                let now = split_on(t.take(i + 1));
                assert(now.drop_last() =~= prev.drop_last());
            }
        }
        i += 1;
    }
    proof {
        assert(t.take(v.len() as int) =~= t);
        let sp = split_on(t);
        lemma_split_nonempty(t);
        text::lemma_filter_map_take(sp, keep_part(), sp.len() - 1);
        assert(sp.take(sp.len() - 1) =~= sp.drop_last());
        assert(sp.take(sp.len() as int) =~= sp);
    }
    let ghost ob = text::vviews(out@);
    if keep_exec(&cur) {
        out.push(cur);
        assert(text::vviews(out@) =~= ob.push(split_on(t).last()));
    }
    out
}

/// The last component's name (see [`file_name`]).
pub fn file_name_vec(s: &str) -> (r: Option<Vec<char>>)
    ensures
        match r {
            Some(n) => file_name(s@) == Some(n@),
            None => file_name(s@) is None,
        },
{
    let c = components_vec(s);
    if c.len() == 0 {
        return None;
    }
    assert(text::vviews(c@)[c.len() - 1] == c@[c.len() - 1]@);
    name_back_of(&c, 0)
}

/// The name `back` components before the last (see [`name_back`]).
pub fn name_back_vec(s: &str, back: usize) -> (r: Option<Vec<char>>)
    ensures
        match r {
            Some(n) => name_back(s@, back as int) == Some(n@),
            None => name_back(s@, back as int) is None,
        },
{
    let c = components_vec(s);
    if back >= c.len() {
        return None;
    }
    name_back_of(&c, back)
}

fn name_back_of(c: &Vec<Vec<char>>, back: usize) -> (r: Option<Vec<char>>)
    requires
        back < c.len(),
    ensures
        match r {
            Some(n) => name_of(c@[c.len() - 1 - back]@) == Some(n@),
            None => name_of(c@[c.len() - 1 - back]@) is None,
        },
{
    let p = &c[c.len() - 1 - back];
    if p.len() == 2 && p[0] == '.' && p[1] == '.' {
        assert(p@ =~= seq!['.', '.']);
        None
    } else {
        if p.len() == 2 {
            assert(p@ != seq!['.', '.']) by {
                if p@[0] != '.' {
                    assert(p@[0] != seq!['.', '.'][0]);
                } else {
                    assert(p@[1] != seq!['.', '.'][1]);
                }
            }
        }
        Some(text::to_vec(p.as_slice()))
    }
}

} // verus!

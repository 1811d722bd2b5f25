//! The run log's rules: the directory keeps two files, this run's and the
//! previous run's; each line is stamped with the time of day.

use vstd::prelude::*;
use crate::text;
use crate::scan::{seq_lt, lt_exec};

verus! {

/// This run's log file.
pub const CUR_NAME: &'static str = "framegen.log";

/// The previous run's log file.
pub const PREV_NAME: &'static str = "framegen.prev.log";

/// A log file of the old naming, one per run: `framegen-<time>.log`.
pub open spec fn legacy_log(name: Seq<char>) -> bool {
    text::starts_with(name, "framegen-"@) && text::ends_with(name, ".log"@)
}

/// Whether a file name is an old per-run log.
pub fn is_legacy_log(name: &str) -> (r: bool)
    ensures
        r == legacy_log(name@),
{
    let v = text::chars_of(name);
    text::starts_with_str(&v, "framegen-") && text::ends_with_str(&v, ".log")
}

/// What rotation does with the old per-run logs once the current log has
/// become the previous one: when there is still no previous log (`has_prev`
/// false), the newest old log (the greatest name, as time stamps sort)
/// becomes it; every other old log is deleted. Returns the one kept (at
/// index `keep` of `legacy`) or none, and the ones deleted.
pub open spec fn rotation_keeps(legacy: Seq<Seq<char>>, has_prev: bool, keep: Option<int>) -> bool {
    match keep {
        None => has_prev || legacy.len() == 0,
        Some(k) => !has_prev && 0 <= k < legacy.len() && forall|j: int|
            0 <= j < legacy.len() && j != k ==> seq_lt(#[trigger] legacy[j], legacy[k]) || legacy[j]
                == legacy[k],
    }
}

/// The names that rotation deletes: every old log, in the order given,
/// but the one at index `keep`.
pub open spec fn deleted_of(legacy: Seq<Seq<char>>, keep: Option<usize>) -> Seq<Seq<char>> {
    match keep {
        Some(k) if k < legacy.len() => legacy.remove(k as int),
        _ => legacy,
    }
}

proof fn lemma_deleted_step(lv: Seq<Seq<char>>, j: usize, keep: Option<usize>)
    requires
        j < lv.len(),
    ensures
        deleted_of(lv.take(j + 1), keep) == (if keep == Some(j) {
            deleted_of(lv.take(j as int), keep)
        } else {
            deleted_of(lv.take(j as int), keep).push(lv[j as int])
        }),
{
    let a = lv.take(j + 1);
    let b = lv.take(j as int);
    match keep {
        Some(k) => {
            if k < j {
                assert(a.remove(k as int) =~= b.remove(k as int).push(lv[j as int]));
            } else if k == j {
                assert(a.remove(k as int) =~= b);
            } else {
                assert(a =~= b.push(lv[j as int]));
            }
        },
        None => {
            assert(a =~= b.push(lv[j as int]));
        },
    }
}

proof fn lemma_deleted_facts(lv: Seq<Seq<char>>, keep: Option<usize>)
    ensures
        forall|x: int|
            0 <= x < lv.len() && keep != Some(x as usize) ==> deleted_of(lv, keep).contains(
                #[trigger] lv[x],
            ),
{
    assert forall|x: int| 0 <= x < lv.len() && keep != Some(x as usize) implies deleted_of(
        lv,
        keep,
    ).contains(#[trigger] lv[x]) by {
        let d = deleted_of(lv, keep);
        match keep {
            Some(k) => {
                if k < lv.len() {
                    if x < k {
                        assert(d[x] == lv[x]);
                    } else {
                        assert(d[x - 1] == lv[x]);
                    }
                } else {
                    assert(d[x] == lv[x]);
                }
            },
            None => {
                assert(d[x] == lv[x]);
            },
        }
    }
}

/// Plans the rotation of old per-run logs: the index of the one that
/// becomes the previous log (if any), and the names to delete.
pub fn rotate_plan(legacy: &Vec<String>, has_prev: bool) -> (r: (Option<usize>, Vec<String>))
    ensures
        rotation_keeps(text::views(legacy@), has_prev, match r.0 {
            Some(k) => Some(k as int),
            None => None,
        }),
        r.1@.len() == legacy@.len() - (if r.0 is Some {
            1int
        } else {
            0
        }),
        text::views(r.1@) == deleted_of(text::views(legacy@), r.0),
        forall|j: int|
            0 <= j < legacy@.len() && r.0 != Some(j as usize) ==> text::views(r.1@).contains(
                #[trigger] legacy@[j]@,
            ),
{
    let ghost lv = text::views(legacy@);
    let mut keep: Option<usize> = None;
    if !has_prev && legacy.len() > 0 {
        let mut best: usize = 0;
        let mut i: usize = 1;
        proof {
            crate::scan::lemma_seq_lt_irrefl(lv[0]);
        }
        while i < legacy.len()
            invariant
                1 <= i <= legacy.len(),
                best < i,
                lv == text::views(legacy@),
                forall|j: int|
                    0 <= j < i && j != best ==> seq_lt(#[trigger] lv[j], lv[best as int]) || lv[j]
                        == lv[best as int],
            decreases legacy.len() - i,
        {
            let a = text::chars_of(legacy[best].as_str());
            let b = text::chars_of(legacy[i].as_str());
            assert(a@ == lv[best as int] && b@ == lv[i as int]);
            if lt_exec(&a, &b) {
                proof {
                    assert forall|j: int| 0 <= j < i + 1 && j != i implies seq_lt(
                        #[trigger] lv[j],
                        lv[i as int],
                    ) || lv[j] == lv[i as int] by {
                        if j != best {
                            if seq_lt(lv[j], lv[best as int]) {
                                crate::scan::lemma_seq_lt_trans(lv[j], lv[best as int], lv[i as int]);
                            }
                        }
                    }
                }
                best = i;
            } else {
                proof {
                    crate::scan::lemma_seq_lt_total(lv[best as int], lv[i as int]);
                }
            }
            i += 1;
        }
        keep = Some(best);
    }
    let mut del: Vec<String> = Vec::new();
    let mut j: usize = 0;
    while j < legacy.len()
        invariant
            j <= legacy.len(),
            lv == text::views(legacy@),
            keep matches Some(k) ==> k < legacy.len(),
            text::views(del@) == deleted_of(lv.take(j as int), keep),
        decreases legacy.len() - j,
    {
        let ghost before = text::views(del@);
        proof {
            lemma_deleted_step(lv, j, keep);
        }
        if keep != Some(j) {
            del.push(text::copy_string(&legacy[j]));
            proof {
                assert(text::views(del@) =~= before.push(lv[j as int]));
            }
        }
        j += 1;
    }
    proof {
        assert(lv.take(legacy.len() as int) =~= lv);
        lemma_deleted_facts(lv, keep);
        assert forall|x: int| 0 <= x < legacy@.len() implies lv[x] == #[trigger] legacy@[x]@ by {}
    }
    (keep, del)
}

// ------------------------------------------------------------ the log directory

/// The directory after the current log became the previous one: the old
/// previous log deleted, then the current one (if any) renamed to it.
pub open spec fn after_rename(dir: Map<Seq<char>, Seq<u8>>) -> Map<Seq<char>, Seq<u8>> {
    let d1 = dir.remove(PREV_NAME@);
    if dir.dom().contains(CUR_NAME@) {
        d1.remove(CUR_NAME@).insert(PREV_NAME@, dir[CUR_NAME@])
    } else {
        d1
    }
}

/// `ls` lists the old per-run logs of `d`, each once.
pub open spec fn lists_legacy(d: Map<Seq<char>, Seq<u8>>, ls: Seq<Seq<char>>) -> bool {
    &&& text::distinct_seq(ls)
    &&& forall|n: Seq<char>| (d.dom().contains(n) && legacy_log(n)) == #[trigger] ls.contains(n)
}

/// The directory after a rotation plan is carried out: the kept old log
/// renamed to the previous log, the others deleted.
pub open spec fn apply_plan(
    d: Map<Seq<char>, Seq<u8>>,
    ls: Seq<Seq<char>>,
    keep: Option<usize>,
    del: Seq<Seq<char>>,
) -> Map<Seq<char>, Seq<u8>> {
    let d3 = match keep {
        Some(k) => d.remove(ls[k as int]).insert(PREV_NAME@, d[ls[k as int]]),
        None => d,
    };
    d3.remove_keys(del.to_set())
}

pub open spec fn keep_int(keep: Option<usize>) -> Option<int> {
    match keep {
        Some(k) => Some(k as int),
        None => None,
    }
}

proof fn lemma_log_names_not_legacy()
    ensures
        !legacy_log(CUR_NAME@),
        !legacy_log(PREV_NAME@),
        CUR_NAME@ != PREV_NAME@,
{
    reveal_strlit("framegen.log");
    reveal_strlit("framegen.prev.log");
    reveal_strlit("framegen-");
    assert(CUR_NAME@.subrange(0, 9)[8] != "framegen-"@[8]);
    assert(PREV_NAME@.subrange(0, 9)[8] != "framegen-"@[8]);
    assert(CUR_NAME@.len() != PREV_NAME@.len());
}

proof fn lemma_deleted_members(ls: Seq<Seq<char>>, keep: Option<usize>, y: Seq<char>)
    requires
        text::distinct_seq(ls),
        ls.len() <= usize::MAX,
        keep matches Some(k) ==> k < ls.len(),
    ensures
        deleted_of(ls, keep).contains(y) <==> ls.contains(y) && (keep matches Some(k) ==> y
            != ls[k as int]),
{
    lemma_deleted_facts(ls, keep);
    let d = deleted_of(ls, keep);
    if d.contains(y) {
        let w = choose|w: int| 0 <= w < d.len() && d[w] == y;
        match keep {
            Some(k) => {
                if w < k {
                    assert(ls[w] == y);
                    assert(ls[w] != ls[k as int]);
                } else {
                    assert(ls[w + 1] == y);
                    assert(ls[w + 1] != ls[k as int]);
                }
            },
            None => {
                assert(ls[w] == y);
            },
        }
    }
    if ls.contains(y) && (keep matches Some(k) ==> y != ls[k as int]) {
        let x = choose|x: int| 0 <= x < ls.len() && ls[x] == y;
        match keep {
            Some(k) => {
                assert(k as int != x);
            },
            None => {},
        }
        assert(keep != Some(x as usize));
    }
}

/// Rotating the log directory leaves no old per-run log and no current
/// log; the previous log is the log of the last run when there was one,
/// else the newest old per-run log (the greatest name, as time stamps
/// sort), else there is none; every other file stays as it was. (Renames
/// are taken to succeed.) `ls` is the listing of old logs rotation reads,
/// and `keep` and `del` are what [`rotate_plan`] makes of it.
pub proof fn law_rotation(
    dir: Map<Seq<char>, Seq<u8>>,
    ls: Seq<Seq<char>>,
    keep: Option<usize>,
    del: Seq<Seq<char>>,
)
    requires
        lists_legacy(after_rename(dir), ls),
        ls.len() <= usize::MAX,
        rotation_keeps(ls, after_rename(dir).dom().contains(PREV_NAME@), keep_int(keep)),
        del == deleted_of(ls, keep),
    ensures
        ({
            let d = apply_plan(after_rename(dir), ls, keep, del);
            &&& forall|n: Seq<char>| legacy_log(n) ==> !#[trigger] d.dom().contains(n)
            &&& !d.dom().contains(CUR_NAME@)
            &&& dir.dom().contains(CUR_NAME@) ==> d.dom().contains(PREV_NAME@) && d[PREV_NAME@]
                == dir[CUR_NAME@]
            &&& !dir.dom().contains(CUR_NAME@) && ls.len() > 0 ==> exists|g: Seq<char>|
                #[trigger] dir.dom().contains(g) && legacy_log(g) && d.dom().contains(PREV_NAME@)
                    && d[PREV_NAME@] == dir[g] && forall|n: Seq<char>|
                    dir.dom().contains(n) && legacy_log(n) ==> n == g || seq_lt(n, g)
            &&& !dir.dom().contains(CUR_NAME@) && ls.len() == 0 ==> !d.dom().contains(PREV_NAME@)
            &&& forall|n: Seq<char>|
                n != CUR_NAME@ && n != PREV_NAME@ && !legacy_log(n) ==> (#[trigger] d.dom().contains(n)
                    == dir.dom().contains(n) && (dir.dom().contains(n) ==> d[n] == dir[n]))
        }),
{
    lemma_log_names_not_legacy();
    let d2 = after_rename(dir);
    let d = apply_plan(d2, ls, keep, del);
    let d3 = match keep {
        Some(k) => d2.remove(ls[k as int]).insert(PREV_NAME@, d2[ls[k as int]]),
        None => d2,
    };
    assert(d == d3.remove_keys(del.to_set()));
    assert forall|y: Seq<char>| #[trigger] del.to_set().contains(y) <==> del.contains(y) by {}
    assert forall|n: Seq<char>| legacy_log(n) implies !#[trigger] d.dom().contains(n) by {
        lemma_deleted_members(ls, keep, n);
        if d2.dom().contains(n) {
            assert(ls.contains(n));
        }
    }
    if !dir.dom().contains(CUR_NAME@) && ls.len() > 0 {
        let k = keep.unwrap();
        let g = ls[k as int];
        assert(ls.contains(g));
        assert(d2.dom().contains(g) && legacy_log(g));
        lemma_deleted_members(ls, keep, PREV_NAME@);
        assert forall|n: Seq<char>| dir.dom().contains(n) && legacy_log(n) implies n == g || seq_lt(n, g) by {
            assert(d2.dom().contains(n));
            assert(ls.contains(n));
            let j = choose|j: int| 0 <= j < ls.len() && ls[j] == n;
        }
        assert(dir.dom().contains(g) && legacy_log(g));
    }
    if dir.dom().contains(CUR_NAME@) || ls.len() == 0 {
        lemma_deleted_members(ls, keep, PREV_NAME@);
    }
    assert forall|n: Seq<char>|
        n != CUR_NAME@ && n != PREV_NAME@ && !legacy_log(n) implies (#[trigger] d.dom().contains(n)
        == dir.dom().contains(n) && (dir.dom().contains(n) ==> d[n] == dir[n])) by {
        lemma_deleted_members(ls, keep, n);
        if ls.contains(n) {
            assert(d2.dom().contains(n) && legacy_log(n));
        }
        match keep {
            Some(k) => {
                assert(ls.contains(ls[k as int]));
            },
            None => {},
        }
    }
}

/// The time of day of a UTC time stamp: its second space-separated field
/// (empty when there is none).
pub open spec fn clock_of(stamp: Seq<char>) -> Seq<char> {
    let i = text::first_index(stamp, ' ');
    if i >= stamp.len() {
        Seq::empty()
    } else {
        let rest = stamp.skip(i + 1);
        rest.take(text::first_index(rest, ' '))
    }
}

/// The time of day shown at the start of each line.
pub fn clock(stamp: &str) -> (r: String)
    ensures
        r@ == clock_of(stamp@),
{
    let s = text::chars_of(stamp);
    let i = text::find_char(&s, 0, ' ');
    assert(s@.subrange(0, s.len() as int) =~= s@);
    if i >= s.len() {
        return String::new();
    }
    let j = text::find_char(&s, i + 1, ' ');
    let r = text::slice_vec(&s, i + 1, j);
    assert(r@ =~= s@.skip(i + 1).take(j - (i + 1)));
    text::string_of(&r)
}

/// A line of the log: `[time] message`.
pub fn line(clock: &str, msg: &str) -> (r: String)
    ensures
        r@ == "["@ + clock@ + "] "@ + msg@,
{
    let head = text::cat3("[", clock, "] ");
    text::cat2(head.as_str(), msg)
}

/// The messages that mark the start of an operation in the log: an empty
/// one, then the title between rules.
pub fn section(title: &str) -> (r: Vec<String>)
    ensures
        r@.len() == 2,
        r@[0]@.len() == 0,
        r@[1]@ == "========== "@ + title@ + " =========="@,
{
    let mut v: Vec<String> = Vec::new();
    v.push(String::new());
    v.push(text::cat3("========== ", title, " =========="));
    v
}

} // verus!

//! The promise of a backup: restoring right after a deployment gives back
//! the game directory as it was before this tool first wrote to it — after a
//! first deployment, after a redeployment, and after a switch of proxy.
//!
//! A directory and the backup store are modelled as maps from names to
//! contents; a deployment applies the plan [`deploy::deploy`] computes,
//! and a restore applies the plan [`deploy::restore_with`] computes from the
//! manifest and the disk.

use vstd::prelude::*;
use crate::deploy::{
    self, DeployInput, EntryV, ExtraFacts, OrphanAction, PayloadFacts, PrevFacts, RestoreFactV,
};
use crate::files::{self, insert_all, remove_all, writes_to};
use crate::text;
use crate::util;

verus! {

/// The files of a directory, or of the backup store: name to content.
pub type Files = Map<Seq<char>, Seq<u8>>;

// ------------------------------------------------------------ restore model

/// The facts a restore reads for the entries `es`, from `dir` and `store`.
pub open spec fn facts_for(es: Seq<EntryV>, dir: Files, store: Files) -> Seq<RestoreFactV> {
    Seq::new(
        es.len(),
        |i: int|
            RestoreFactV {
                entry: es[i],
                present: dir.dom().contains(es[i].rel_path),
                backup: match es[i].backup_name {
                    Some(b) => if store.dom().contains(b) {
                        Some(store[b])
                    } else {
                        None
                    },
                    None => None,
                },
            },
    )
}

/// `dir` after carrying out the restore planned from `fs`, when it does not
/// stop: the recorded files deleted, then the originals written back.
pub open spec fn restored(dir: Files, fs: Seq<RestoreFactV>) -> Files {
    insert_all(remove_all(dir, deploy::restore_removals(fs)), deploy::restore_writes(fs))
}

/// Restoring the entries `es` in `dir` with backups `store` goes through and
/// leaves `dir0`.
pub open spec fn restores_to(es: Seq<EntryV>, dir: Files, store: Files, dir0: Files) -> bool {
    let fs = facts_for(es, dir, store);
    &&& deploy::restore_error(fs) is None
    &&& restored(dir, fs) == dir0
}

/// Entries of one name agree on whether there was an original (a name
/// deployed twice in one go is recorded twice, alike).
pub open spec fn agree(es: Seq<EntryV>) -> bool {
    forall|i: int, j: int|
        0 <= i < es.len() && 0 <= j < es.len() && (#[trigger] es[i]).rel_path == (
        #[trigger] es[j]).rel_path ==> es[i].existed_before == es[j].existed_before
}

/// The facts of entries of one name give the same thing to put back.
pub open spec fn facts_agree(fs: Seq<RestoreFactV>) -> bool {
    forall|a: int, b: int|
        0 <= a < fs.len() && 0 <= b < fs.len() && (#[trigger] fs[a]).entry.rel_path == (
        #[trigger] fs[b]).entry.rel_path ==> deploy::restore_fn()(fs[a]) == deploy::restore_fn()(
            fs[b],
        )
}

/// Entries as this tool writes them: entries of one name agree, and each
/// has a backup exactly when there was an original, under `<name>.bak`.
pub open spec fn well_formed(es: Seq<EntryV>) -> bool {
    &&& agree(es)
    &&& forall|i: int|
        0 <= i < es.len() ==> ((#[trigger] es[i]).existed_before == es[i].backup_name is Some) && (
        es[i].backup_name is Some ==> es[i].backup_name.unwrap() == deploy::bak_name(
            es[i].rel_path,
        ))
}

pub proof fn lemma_first_from_le(from: int, n: int, p: spec_fn(int) -> bool)
    requires
        from <= n,
    ensures
        from <= deploy::first_from(from, n, p) <= n,
    decreases n - from,
{
    if from < n {
        lemma_first_from_le(from + 1, n, p);
    }
}

proof fn lemma_restore_all(fs: Seq<RestoreFactV>)
    requires
        deploy::restore_error(fs) is None,
    ensures
        deploy::restore_writes(fs) == text::filter_map(fs, deploy::restore_fn()),
        forall|i: int| 0 <= i < fs.len() ==> !deploy::backup_bad(#[trigger] fs[i]),
{
    let n = fs.len() as int;
    lemma_first_from_le(0, n, deploy::bad_fn(fs));
    assert(fs.take(n) =~= fs);
    deploy::lemma_first_from_none(0, n, deploy::bad_fn(fs));
    assert forall|i: int| 0 <= i < fs.len() implies !deploy::backup_bad(#[trigger] fs[i]) by {
        assert(!deploy::bad_fn(fs)(i));
    }
}

pub open spec fn fact_entries(fs: Seq<RestoreFactV>) -> Seq<EntryV> {
    fs.map_values(|f: RestoreFactV| f.entry)
}

/// A restore that does not stop puts a restorable entry's backup back, and
/// leaves the name of any other entry absent.
pub proof fn lemma_restored_entry(dir: Files, fs: Seq<RestoreFactV>, i: int)
    requires
        deploy::restore_error(fs) is None,
        facts_agree(fs),
        0 <= i < fs.len(),
        fs[i].present == dir.dom().contains(fs[i].entry.rel_path),
    ensures
        deploy::restorable(fs[i].entry) ==> restored(dir, fs).dom().contains(fs[i].entry.rel_path)
            && restored(dir, fs)[fs[i].entry.rel_path] == fs[i].backup.unwrap(),
        !deploy::restorable(fs[i].entry) ==> !restored(dir, fs).dom().contains(
            fs[i].entry.rel_path,
        ),
{
    lemma_restore_all(fs);
    let k = fs[i].entry.rel_path;
    let rm = deploy::restore_removals(fs);
    let ws = deploy::restore_writes(fs);
    files::lemma_filter_map_members(fs, deploy::present_fn());
    files::lemma_filter_map_members(fs, deploy::restore_fn());
    let v = fs[i].backup.unwrap();
    assert forall|a: int| 0 <= a < ws.len() && (#[trigger] ws[a]).0 == k implies ws[a].1 == v by {
        assert(ws.contains(ws[a]));
        let j = choose|j: int|
            0 <= j < fs.len() && #[trigger] deploy::restore_fn()(fs[j]) == Some(ws[a]);
        assert(fs[j].entry.rel_path == k);
        assert(deploy::restore_fn()(fs[j]) == deploy::restore_fn()(fs[i]));
    }
    files::lemma_insert_all(remove_all(dir, rm), ws, k, v);
    files::lemma_remove_all(dir, rm, k);
    if deploy::restorable(fs[i].entry) {
        assert(deploy::restore_fn()(fs[i]) == Some((k, v)));
        assert(ws.contains((k, v)));
        let a = choose|a: int| 0 <= a < ws.len() && ws[a] == (k, v);
        assert(ws[a].0 == k);
    } else {
        if writes_to(ws, k) {
            let a = choose|a: int| 0 <= a < ws.len() && (#[trigger] ws[a]).0 == k;
            assert(ws.contains(ws[a]));
            let j = choose|j: int|
                0 <= j < fs.len() && #[trigger] deploy::restore_fn()(fs[j]) == Some(ws[a]);
            assert(fs[j].entry.rel_path == k);
            assert(deploy::restore_fn()(fs[j]) == deploy::restore_fn()(fs[i]));
        }
        if fs[i].present {
            assert(deploy::present_fn()(fs[i]) == Some(k));
        } else {
            if remove_all(dir, rm).dom().contains(k) {
                assert(!rm.contains(k));
            }
        }
    }
}

/// A restore that does not stop leaves a name no entry records as it is.
pub proof fn lemma_restored_other(dir: Files, fs: Seq<RestoreFactV>, k: Seq<char>)
    requires
        deploy::restore_error(fs) is None,
        forall|i: int| 0 <= i < fs.len() ==> (#[trigger] fs[i]).entry.rel_path != k,
    ensures
        restored(dir, fs).dom().contains(k) == dir.dom().contains(k),
        dir.dom().contains(k) ==> restored(dir, fs)[k] == dir[k],
{
    lemma_restore_all(fs);
    let rm = deploy::restore_removals(fs);
    let ws = deploy::restore_writes(fs);
    files::lemma_filter_map_members(fs, deploy::present_fn());
    files::lemma_filter_map_members(fs, deploy::restore_fn());
    files::lemma_remove_all(dir, rm, k);
    if rm.contains(k) {
        let j = choose|j: int| 0 <= j < fs.len() && #[trigger] deploy::present_fn()(fs[j]) == Some(k);
    }
    if writes_to(ws, k) {
        let a = choose|a: int| 0 <= a < ws.len() && (#[trigger] ws[a]).0 == k;
        assert(ws.contains(ws[a]));
        let j = choose|j: int| 0 <= j < fs.len() && #[trigger] deploy::restore_fn()(fs[j]) == Some(ws[a]);
    }
    files::lemma_insert_all(remove_all(dir, rm), ws, k, Seq::empty());
}

// ------------------------------------------------------------ deployment model

/// The facts about a file to deploy are true of `dir`.
pub open spec fn file_fact(f: PayloadFacts, dir: Files) -> bool {
    &&& f.dst_present == dir.dom().contains(f.dest_name@)
    &&& f.dst_bytes is Some ==> f.dst_present && f.dst_bytes.unwrap()@ == dir[f.dest_name@]
}

/// The facts about an extra proxy are true of `dir`.
pub open spec fn extra_fact(e: ExtraFacts, dir: Files) -> bool {
    &&& e.present == dir.dom().contains(e.name@)
    &&& e.bytes is Some ==> e.present && e.bytes.unwrap()@ == dir[e.name@]
}

/// The facts about a previous entry are true of `dir` and `store`.
pub open spec fn prev_fact(p: PrevFacts, dir: Files, store: Files) -> bool {
    &&& (p.current is Some) == dir.dom().contains(p.entry.rel_path@)
    &&& p.current is Some ==> p.current.unwrap()@ == dir[p.entry.rel_path@]
    &&& p.entry.backup_name is Some ==> p.backup_present == store.dom().contains(
        p.entry.backup_name.unwrap()@,
    )
}

/// Every fact of the input is true of the directory and the backup store.
pub open spec fn facts_match(inp: DeployInput, dir: Files, store: Files) -> bool {
    &&& forall|j: int| 0 <= j < inp.files@.len() ==> file_fact(#[trigger] inp.files@[j], dir)
    &&& forall|j: int| 0 <= j < inp.extras@.len() ==> extra_fact(#[trigger] inp.extras@[j], dir)
    &&& forall|j: int|
        0 <= j < deploy::prev_seq(inp).len() ==> prev_fact(
            #[trigger] deploy::prev_seq(inp)[j],
            dir,
            store,
        )
}

/// The entries of the previous manifest.
pub open spec fn prev_entries(inp: DeployInput) -> Seq<EntryV> {
    entries_of(deploy::prev_seq(inp))
}

pub open spec fn entries_of(ps: Seq<PrevFacts>) -> Seq<EntryV> {
    ps.map_values(|p: PrevFacts| p.entry@)
}

/// The deployed files as name and content.
pub open spec fn write_pairs(inp: DeployInput) -> Seq<(Seq<char>, Seq<u8>)> {
    deploy::spec_writes(inp).map_values(|w: (Seq<char>, Seq<u8>, Seq<char>)| (w.0, w.1))
}

/// `dir` after the deployment: the files written, then the removals made.
pub open spec fn deployed_dir(inp: DeployInput, dir: Files) -> Files {
    remove_all(insert_all(dir, write_pairs(inp)), deploy::spec_removals(inp))
}

/// The backup store after the deployment.
pub open spec fn deployed_store(inp: DeployInput, store: Files) -> Files {
    insert_all(store, deploy::spec_backups(inp))
}

/// A file an earlier deployment created, that this one neither writes again
/// nor removes: the new manifest drops its record, so a restore leaves it.
pub open spec fn left_behind(inp: DeployInput, p: PrevFacts) -> bool {
    &&& !p.entry.existed_before
    &&& !deploy::payload_names(inp.files@).contains(p.entry.rel_path@)
    &&& p.current is Some
    &&& deploy::prev_orphan(inp, p) == OrphanAction::Keep
}

pub proof fn lemma_bak_injective(a: Seq<char>, b: Seq<char>)
    requires
        deploy::bak_name(a) == deploy::bak_name(b),
    ensures
        a == b,
{
    let sa = deploy::bak_name(a);
    let sb = deploy::bak_name(b);
    assert(sa.len() == a.len() + ".bak"@.len());
    assert(sb.len() == b.len() + ".bak"@.len());
    assert(a.len() == b.len());
    assert(a =~= sa.take(a.len() as int));
    assert(b =~= sb.take(b.len() as int));
}

/// The last record of `k`, when there is one, is a record of `k`.
pub proof fn lemma_last_prev(ps: Seq<PrevFacts>, k: Seq<char>)
    ensures
        (exists|j: int| 0 <= j < ps.len() && (#[trigger] ps[j]).entry.rel_path@ == k) ==> {
            &&& 0 <= deploy::last_prev(ps, k) < ps.len()
            &&& ps[deploy::last_prev(ps, k)].entry.rel_path@ == k
        },
        (forall|j: int| 0 <= j < ps.len() ==> (#[trigger] ps[j]).entry.rel_path@ != k)
            ==> deploy::last_prev(ps, k) == -1,
    decreases ps.len(),
{
    if ps.len() > 0 {
        let t = ps.drop_last();
        lemma_last_prev(t, k);
        assert(ps[ps.len() - 1] == ps.last());
        if ps.last().entry.rel_path@ != k {
            if exists|j: int| 0 <= j < ps.len() && (#[trigger] ps[j]).entry.rel_path@ == k {
                let j = choose|j: int| 0 <= j < ps.len() && (#[trigger] ps[j]).entry.rel_path@ == k;
                assert(t[j] == ps[j]);
            }
            assert forall|j: int| 0 <= j < t.len() implies t[j] == #[trigger] ps[j] by {}
        }
    }
}

/// The facts a restore reads agree for entries of one name.
proof fn lemma_facts_agree(es: Seq<EntryV>, dir: Files, store: Files)
    requires
        well_formed(es),
    ensures
        facts_agree(facts_for(es, dir, store)),
{
    let fs = facts_for(es, dir, store);
    assert forall|a: int, b: int|
        0 <= a < fs.len() && 0 <= b < fs.len() && (#[trigger] fs[a]).entry.rel_path == (
        #[trigger] fs[b]).entry.rel_path implies deploy::restore_fn()(fs[a]) == deploy::restore_fn()(
        fs[b]) by {
        assert(fs[a].entry == es[a]);
        assert(fs[b].entry == es[b]);
        assert(es[a].existed_before == es[b].existed_before);
    }
}

proof fn lemma_facts_for_entries(es: Seq<EntryV>, dir: Files, store: Files)
    ensures
        fact_entries(facts_for(es, dir, store)) == es,
{
    assert(fact_entries(facts_for(es, dir, store)) =~= es);
}

/// What a consistent previous manifest says of the original directory at
/// the name of one of its entries.
proof fn lemma_prev_entry(inp: DeployInput, dir0: Files, dir: Files, store: Files, j: int)
    requires
        well_formed(prev_entries(inp)),
        restores_to(prev_entries(inp), dir, store, dir0),
        0 <= j < deploy::prev_seq(inp).len(),
    ensures
        ({
            let e = deploy::prev_seq(inp)[j].entry@;
            let k = e.rel_path;
            &&& deploy::restorable(e) ==> {
                &&& store.dom().contains(deploy::bak_name(k))
                &&& dir0.dom().contains(k)
                &&& dir0[k] == store[deploy::bak_name(k)]
                &&& e.original_sha256 is Some ==> util::sha256_hex_of(store[deploy::bak_name(k)])
                    == e.original_sha256.unwrap()
            }
            &&& !deploy::restorable(e) ==> !dir0.dom().contains(k)
        }),
{
    let es = prev_entries(inp);
    let fs = facts_for(es, dir, store);
    lemma_facts_for_entries(es, dir, store);
    lemma_facts_agree(es, dir, store);
    lemma_restore_all(fs);
    assert(fs[j].entry == es[j]);
    assert(!deploy::backup_bad(fs[j]));
    lemma_restored_entry(dir, fs, j);
}

/// A consistent previous manifest leaves the names it does not record as
/// they are in the original directory.
proof fn lemma_prev_other(inp: DeployInput, dir0: Files, dir: Files, store: Files, k: Seq<char>)
    requires
        restores_to(prev_entries(inp), dir, store, dir0),
        forall|j: int|
            0 <= j < deploy::prev_seq(inp).len() ==> (#[trigger] deploy::prev_seq(
                inp,
            )[j]).entry.rel_path@ != k,
    ensures
        dir0.dom().contains(k) == dir.dom().contains(k),
        dir.dom().contains(k) ==> dir0[k] == dir[k],
{
    let es = prev_entries(inp);
    let fs = facts_for(es, dir, store);
    assert forall|i: int| 0 <= i < fs.len() implies (#[trigger] fs[i]).entry.rel_path != k by {
        assert(fs[i].entry == es[i]);
        assert(es[i] == deploy::prev_seq(inp)[i].entry@);
    }
    lemma_restored_other(dir, fs, k);
}

proof fn lemma_concat_contains<A>(a: Seq<A>, b: Seq<A>, x: A)
    ensures
        (a + b).contains(x) <==> a.contains(x) || b.contains(x),
{
    if (a + b).contains(x) {
        let i = choose|i: int| 0 <= i < (a + b).len() && (a + b)[i] == x;
        if i < a.len() {
            assert(a[i] == x);
        } else {
            assert(b[i - a.len()] == x);
        }
    }
    if a.contains(x) {
        let i = choose|i: int| 0 <= i < a.len() && a[i] == x;
        assert((a + b)[i] == x);
    }
    if b.contains(x) {
        let i = choose|i: int| 0 <= i < b.len() && b[i] == x;
        assert((a + b)[a.len() + i] == x);
    }
}

/// The names a deployment removes: orphans of the previous deployment and
/// the selected extra proxies.
proof fn lemma_removals(inp: DeployInput, k: Seq<char>)
    ensures
        deploy::spec_removals(inp).contains(k) <==> (exists|j: int|
            0 <= j < deploy::prev_seq(inp).len() && #[trigger] deploy::orphan_fn(inp)(
                deploy::prev_seq(inp)[j],
            ) == Some(k)) || (exists|j: int|
            0 <= j < inp.extras@.len() && #[trigger] deploy::extra_removal_fn(inp)(inp.extras@[j])
                == Some(k)),
{
    files::lemma_filter_map_members(deploy::prev_seq(inp), deploy::orphan_fn(inp));
    files::lemma_filter_map_members(inp.extras@, deploy::extra_removal_fn(inp));
    lemma_concat_contains(
        text::filter_map(deploy::prev_seq(inp), deploy::orphan_fn(inp)),
        text::filter_map(inp.extras@, deploy::extra_removal_fn(inp)),
        k,
    );
}

/// Every new backup stored under `<k>.bak` is the content of `k` in the
/// directory; one is stored exactly when `k` is a file to deploy that needs
/// a backup or a selected extra proxy.
proof fn lemma_backups(inp: DeployInput, dir: Files, k: Seq<char>)
    requires
        deploy::spec_error(inp) is None,
        forall|j: int| 0 <= j < inp.files@.len() ==> file_fact(#[trigger] inp.files@[j], dir),
        forall|j: int| 0 <= j < inp.extras@.len() ==> extra_fact(#[trigger] inp.extras@[j], dir),
    ensures
        forall|a: int|
            0 <= a < deploy::spec_backups(inp).len() && (#[trigger] deploy::spec_backups(
                inp,
            )[a]).0 == deploy::bak_name(k) ==> dir.dom().contains(k) && deploy::spec_backups(
                inp,
            )[a].1 == dir[k],
        writes_to(deploy::spec_backups(inp), deploy::bak_name(k)) <==> (exists|i: int|
            0 <= i < inp.files@.len() && #[trigger] deploy::payload_backup_fn(inp)(inp.files@[i])
                is Some && inp.files@[i].dest_name@ == k) || (exists|j: int|
            0 <= j < inp.extras@.len() && #[trigger] deploy::extra_backup_fn(inp)(inp.extras@[j])
                is Some && inp.extras@[j].name@ == k),
{
    deploy::lemma_accepted(inp);
    let fs = inp.files@;
    let xs = inp.extras@;
    let pb = text::filter_map(fs, deploy::payload_backup_fn(inp));
    let xb = text::filter_map(xs, deploy::extra_backup_fn(inp));
    let bs = deploy::spec_backups(inp);
    assert(bs == pb + xb);
    files::lemma_filter_map_members(fs, deploy::payload_backup_fn(inp));
    files::lemma_filter_map_members(xs, deploy::extra_backup_fn(inp));
    assert forall|a: int| 0 <= a < bs.len() && (#[trigger] bs[a]).0 == deploy::bak_name(k) implies dir.dom().contains(k) && bs[a].1 == dir[k] by {
        if a < pb.len() {
            assert(pb[a] == bs[a]);
            assert(pb.contains(bs[a]));
            let i = choose|i: int| 0 <= i < fs.len() && #[trigger] deploy::payload_backup_fn(inp)(fs[i]) == Some(bs[a]);
            lemma_bak_injective(fs[i].dest_name@, k);
            assert(file_fact(fs[i], dir));
        } else {
            assert(xb[a - pb.len()] == bs[a]);
            assert(xb.contains(bs[a]));
            let j = choose|j: int| 0 <= j < xs.len() && #[trigger] deploy::extra_backup_fn(inp)(xs[j]) == Some(bs[a]);
            lemma_bak_injective(xs[j].name@, k);
            assert(extra_fact(xs[j], dir));
        }
    }
    if writes_to(bs, deploy::bak_name(k)) {
        let a = choose|a: int| 0 <= a < bs.len() && (#[trigger] bs[a]).0 == deploy::bak_name(k);
        if a < pb.len() {
            assert(pb[a] == bs[a]);
            assert(pb.contains(bs[a]));
            let i = choose|i: int| 0 <= i < fs.len() && #[trigger] deploy::payload_backup_fn(inp)(fs[i]) == Some(bs[a]);
            lemma_bak_injective(fs[i].dest_name@, k);
        } else {
            assert(xb[a - pb.len()] == bs[a]);
            assert(xb.contains(bs[a]));
            let j = choose|j: int| 0 <= j < xs.len() && #[trigger] deploy::extra_backup_fn(inp)(xs[j]) == Some(bs[a]);
            lemma_bak_injective(xs[j].name@, k);
        }
    }
    if exists|i: int|
        0 <= i < fs.len() && #[trigger] deploy::payload_backup_fn(inp)(fs[i]) is Some
            && fs[i].dest_name@ == k {
        let i = choose|i: int|
            0 <= i < fs.len() && #[trigger] deploy::payload_backup_fn(inp)(fs[i]) is Some
                && fs[i].dest_name@ == k;
        let x = deploy::payload_backup_fn(inp)(fs[i]).unwrap();
        assert(pb.contains(x));
        let a = choose|a: int| 0 <= a < pb.len() && pb[a] == x;
        assert(bs[a] == x);
    }
    if exists|j: int|
        0 <= j < xs.len() && #[trigger] deploy::extra_backup_fn(inp)(xs[j]) is Some
            && xs[j].name@ == k {
        let j = choose|j: int|
            0 <= j < xs.len() && #[trigger] deploy::extra_backup_fn(inp)(xs[j]) is Some
                && xs[j].name@ == k;
        let x = deploy::extra_backup_fn(inp)(xs[j]).unwrap();
        assert(xb.contains(x));
        let a = choose|a: int| 0 <= a < xb.len() && xb[a] == x;
        assert(bs[pb.len() + a] == x);
    }
}

/// Everything the law below assumes, in one predicate.
pub open spec fn premises(inp: DeployInput, dir0: Files, dir: Files, store: Files) -> bool {
    &&& deploy::spec_error(inp) is None
    &&& facts_match(inp, dir, store)
    &&& well_formed(prev_entries(inp))
    &&& restores_to(prev_entries(inp), dir, store, dir0)
    &&& forall|j: int|
        0 <= j < deploy::prev_seq(inp).len() ==> !left_behind(
            inp,
            #[trigger] deploy::prev_seq(inp)[j],
        )
}

pub open spec fn is_prev_name(inp: DeployInput, k: Seq<char>) -> bool {
    exists|j: int|
        0 <= j < deploy::prev_seq(inp).len() && (#[trigger] deploy::prev_seq(
            inp,
        )[j]).entry.rel_path@ == k
}

/// With a consistent previous manifest, a name's last record is reused when
/// its file is deployed again, and a name is recorded exactly when some
/// entry has it.
proof fn lemma_reuse(inp: DeployInput, dir0: Files, dir: Files, store: Files, k: Seq<char>)
    requires
        premises(inp, dir0, dir, store),
    ensures
        is_prev_name(inp, k) ==> {
            &&& 0 <= deploy::reuse_idx(inp, k) < deploy::prev_seq(inp).len()
            &&& deploy::prev_seq(inp)[deploy::reuse_idx(inp, k)].entry.rel_path@ == k
        },
        deploy::recorded(inp, k) == is_prev_name(inp, k),
        !is_prev_name(inp, k) ==> deploy::reuse_idx(inp, k) == -1,
{
    let ps = deploy::prev_seq(inp);
    lemma_last_prev(ps, k);
    if is_prev_name(inp, k) {
        let j0 = choose|j: int| 0 <= j < ps.len() && (#[trigger] ps[j]).entry.rel_path@ == k;
        assert(0 <= j0 < ps.len() && ps[j0].entry.rel_path@ == k);
        let j = deploy::last_prev(ps, k);
        let e = ps[j].entry@;
        assert(prev_entries(inp)[j] == e);
        assert(prev_fact(ps[j], dir, store));
        lemma_prev_entry(inp, dir0, dir, store, j);
        if e.backup_name is Some {
            assert(deploy::restorable(e));
        }
    } else {
        assert forall|j: int| 0 <= j < ps.len() implies (#[trigger] ps[j]).entry.rel_path@ != k by {
            if ps[j].entry.rel_path@ == k {
                assert(is_prev_name(inp, k));
            }
        }
    }
}

/// The parts of the new manifest.
pub open spec fn new_payload(inp: DeployInput) -> Seq<EntryV> {
    inp.files@.map_values(deploy::payload_entry_fn(inp))
}

pub open spec fn new_extras(inp: DeployInput) -> Seq<EntryV> {
    text::filter_map(inp.extras@, deploy::extra_entry_fn(inp))
}

pub open spec fn new_carried(inp: DeployInput) -> Seq<EntryV> {
    text::filter_map(deploy::prev_seq(inp), deploy::carried_fn(inp))
}

/// What an entry of the new manifest promises about its name `k`: when it
/// is restorable, its backup holds the original content of `k`, whose hash
/// it records; otherwise `k` was not there originally. And it is well formed.
pub open spec fn entry_sound(e: EntryV, dir0: Files, store1: Files) -> bool {
    let k = e.rel_path;
    &&& e.existed_before == e.backup_name is Some
    &&& e.backup_name is Some ==> e.backup_name.unwrap() == deploy::bak_name(k)
    &&& deploy::restorable(e) ==> {
        &&& dir0.dom().contains(k)
        &&& store1.dom().contains(deploy::bak_name(k))
        &&& store1[deploy::bak_name(k)] == dir0[k]
        &&& e.original_sha256 is Some ==> util::sha256_hex_of(dir0[k]) == e.original_sha256.unwrap()
    }
    &&& !deploy::restorable(e) ==> !dir0.dom().contains(k)
}

/// When no new backup is stored under `<k>.bak`, the store keeps it.
proof fn lemma_store_keeps(inp: DeployInput, store: Files, k: Seq<char>)
    requires
        !writes_to(deploy::spec_backups(inp), deploy::bak_name(k)),
    ensures
        deployed_store(inp, store).dom().contains(deploy::bak_name(k)) == store.dom().contains(
            deploy::bak_name(k),
        ),
        store.dom().contains(deploy::bak_name(k)) ==> deployed_store(inp, store)[deploy::bak_name(
            k,
        )] == store[deploy::bak_name(k)],
{
    files::lemma_insert_all(store, deploy::spec_backups(inp), deploy::bak_name(k), Seq::empty());
}

/// When new backups are stored under `<k>.bak`, each holds `dir[k]`.
proof fn lemma_store_new(inp: DeployInput, dir: Files, store: Files, k: Seq<char>)
    requires
        deploy::spec_error(inp) is None,
        forall|j: int| 0 <= j < inp.files@.len() ==> file_fact(#[trigger] inp.files@[j], dir),
        forall|j: int| 0 <= j < inp.extras@.len() ==> extra_fact(#[trigger] inp.extras@[j], dir),
        writes_to(deploy::spec_backups(inp), deploy::bak_name(k)),
    ensures
        dir.dom().contains(k),
        deployed_store(inp, store).dom().contains(deploy::bak_name(k)),
        deployed_store(inp, store)[deploy::bak_name(k)] == dir[k],
{
    lemma_backups(inp, dir, k);
    let a = choose|a: int|
        0 <= a < deploy::spec_backups(inp).len() && (#[trigger] deploy::spec_backups(inp)[a]).0
            == deploy::bak_name(k);
    files::lemma_insert_all(store, deploy::spec_backups(inp), deploy::bak_name(k), dir[k]);
}

/// The entry of a deployed file is sound.
proof fn lemma_payload_sound(inp: DeployInput, dir0: Files, dir: Files, store: Files, i: int)
    requires
        premises(inp, dir0, dir, store),
        0 <= i < inp.files@.len(),
    ensures
        entry_sound(new_payload(inp)[i], dir0, deployed_store(inp, store)),
        new_payload(inp)[i].rel_path == inp.files@[i].dest_name@,
{
    let fs = inp.files@;
    let f = fs[i];
    let k = f.dest_name@;
    let e = new_payload(inp)[i];
    let ps = deploy::prev_seq(inp);
    assert(e == deploy::payload_entry(inp, f));
    deploy::lemma_accepted(inp);
    lemma_reuse(inp, dir0, dir, store, k);
    lemma_backups(inp, dir, k);
    assert(file_fact(f, dir));
    if is_prev_name(inp, k) {
        let j = deploy::reuse_idx(inp, k);
        lemma_prev_entry(inp, dir0, dir, store, j);
        assert(prev_entries(inp)[j] == ps[j].entry@);
        assert(well_formed(prev_entries(inp)));
        // no new backup of k: every file of that name reuses its record, and
        // no extra of that name is selected
        assert forall|i2: int|
            0 <= i2 < fs.len() && #[trigger] deploy::payload_backup_fn(inp)(fs[i2]) is Some implies fs[i2].dest_name@ != k by {}
        lemma_store_keeps(inp, store, k);
    } else {
        lemma_prev_other(inp, dir0, dir, store, k);
        if f.dst_present {
            assert(deploy::payload_backup_fn(inp)(fs[i]) is Some);
            lemma_store_new(inp, dir, store, k);
        }
    }
}

/// The entry of a removed extra proxy is sound.
proof fn lemma_extra_sound(inp: DeployInput, dir0: Files, dir: Files, store: Files, j: int)
    requires
        premises(inp, dir0, dir, store),
        0 <= j < inp.extras@.len(),
        deploy::extra_selected(inp, inp.extras@[j]),
    ensures
        entry_sound(deploy::extra_entry(inp.extras@[j]), dir0, deployed_store(inp, store)),
{
    let x = inp.extras@[j];
    let k = x.name@;
    deploy::lemma_accepted(inp);
    lemma_reuse(inp, dir0, dir, store, k);
    lemma_prev_other(inp, dir0, dir, store, k);
    assert(extra_fact(x, dir));
    assert(deploy::extra_backup_fn(inp)(inp.extras@[j]) is Some);
    lemma_backups(inp, dir, k);
    lemma_store_new(inp, dir, store, k);
}

/// A carried entry of the previous manifest is sound.
proof fn lemma_carried_sound(inp: DeployInput, dir0: Files, dir: Files, store: Files, j: int)
    requires
        premises(inp, dir0, dir, store),
        0 <= j < deploy::prev_seq(inp).len(),
        deploy::carried(inp, deploy::prev_seq(inp)[j]),
    ensures
        entry_sound(deploy::prev_seq(inp)[j].entry@, dir0, deployed_store(inp, store)),
{
    let ps = deploy::prev_seq(inp);
    let k = ps[j].entry.rel_path@;
    let fs = inp.files@;
    deploy::lemma_accepted(inp);
    lemma_reuse(inp, dir0, dir, store, k);
    lemma_prev_entry(inp, dir0, dir, store, j);
    assert(prev_entries(inp)[j] == ps[j].entry@);
    assert(well_formed(prev_entries(inp)));
    lemma_backups(inp, dir, k);
    assert forall|i2: int|
        0 <= i2 < fs.len() && #[trigger] deploy::payload_backup_fn(inp)(fs[i2]) is Some implies fs[i2].dest_name@ != k by {
        if fs[i2].dest_name@ == k {
            assert(deploy::payload_names(fs)[i2] == k);
        }
    }
    lemma_store_keeps(inp, store, k);
}

/// Where the entries of the new manifest come from.
proof fn lemma_new_members(inp: DeployInput)
    ensures
        forall|a: int|
            #![trigger new_extras(inp)[a]]
            0 <= a < new_extras(inp).len() ==> exists|j: int|
                0 <= j < inp.extras@.len() && #[trigger] deploy::extra_entry_fn(inp)(inp.extras@[j])
                    == Some(new_extras(inp)[a]),
        forall|a: int|
            #![trigger new_carried(inp)[a]]
            0 <= a < new_carried(inp).len() ==> exists|j: int|
                0 <= j < deploy::prev_seq(inp).len() && #[trigger] deploy::carried_fn(inp)(
                    deploy::prev_seq(inp)[j],
                ) == Some(new_carried(inp)[a]),
{
    files::lemma_filter_map_members(inp.extras@, deploy::extra_entry_fn(inp));
    files::lemma_filter_map_members(deploy::prev_seq(inp), deploy::carried_fn(inp));
    assert forall|a: int| #![trigger new_extras(inp)[a]] 0 <= a < new_extras(inp).len() implies exists|j: int|
        0 <= j < inp.extras@.len() && #[trigger] deploy::extra_entry_fn(inp)(inp.extras@[j]) == Some(
            new_extras(inp)[a],
        ) by {
        assert(new_extras(inp).contains(new_extras(inp)[a]));
    }
    assert forall|a: int| #![trigger new_carried(inp)[a]] 0 <= a < new_carried(inp).len() implies exists|j: int|
        0 <= j < deploy::prev_seq(inp).len() && #[trigger] deploy::carried_fn(inp)(
            deploy::prev_seq(inp)[j],
        ) == Some(new_carried(inp)[a]) by {
        assert(new_carried(inp).contains(new_carried(inp)[a]));
    }
}

/// The new manifest's entries of one name agree, and each is sound.
proof fn lemma_new_entries(inp: DeployInput, dir0: Files, dir: Files, store: Files)
    requires
        premises(inp, dir0, dir, store),
    ensures
        agree(deploy::spec_entries(inp)),
        forall|a: int|
            0 <= a < deploy::spec_entries(inp).len() ==> entry_sound(
                #[trigger] deploy::spec_entries(inp)[a],
                dir0,
                deployed_store(inp, store),
            ),
{
    let fs = inp.files@;
    let xs = inp.extras@;
    let ps = deploy::prev_seq(inp);
    let p1 = new_payload(inp);
    let x1 = new_extras(inp);
    let c1 = new_carried(inp);
    let e1 = deploy::spec_entries(inp);
    let store1 = deployed_store(inp, store);
    assert(e1 == p1 + x1 + c1);
    lemma_new_members(inp);
    // payload entries
    assert forall|i: int| 0 <= i < p1.len() implies entry_sound(#[trigger] p1[i], dir0, store1)
        && p1[i].rel_path == fs[i].dest_name@ by {
        lemma_payload_sound(inp, dir0, dir, store, i);
    }
    assert forall|a: int| 0 <= a < x1.len() implies entry_sound(#[trigger] x1[a], dir0, store1)
        by {
        let j = choose|j: int|
            0 <= j < xs.len() && #[trigger] deploy::extra_entry_fn(inp)(xs[j]) == Some(x1[a]);
        lemma_extra_sound(inp, dir0, dir, store, j);
    }
    assert forall|a: int| 0 <= a < c1.len() implies entry_sound(#[trigger] c1[a], dir0, store1)
        by {
        let j = choose|j: int|
            0 <= j < ps.len() && #[trigger] deploy::carried_fn(inp)(ps[j]) == Some(c1[a]);
        lemma_carried_sound(inp, dir0, dir, store, j);
    }
    assert forall|a: int| 0 <= a < e1.len() implies entry_sound(#[trigger] e1[a], dir0, store1) by {
        if a < p1.len() {
            assert(e1[a] == p1[a]);
        } else if a < p1.len() + x1.len() {
            assert(e1[a] == x1[a - p1.len()]);
        } else {
            assert(e1[a] == c1[a - p1.len() - x1.len()]);
        }
    }
    // entries after the deployed files had an original and have a name
    // not deployed
    assert forall|a: int| p1.len() <= a < e1.len() implies (#[trigger] e1[a]).existed_before
        && !deploy::payload_names(fs).contains(e1[a].rel_path) by {
        if a < p1.len() + x1.len() {
            let b = a - p1.len();
            assert(e1[a] == x1[b]);
            let j = choose|j: int|
                0 <= j < xs.len() && #[trigger] deploy::extra_entry_fn(inp)(xs[j]) == Some(x1[b]);
        } else {
            let b = a - p1.len() - x1.len();
            assert(e1[a] == c1[b]);
            let j = choose|j: int|
                0 <= j < ps.len() && #[trigger] deploy::carried_fn(inp)(ps[j]) == Some(c1[b]);
        }
    }
    assert forall|a: int, b: int|
        0 <= a < e1.len() && 0 <= b < e1.len() && (#[trigger] e1[a]).rel_path == (
        #[trigger] e1[b]).rel_path implies e1[a].existed_before == e1[b].existed_before by {
        if a < p1.len() && b < p1.len() {
            assert(e1[a] == p1[a] && e1[b] == p1[b]);
            let k = fs[a].dest_name@;
            assert(file_fact(fs[a], dir) && file_fact(fs[b], dir));
            assert(p1[a] == deploy::payload_entry(inp, fs[a]));
            assert(p1[b] == deploy::payload_entry(inp, fs[b]));
        } else if a < p1.len() {
            assert(e1[a] == p1[a]);
            assert(deploy::payload_names(fs)[a] == fs[a].dest_name@);
        } else if b < p1.len() {
            assert(e1[b] == p1[b]);
            assert(deploy::payload_names(fs)[b] == fs[b].dest_name@);
        }
    }
}

/// Outside the new manifest's names, the directory after the deployment is
/// as it originally was.
proof fn lemma_unrecorded(inp: DeployInput, dir0: Files, dir: Files, store: Files, k: Seq<char>)
    requires
        premises(inp, dir0, dir, store),
        forall|a: int|
            0 <= a < deploy::spec_entries(inp).len() ==> (#[trigger] deploy::spec_entries(
                inp,
            )[a]).rel_path != k,
    ensures
        deployed_dir(inp, dir).dom().contains(k) == dir0.dom().contains(k),
        dir0.dom().contains(k) ==> deployed_dir(inp, dir)[k] == dir0[k],
{
    let fs = inp.files@;
    let xs = inp.extras@;
    let ps = deploy::prev_seq(inp);
    let p1 = new_payload(inp);
    let x1 = new_extras(inp);
    let c1 = new_carried(inp);
    let e1 = deploy::spec_entries(inp);
    let w = write_pairs(inp);
    let rm = deploy::spec_removals(inp);
    assert(e1 == p1 + x1 + c1);
    // no file of that name is deployed
    assert forall|i: int| 0 <= i < fs.len() implies (#[trigger] fs[i]).dest_name@ != k by {
        lemma_payload_sound(inp, dir0, dir, store, i);
        assert(e1[i] == p1[i]);
    }
    if writes_to(w, k) {
        let a = choose|a: int| 0 <= a < w.len() && (#[trigger] w[a]).0 == k;
        assert(w[a].0 == fs[a].dest_name@);
    }
    files::lemma_insert_all(dir, w, k, Seq::empty());
    files::lemma_remove_all(insert_all(dir, w), rm, k);
    files::lemma_filter_map_members(xs, deploy::extra_entry_fn(inp));
    files::lemma_filter_map_members(ps, deploy::carried_fn(inp));
    // no extra of that name is selected
    assert forall|j: int| 0 <= j < xs.len() && (#[trigger] xs[j]).name@ == k implies !deploy::extra_selected(inp, xs[j]) by {
        if deploy::extra_selected(inp, xs[j]) {
            let x = deploy::extra_entry(xs[j]);
            assert(deploy::extra_entry_fn(inp)(xs[j]) == Some(x));
            assert(x1.contains(x));
            let a = choose|a: int| 0 <= a < x1.len() && x1[a] == x;
            assert(e1[p1.len() + a] == x);
        }
    }
    lemma_removals(inp, k);
    lemma_reuse(inp, dir0, dir, store, k);
    if is_prev_name(inp, k) {
        let j = choose|j: int| 0 <= j < ps.len() && (#[trigger] ps[j]).entry.rel_path@ == k;
        assert(prev_entries(inp)[j] == ps[j].entry@);
        assert(well_formed(prev_entries(inp)));
        if deploy::carried(inp, ps[j]) {
            let x = ps[j].entry@;
            assert(deploy::carried_fn(inp)(ps[j]) == Some(x));
            assert(c1.contains(x));
            let a = choose|a: int| 0 <= a < c1.len() && c1[a] == x;
            assert(e1[p1.len() + x1.len() + a] == x);
        }
        assert(!deploy::payload_names(fs).contains(k));
        lemma_prev_entry(inp, dir0, dir, store, j);
        assert(!left_behind(inp, ps[j]));
        assert(prev_fact(ps[j], dir, store));
        if deploy::prev_orphan(inp, ps[j]) != OrphanAction::Keep {
            assert(deploy::orphan_fn(inp)(ps[j]) == Some(k));
        }
    } else {
        lemma_prev_other(inp, dir0, dir, store, k);
        if rm.contains(k) {
            if exists|j: int| 0 <= j < ps.len() && #[trigger] deploy::orphan_fn(inp)(ps[j]) == Some(k) {
                let j = choose|j: int| 0 <= j < ps.len() && #[trigger] deploy::orphan_fn(inp)(ps[j]) == Some(k);
                assert(ps[j].entry.rel_path@ == k);
            }
            if exists|j: int| 0 <= j < xs.len() && #[trigger] deploy::extra_removal_fn(inp)(xs[j]) == Some(k) {
                let j = choose|j: int| 0 <= j < xs.len() && #[trigger] deploy::extra_removal_fn(inp)(xs[j]) == Some(k);
                assert(xs[j].name@ == k);
            }
        }
    }
}

/// A redeployment keeps the first backup: a file deployed again whose name
/// the previous manifest records takes over that record (whether there was
/// an original, its backup's name and its hash), and the backup store keeps
/// what it held under that backup name — the original is never replaced by
/// a copy of an earlier deployment.
pub proof fn law_redeploy_keeps_first_backup(
    inp: DeployInput,
    dir0: Files,
    dir: Files,
    store: Files,
    i: int,
)
    requires
        premises(inp, dir0, dir, store),
        0 <= i < inp.files@.len(),
        is_prev_name(inp, inp.files@[i].dest_name@),
    ensures
        ({
            let k = inp.files@[i].dest_name@;
            let p = deploy::prev_seq(inp)[deploy::reuse_idx(inp, k)].entry@;
            let e = new_payload(inp)[i];
            let b = deploy::bak_name(k);
            &&& 0 <= deploy::reuse_idx(inp, k) < deploy::prev_seq(inp).len()
            &&& e.existed_before == p.existed_before
            &&& e.backup_name == p.backup_name
            &&& e.original_sha256 == p.original_sha256
            &&& deployed_store(inp, store).dom().contains(b) == store.dom().contains(b)
            &&& store.dom().contains(b) ==> deployed_store(inp, store)[b] == store[b]
        }),
{
    let fs = inp.files@;
    let k = fs[i].dest_name@;
    deploy::lemma_accepted(inp);
    lemma_reuse(inp, dir0, dir, store, k);
    lemma_backups(inp, dir, k);
    assert(new_payload(inp)[i] == deploy::payload_entry(inp, fs[i]));
    assert forall|i2: int|
        0 <= i2 < fs.len() && #[trigger] deploy::payload_backup_fn(inp)(fs[i2]) is Some implies fs[i2].dest_name@ != k by {}
    lemma_store_keeps(inp, store, k);
}

/// Restoring right after a deployment gives back the game directory as it
/// was before this tool first wrote to it, and the new manifest again has
/// entries of one name that agree, each with a backup exactly when there
/// was an original. A name listed twice in one deployment is fine: both
/// records back up the same original.
///
/// `dir` and `store` are the directory and the backup store when the
/// deployment is planned, and the input's facts are true of them; `dir0` is
/// the directory as it was before this tool first wrote to it, which
/// restoring the previous manifest (if any) gives back. With no previous
/// manifest that is `dir` itself (see [`law_first_deploy`]).
///
/// The one case left out: a file an earlier deployment created (there was
/// nothing there before) that this deployment neither writes again nor
/// removes — a configuration file left out of a redeployment, say. The new
/// manifest no longer records it, so restoring leaves it in place.
pub proof fn law_restore_after_deploy(inp: DeployInput, dir0: Files, dir: Files, store: Files)
    requires
        deploy::spec_error(inp) is None,
        facts_match(inp, dir, store),
        well_formed(prev_entries(inp)),
        restores_to(prev_entries(inp), dir, store, dir0),
        forall|j: int|
            0 <= j < deploy::prev_seq(inp).len() ==> !left_behind(
                inp,
                #[trigger] deploy::prev_seq(inp)[j],
            ),
    ensures
        well_formed(deploy::spec_entries(inp)),
        restores_to(
            deploy::spec_entries(inp),
            deployed_dir(inp, dir),
            deployed_store(inp, store),
            dir0,
        ),
{
    let e1 = deploy::spec_entries(inp);
    let dir1 = deployed_dir(inp, dir);
    let store1 = deployed_store(inp, store);
    let f1 = facts_for(e1, dir1, store1);
    lemma_new_entries(inp, dir0, dir, store);
    lemma_facts_for_entries(e1, dir1, store1);
    lemma_facts_agree(e1, dir1, store1);
    assert forall|a: int| 0 <= a < f1.len() implies !deploy::backup_bad(#[trigger] f1[a]) by {
        assert(f1[a].entry == e1[a]);
        assert(entry_sound(e1[a], dir0, store1));
    }
    assert forall|a: int| 0 <= a < f1.len() implies !#[trigger] deploy::bad_fn(f1)(a) by {
        assert(!deploy::backup_bad(f1[a]));
    }
    deploy::lemma_first_from(0, f1.len() as int, deploy::bad_fn(f1), f1.len() as int);
    assert(deploy::restore_error(f1) is None);
    assert forall|k: Seq<char>| #![trigger dir0.dom().contains(k)] #![trigger restored(dir1, f1).dom().contains(k)]
        (restored(dir1, f1).dom().contains(k) == dir0.dom().contains(k)) && (dir0.dom().contains(k)
            ==> restored(dir1, f1)[k] == dir0[k]) by {
        if exists|a: int| 0 <= a < e1.len() && (#[trigger] e1[a]).rel_path == k {
            let a = choose|a: int| 0 <= a < e1.len() && (#[trigger] e1[a]).rel_path == k;
            assert(f1[a].entry == e1[a]);
            assert(entry_sound(e1[a], dir0, store1));
            lemma_restored_entry(dir1, f1, a);
        } else {
            assert forall|a: int| 0 <= a < f1.len() implies (#[trigger] f1[a]).entry.rel_path != k by {
                assert(f1[a].entry == e1[a]);
            }
            lemma_restored_other(dir1, f1, k);
            lemma_unrecorded(inp, dir0, dir, store, k);
        }
    }
    assert(restored(dir1, f1) =~= dir0);
}

/// Restoring right after a first deployment (no manifest yet) gives back
/// the directory exactly as it was.
pub proof fn law_first_deploy(inp: DeployInput, dir: Files, store: Files)
    requires
        deploy::spec_error(inp) is None,
        inp.prev is None,
        facts_match(inp, dir, store),
    ensures
        well_formed(deploy::spec_entries(inp)),
        restores_to(
            deploy::spec_entries(inp),
            deployed_dir(inp, dir),
            deployed_store(inp, store),
            dir,
        ),
{
    let e0 = prev_entries(inp);
    assert(e0 =~= Seq::<EntryV>::empty());
    let f0 = facts_for(e0, dir, store);
    assert(f0 =~= Seq::<RestoreFactV>::empty());
    assert(deploy::restore_removals(f0) =~= Seq::<Seq<char>>::empty());
    assert(deploy::restore_stop(f0) == 0);
    assert(f0.take(0) =~= Seq::<RestoreFactV>::empty());
    assert(deploy::restore_writes(f0) =~= Seq::<(Seq<char>, Seq<u8>)>::empty());
    assert(restored(dir, f0) =~= dir);
    law_restore_after_deploy(inp, dir, dir, store);
}

} // verus!

//! The parts of a PE file this tool reads: the DLLs it imports (normal and
//! delay-loaded), and its certificate table, which says who signed it.
//! Both work on the file's bytes; offsets are those of the file.

use vstd::prelude::*;
use crate::scan::FileIdentity;
use crate::text;

verus! {

// ------------------------------------------------------------ little-endian fields

pub open spec fn u16_at(d: Seq<u8>, o: int) -> int {
    d[o] as int + 256 * (d[o + 1] as int)
}

pub open spec fn u32_at(d: Seq<u8>, o: int) -> int {
    u16_at(d, o) + 65536 * u16_at(d, o + 2)
}

pub fn rd_u16(d: &[u8], o: usize) -> (r: u16)
    requires
        o + 2 <= d@.len(),
    ensures
        r == u16_at(d@, o as int),
{
    (d[o] as u16) + (d[o + 1] as u16) * 256
}

pub fn rd_u32(d: &[u8], o: usize) -> (r: u32)
    requires
        o + 4 <= d@.len(),
    ensures
        r == u32_at(d@, o as int),
{
    (d[o] as u32) + (d[o + 1] as u32) * 256 + (d[o + 2] as u32) * 65536 + (d[o + 3] as u32)
        * 16777216
}

// ------------------------------------------------------------ headers

/// Where the headers of a PE file are: the optional header starts at `h`,
/// `sopt` bytes long, followed by `nsec` section headers of 40 bytes; its
/// data directories start `dd` bytes in.
pub struct Layout {
    pub h: int,
    pub sopt: int,
    pub nsec: int,
    pub dd: int,
}

/// The layout of a PE file, when its headers are sound: `MZ`, the `PE`
/// signature where `e_lfanew` says, 1 to 96 sections, a non-empty optional
/// header of a known magic (PE32+ or PE32), and all of it inside the file.
pub open spec fn pe_layout(d: Seq<u8>) -> Option<Layout> {
    if d.len() < 64 || d[0] != 0x4Du8 || d[1] != 0x5Au8 {
        None
    } else {
        let e = u32_at(d, 0x3C);
        if e + 24 > d.len() {
            None
        } else if d[e] != 0x50u8 || d[e + 1] != 0x45u8 || d[e + 2] != 0u8 || d[e + 3] != 0u8 {
            None
        } else {
            let nsec = u16_at(d, e + 6);
            let sopt = u16_at(d, e + 20);
            let h = e + 24;
            if sopt == 0 || nsec == 0 || nsec > 96 || h + sopt + nsec * 40 > d.len() {
                None
            } else {
                let magic = u16_at(d, h);
                let dd = if magic == 0x20B {
                    112int
                } else if magic == 0x10B {
                    96int
                } else {
                    -1int
                };
                if dd < 0 || dd + 16 > sopt + nsec * 40 {
                    None
                } else {
                    Some(Layout { h, sopt, nsec, dd })
                }
            }
        }
    }
}

/// A field of section header `i`.
pub open spec fn sec_field(d: Seq<u8>, l: Layout, i: int, f: int) -> int {
    u32_at(d, l.h + l.sopt + i * 40 + f)
}

/// The file offset of an RVA, by the first section from `i` on that holds
/// it (its span is the larger of its virtual and raw sizes).
pub open spec fn rva_from(d: Seq<u8>, l: Layout, rva: int, i: int) -> Option<int>
    decreases l.nsec - i,
{
    if i < 0 || i >= l.nsec {
        None
    } else {
        let vsize = sec_field(d, l, i, 8);
        let vaddr = sec_field(d, l, i, 12);
        let raw_size = sec_field(d, l, i, 16);
        let data_ptr = sec_field(d, l, i, 20);
        let span = if vsize >= raw_size {
            vsize
        } else {
            raw_size
        };
        if rva >= vaddr && rva - vaddr < span {
            Some(data_ptr + (rva - vaddr))
        } else {
            rva_from(d, l, rva, i + 1)
        }
    }
}

pub open spec fn rva_to_off(d: Seq<u8>, l: Layout, rva: int) -> Option<int> {
    rva_from(d, l, rva, 0)
}

/// The exec form of [`Layout`].
pub struct LayoutX {
    pub h: usize,
    pub sopt: usize,
    pub nsec: usize,
    pub dd: usize,
}

pub open spec fn lx(l: LayoutX) -> Layout {
    Layout { h: l.h as int, sopt: l.sopt as int, nsec: l.nsec as int, dd: l.dd as int }
}

fn layout(d: &[u8]) -> (r: Option<LayoutX>)
    ensures
        match r {
            Some(l) => {
                &&& pe_layout(d@) == Some(lx(l))
                &&& l.nsec <= 96
                &&& l.sopt < 65536
                &&& l.h + l.sopt + l.nsec * 40 <= d@.len()
                &&& l.dd + 16 <= l.sopt + l.nsec * 40
            },
            None => pe_layout(d@) is None,
        },
{
    if d.len() < 64 || d[0] != 0x4Du8 || d[1] != 0x5Au8 {
        return None;
    }
    let e = rd_u32(d, 0x3C) as usize;
    if e as u64 + 24 > d.len() as u64 {
        return None;
    }
    if d[e] != 0x50u8 || d[e + 1] != 0x45u8 || d[e + 2] != 0u8 || d[e + 3] != 0u8 {
        return None;
    }
    let nsec = rd_u16(d, e + 6) as usize;
    let sopt = rd_u16(d, e + 20) as usize;
    let h = e + 24;
    if sopt == 0 || nsec == 0 || nsec > 96 || (h as u64) + (sopt as u64) + (nsec as u64) * 40
        > d.len() as u64 {
        return None;
    }
    let magic = rd_u16(d, h);
    let dd: usize = if magic == 0x20B {
        112
    } else if magic == 0x10B {
        96
    } else {
        return None;
    };
    if dd + 16 > sopt + nsec * 40 {
        return None;
    }
    Some(LayoutX { h, sopt, nsec, dd })
}

fn rva_to_off_exec(d: &[u8], l: &LayoutX, rva: u32) -> (r: Option<u64>)
    requires
        l.h + l.sopt + l.nsec * 40 <= d@.len(),
    ensures
        match r {
            Some(o) => rva_to_off(d@, lx(*l), rva as int) == Some(o as int) && o < 0x2_0000_0000,
            None => rva_to_off(d@, lx(*l), rva as int) is None,
        },
{
    let mut i: usize = 0;
    while i < l.nsec
        invariant
            i <= l.nsec,
            l.h + l.sopt + l.nsec * 40 <= d@.len(),
            rva_to_off(d@, lx(*l), rva as int) == rva_from(d@, lx(*l), rva as int, i as int),
        decreases l.nsec - i,
    {
        assert(i * 40 + 40 <= l.nsec * 40) by (nonlinear_arith)
            requires
                i < l.nsec,
        ;
        assert(l.h + l.sopt + i * 40 + 40 <= d.len());
        let base = l.h + l.sopt + i * 40;
        let vsize = rd_u32(d, base + 8);
        let vaddr = rd_u32(d, base + 12);
        let raw_size = rd_u32(d, base + 16);
        let data_ptr = rd_u32(d, base + 20);
        let span = if vsize >= raw_size {
            vsize
        } else {
            raw_size
        };
        if rva >= vaddr && rva - vaddr < span {
            return Some(data_ptr as u64 + (rva - vaddr) as u64);
        }
        i += 1;
    }
    None
}

// ------------------------------------------------------------ import names

pub open spec fn all_zero(s: Seq<u8>) -> bool {
    forall|i: int| 0 <= i < s.len() ==> s[i] == 0
}

/// The bytes of a NUL-terminated name at `off` (at most 260, fewer at the
/// end of the file).
pub open spec fn cstr_from(d: Seq<u8>, off: int, k: int) -> Seq<u8>
    decreases 260 - k,
{
    if k >= 260 || off + k < 0 || off + k >= d.len() || d[off + k] == 0 {
        Seq::empty()
    } else {
        seq![d[off + k]] + cstr_from(d, off, k + 1)
    }
}

/// A name's bytes as text: lower case, when they are valid UTF-8.
pub open spec fn name_text(b: Seq<u8>) -> Option<Seq<char>> {
    if b.len() > 0 && vstd::utf8::valid_utf8(b) {
        Some(text::ascii_lower(vstd::utf8::decode_utf8(b)))
    } else {
        None
    }
}

/// The DLL names of an import descriptor table, from entry `k` (of at most
/// 512) at file offset `off`: the table ends at an all-zero entry or where
/// the file ends; an entry whose name cannot be found or read adds nothing.
pub open spec fn names_from(d: Seq<u8>, l: Layout, off: int, esize: int, noff: int, k: int) -> Seq<
    Seq<char>,
>
    decreases 512 - k,
{
    if k >= 512 || off < 0 || esize <= 0 || off + esize > d.len() || all_zero(
        d.subrange(off, off + esize),
    ) {
        Seq::empty()
    } else {
        let nrva = u32_at(d, off + noff);
        let nm = if nrva != 0 {
            match rva_to_off(d, l, nrva) {
                Some(no) => name_text(cstr_from(d, no, 0)),
                None => None,
            }
        } else {
            None
        };
        let rest = names_from(d, l, off + esize, esize, noff, k + 1);
        match nm {
            Some(n) => seq![n] + rest,
            None => rest,
        }
    }
}

/// The names of the import table at `dir_rva`.
pub open spec fn table_names(d: Seq<u8>, l: Layout, dir_rva: int, esize: int, noff: int) -> Seq<
    Seq<char>,
> {
    match rva_to_off(d, l, dir_rva) {
        Some(o) => names_from(d, l, o, esize, noff, 0),
        None => Seq::empty(),
    }
}

/// The names of the delay-load table, when there is one whose descriptors
/// hold RVAs (bit 0 of their attributes).
pub open spec fn delay_names(d: Seq<u8>, l: Layout) -> Seq<Seq<char>> {
    let ddo = l.dd + 13 * 8;
    if ddo + 8 > l.sopt + l.nsec * 40 {
        Seq::empty()
    } else {
        let drva = u32_at(d, l.h + ddo);
        if drva == 0 {
            Seq::empty()
        } else {
            match rva_to_off(d, l, drva) {
                Some(doff) => if doff + 4 <= d.len() && u32_at(d, doff) % 2 == 1 {
                    table_names(d, l, drva, 32, 4)
                } else {
                    Seq::empty()
                },
                None => Seq::empty(),
            }
        }
    }
}

/// Every DLL name the import table and the delay-load table list, in file
/// order; empty for anything that is not a sound PE file.
pub open spec fn raw_imports(d: Seq<u8>) -> Seq<Seq<char>> {
    match pe_layout(d) {
        Some(l) => {
            let irva = u32_at(d, l.h + l.dd + 8);
            if irva == 0 {
                Seq::empty()
            } else {
                table_names(d, l, irva, 20, 12) + delay_names(d, l)
            }
        },
        None => Seq::empty(),
    }
}

/// Strictly increasing in character order.
pub open spec fn strictly_sorted(s: Seq<Seq<char>>) -> bool {
    forall|i: int, j: int| 0 <= i < j < s.len() ==> crate::scan::seq_lt(s[i], s[j])
}

/// The DLLs a PE file imports (normal and delay-loaded), lower case, each
/// once, in ascending order: `r` lists exactly the names of
/// [`raw_imports`].
pub open spec fn imports_are(d: Seq<u8>, r: Seq<Seq<char>>) -> bool {
    &&& strictly_sorted(r)
    &&& r.to_set() == raw_imports(d).to_set()
}

/// The UTF-8 text of `bytes`, when they are valid UTF-8.
///
/// Trusted: calls `std::str::from_utf8`, which std documents as returning
/// the text exactly when the bytes are valid UTF-8; the contract states
/// that with vstd's `valid_utf8` and `decode_utf8`.
#[verifier::external_body]
fn utf8_text(bytes: &[u8]) -> (r: Option<String>)
    ensures
        r is Some <==> vstd::utf8::valid_utf8(bytes@),
        r is Some ==> r.unwrap()@ == vstd::utf8::decode_utf8(bytes@),
{
    match std::str::from_utf8(bytes) {
        Ok(s) => Some(s.to_string()),
        Err(_) => None,
    }
}

fn cstr_exec(d: &[u8], off: u64) -> (r: Vec<u8>)
    requires
        off < 0x2_0000_0000,
    ensures
        r@ == cstr_from(d@, off as int, 0),
{
    let mut out: Vec<u8> = Vec::new();
    let mut k: u64 = 0;
    while k < 260 && off + k < d.len() as u64 && d[(off + k) as usize] != 0
        invariant
            k <= 260,
            off < 0x2_0000_0000,
            out@ + cstr_from(d@, off as int, k as int) == cstr_from(d@, off as int, 0),
        decreases 260 - k,
    {
        let ghost before = out@;
        out.push(d[(off + k) as usize]);
        proof {
            assert(out@ + cstr_from(d@, off as int, k + 1) =~= before + cstr_from(
                d@,
                off as int,
                k as int,
            ));
        }
        k += 1;
    }
    assert(cstr_from(d@, off as int, k as int) =~= Seq::<u8>::empty());
    assert(out@ =~= out@ + cstr_from(d@, off as int, k as int));
    out
}

fn name_text_exec(b: &Vec<u8>) -> (r: Option<Vec<char>>)
    ensures
        match r {
            Some(n) => name_text(b@) == Some(n@),
            None => name_text(b@) is None,
        },
{
    if b.len() == 0 {
        return None;
    }
    match utf8_text(b.as_slice()) {
        Some(s) => {
            let v = text::chars_of(s.as_str());
            Some(text::lower_vec(&v))
        },
        None => None,
    }
}

fn all_zero_exec(d: &[u8], off: usize, n: usize) -> (r: bool)
    requires
        off + n <= d@.len(),
    ensures
        r == all_zero(d@.subrange(off as int, off + n)),
{
    let mut i: usize = 0;
    while i < n
        invariant
            i <= n,
            off + n <= d@.len(),
            forall|j: int| off <= j < off + i ==> #[trigger] d@[j] == 0,
        decreases n - i,
    {
        assert(off + i < d.len());
        if d[off + i] != 0 {
            assert(d@.subrange(off as int, off + n)[i as int] != 0);
            return false;
        }
        i += 1;
    }
    assert forall|j: int| 0 <= j < n implies #[trigger] d@.subrange(off as int, off + n)[j] == 0 by {
        assert(d@.subrange(off as int, off + n)[j] == d@[off + j]);
    }
    true
}

fn table_names_exec(
    d: &[u8],
    l: &LayoutX,
    dir_rva: u32,
    esize: usize,
    noff: usize,
    out: &mut Vec<Vec<char>>,
)
    requires
        l.h + l.sopt + l.nsec * 40 <= d@.len(),
        0 < esize <= 32,
        noff + 4 <= esize,
    ensures
        text::vviews(final(out)@) == text::vviews(old(out)@) + table_names(
            d@,
            lx(*l),
            dir_rva as int,
            esize as int,
            noff as int,
        ),
{
    let ghost o0 = text::vviews(out@);
    let start = match rva_to_off_exec(d, l, dir_rva) {
        Some(o) => o,
        None => {
            assert(o0 + Seq::<Seq<char>>::empty() =~= o0);
            return;
        },
    };
    let mut off: u64 = start;
    let mut k: usize = 0;
    let mut stop = false;
    let ghost ll = lx(*l);
    while k < 512 && !stop
        invariant
            k <= 512,
            ll == lx(*l),
            l.h + l.sopt + l.nsec * 40 <= d@.len(),
            0 < esize <= 32,
            noff + 4 <= esize,
            off <= start + k * 32,
            start < 0x2_0000_0000,
            stop ==> names_from(d@, ll, off as int, esize as int, noff as int, k as int)
                =~= Seq::<Seq<char>>::empty(),
            text::vviews(out@) + names_from(d@, ll, off as int, esize as int, noff as int, k as int)
                == o0 + names_from(d@, ll, start as int, esize as int, noff as int, 0),
        decreases 1024 - 2 * k - (if stop {
            1int
        } else {
            0int
        }),
    {
        let ghost before = text::vviews(out@);
        if off + esize as u64 > d.len() as u64 {
            stop = true;
        } else {
            let o = off as usize;
            if all_zero_exec(d, o, esize) {
                stop = true;
            } else {
                let nrva = rd_u32(d, o + noff);
                let mut nm: Option<Vec<char>> = None;
                if nrva != 0 {
                    match rva_to_off_exec(d, l, nrva) {
                        Some(no) => {
                            let b = cstr_exec(d, no);
                            nm = name_text_exec(&b);
                        },
                        None => {},
                    }
                }
                let ghost rest = names_from(d@, ll, off + esize, esize as int, noff as int, k + 1);
                match nm {
                    Some(n) => {
                        out.push(n);
                        proof {
                            assert(text::vviews(out@) + rest =~= before + names_from(
                                d@,
                                ll,
                                off as int,
                                esize as int,
                                noff as int,
                                k as int,
                            ));
                        }
                    },
                    None => {},
                }
                off = off + esize as u64;
                k += 1;
            }
        }
    }
    proof {
        let now = names_from(d@, ll, off as int, esize as int, noff as int, k as int);
        assert(now =~= Seq::<Seq<char>>::empty());
        assert(text::vviews(out@) =~= text::vviews(out@) + now);
    }
}

pub fn insert_sorted(v: &mut Vec<Vec<char>>, x: Vec<char>)
    requires
        strictly_sorted(text::vviews(old(v)@)),
    ensures
        strictly_sorted(text::vviews(final(v)@)),
        text::vviews(final(v)@).to_set() == text::vviews(old(v)@).to_set().insert(x@),
{
    let ghost s0 = text::vviews(v@);
    let mut i: usize = 0;
    while i < v.len() && crate::scan::lt_exec(&v[i], &x)
        invariant
            i <= v.len(),
            s0 == text::vviews(v@),
            forall|j: int| 0 <= j < i ==> crate::scan::seq_lt(#[trigger] s0[j], x@),
        decreases v.len() - i,
    {
        i += 1;
    }
    if i < v.len() && text::eq(&v[i], &x) {
        assert(s0[i as int] == x@);
        assert(s0.to_set().insert(x@) =~= s0.to_set());
        return;
    }
    let ghost xv = x@;
    proof {
        if i < v.len() {
            crate::scan::lemma_seq_lt_total(s0[i as int], xv);
            assert(s0[i as int] == v@[i as int]@);
        }
    }
    v.insert(i, x);
    proof {
        let s1 = text::vviews(v@);
        assert(s1 =~= s0.insert(i as int, xv));
        assert forall|b: int| i <= b < s0.len() implies crate::scan::seq_lt(xv, #[trigger] s0[b]) by {
            if b > i {
                crate::scan::lemma_seq_lt_trans(xv, s0[i as int], s0[b]);
            }
        }
        assert forall|a: int, b: int| 0 <= a < b < s1.len() implies crate::scan::seq_lt(
            s1[a],
            s1[b],
        ) by {
            if b < i {
            } else if b == i {
            } else if a == i {
                assert(s1[b] == s0[b - 1]);
            } else if a < i {
                crate::scan::lemma_seq_lt_trans(s0[a], xv, s0[b - 1]);
            } else {
            }
        }
        assert forall|y: Seq<char>| s1.to_set().contains(y) <==> s0.to_set().insert(xv).contains(
            y,
        ) by {
            if s1.to_set().contains(y) {
                let k = choose|k: int| 0 <= k < s1.len() && s1[k] == y;
                if k < i {
                    assert(s0[k] == y);
                } else if k > i {
                    assert(s0[k - 1] == y);
                }
            }
            if s0.to_set().contains(y) {
                let k = choose|k: int| 0 <= k < s0.len() && s0[k] == y;
                if k < i {
                    assert(s1[k] == y);
                } else {
                    assert(s1[k + 1] == y);
                }
            }
            if y == xv {
                assert(s1[i as int] == y);
            }
        }
        assert(s1.to_set() =~= s0.to_set().insert(xv));
    }
}

/// The DLLs a PE file imports (see [`imports_are`]).
pub fn pe_imports(data: &[u8]) -> (r: Vec<String>)
    ensures
        imports_are(data@, text::views(r@)),
{
    let mut raw: Vec<Vec<char>> = Vec::new();
    let lo = layout(data);
    match lo {
        None => {},
        Some(l) => {
            assert(l.h + l.dd + 12 <= data.len());
            let irva = rd_u32(data, l.h + l.dd + 8);
            if irva != 0 {
                table_names_exec(data, &l, irva, 20, 12, &mut raw);
                let ghost a = text::vviews(raw@);
                let ddo = l.dd + 13 * 8;
                if ddo + 8 <= l.sopt + l.nsec * 40 {
                    let drva = rd_u32(data, l.h + ddo);
                    if drva != 0 {
                        match rva_to_off_exec(data, &l, drva) {
                            Some(doff) => {
                                if doff + 4 <= data.len() as u64 && rd_u32(data, doff as usize) % 2
                                    == 1 {
                                    table_names_exec(data, &l, drva, 32, 4, &mut raw);
                                }
                            },
                            None => {},
                        }
                    }
                }
                proof {
                    let ll = lx(l);
                    if text::vviews(raw@) == a {
                        assert(text::vviews(raw@) =~= a + delay_names(data@, ll));
                    }
                }
            }
        },
    }
    proof {
        match pe_layout(data@) {
            None => {
                assert(text::vviews(raw@) =~= raw_imports(data@));
            },
            Some(_) => {},
        }
    }
    let ghost rv = text::vviews(raw@);
    assert(rv == raw_imports(data@));
    let mut out: Vec<Vec<char>> = Vec::new();
    let mut i: usize = 0;
    while i < raw.len()
        invariant
            i <= raw.len(),
            rv == text::vviews(raw@),
            strictly_sorted(text::vviews(out@)),
            text::vviews(out@).to_set() == rv.take(i as int).to_set(),
        decreases raw.len() - i,
    {
        let x = text::to_vec(&raw[i]);
        insert_sorted(&mut out, x);
        proof {
            assert(rv.take(i + 1) =~= rv.take(i as int).push(rv[i as int]));
            rv.take(i as int).lemma_push_to_set_commute(rv[i as int]);
        }
        i += 1;
    }
    assert(rv.take(raw.len() as int) =~= rv);
    let mut res: Vec<String> = Vec::new();
    let mut j: usize = 0;
    while j < out.len()
        invariant
            j <= out.len(),
            text::views(res@) == text::vviews(out@).take(j as int),
        decreases out.len() - j,
    {
        let ghost before = text::views(res@);
        res.push(text::string_of(&out[j]));
        assert(text::vviews(out@)[j as int] == out@[j as int]@);
        assert(text::views(res@) =~= before.push(out@[j as int]@));
        assert(text::views(res@) =~= text::vviews(out@).take(j + 1));
        j += 1;
    }
    assert(text::vviews(out@).take(out.len() as int) =~= text::vviews(out@));
    res
}

// ------------------------------------------------------------ certificate and identity

/// The certificate table of a PE file (data directory 4, whose address is a
/// file offset, not an RVA), or empty: needs `MZ`, an optional header of at
/// least 144 bytes of a known magic, and a table of 1 byte to 16 MiB inside
/// the file.
pub open spec fn cert_blob(d: Seq<u8>) -> Seq<u8> {
    if d.len() < 64 || d[0] != 0x4Du8 || d[1] != 0x5Au8 {
        Seq::empty()
    } else {
        let e = u32_at(d, 0x3C);
        if e + 24 > d.len() {
            Seq::empty()
        } else {
            let sopt = u16_at(d, e + 20);
            let h = e + 24;
            if sopt < 144 || h + sopt > d.len() {
                Seq::empty()
            } else {
                let magic = u16_at(d, h);
                let dd = if magic == 0x20B {
                    112int
                } else if magic == 0x10B {
                    96int
                } else {
                    -1int
                };
                let so = dd + 32;
                if dd < 0 || so + 8 > sopt {
                    Seq::empty()
                } else {
                    let off = u32_at(d, h + so);
                    let size = u32_at(d, h + so + 4);
                    if off == 0 || size == 0 || size > 16 * 1024 * 1024 || off + size > d.len() {
                        Seq::empty()
                    } else {
                        d.subrange(off, off + size)
                    }
                }
            }
        }
    }
}

/// The certificate table of a PE file's bytes (see [`cert_blob`]).
pub fn pe_certificate_blob(d: &[u8]) -> (r: Vec<u8>)
    ensures
        r@ == cert_blob(d@),
{
    if d.len() < 64 || d[0] != 0x4Du8 || d[1] != 0x5Au8 {
        return Vec::new();
    }
    let e = rd_u32(d, 0x3C) as usize;
    if e as u64 + 24 > d.len() as u64 {
        return Vec::new();
    }
    let sopt = rd_u16(d, e + 20) as usize;
    let h = e + 24;
    if sopt < 144 || h as u64 + sopt as u64 > d.len() as u64 {
        return Vec::new();
    }
    let magic = rd_u16(d, h);
    let dd: usize = if magic == 0x20B {
        112
    } else if magic == 0x10B {
        96
    } else {
        return Vec::new();
    };
    let so = dd + 32;
    if so + 8 > sopt {
        return Vec::new();
    }
    let off = rd_u32(d, h + so) as u64;
    let size = rd_u32(d, h + so + 4) as u64;
    if off == 0 || size == 0 || size > 16 * 1024 * 1024 || off + size > d.len() as u64 {
        return Vec::new();
    }
    let mut out: Vec<u8> = Vec::new();
    let mut i: usize = off as usize;
    let end = (off + size) as usize;
    while i < end
        invariant
            off <= i <= end <= d@.len(),
            out@ == d@.subrange(off as int, i as int),
        decreases end - i,
    {
        out.push(d[i]);
        assert(out@ =~= d@.subrange(off as int, i + 1));
        i += 1;
    }
    out
}

/// `h` has `n` as a contiguous part.
pub open spec fn bytes_contain(h: Seq<u8>, n: Seq<u8>) -> bool {
    exists|i: int| 0 <= i && i + n.len() <= h.len() && #[trigger] h.subrange(i, i + n.len()) == n
}

/// A UTF-16 code unit's two bytes, low first.
pub open spec fn unit_le(u: int) -> Seq<u8> {
    seq![(u % 256) as u8, (u / 256) as u8]
}

/// `s` in UTF-16, little-endian.
pub open spec fn utf16le(s: Seq<char>) -> Seq<u8>
    decreases s.len(),
{
    if s.len() == 0 {
        Seq::empty()
    } else {
        let c = s[0] as u32 as int;
        let head = if c < 0x10000 {
            unit_le(c)
        } else {
            unit_le(0xD800 + (c - 0x10000) / 1024) + unit_le(0xDC00 + (c - 0x10000) % 1024)
        };
        head + utf16le(s.drop_first())
    }
}

/// The certificate data holds `needle`, in UTF-8 or in UTF-16LE (DER text
/// is mostly ASCII; a few fields are UTF-16LE).
pub open spec fn spec_cert_contains(blob: Seq<u8>, needle: Seq<char>) -> bool {
    let a = vstd::utf8::encode_utf8(needle);
    let u = utf16le(needle);
    (a.len() > 0 && bytes_contain(blob, a)) || (u.len() > 0 && bytes_contain(blob, u))
}

fn bytes_contain_exec(h: &[u8], n: &[u8]) -> (r: bool)
    ensures
        r == bytes_contain(h@, n@),
{
    if n.len() > h.len() {
        assert forall|i: int| 0 <= i && i + n@.len() <= h@.len() implies #[trigger] h@.subrange(
            i,
            i + n@.len(),
        ) != n@ by {}
        return false;
    }
    let mut i: usize = 0;
    while i <= h.len() - n.len()
        invariant
            n.len() <= h.len(),
            i <= h.len() - n.len() + 1,
            forall|k: int| 0 <= k < i ==> #[trigger] h@.subrange(k, k + n@.len()) != n@,
        decreases h.len() - i,
    {
        let mut j: usize = 0;
        let mut same = true;
        while j < n.len()
            invariant
                i + n.len() <= h.len(),
                j <= n.len(),
                same == forall|t: int| 0 <= t < j ==> h@[i + t] == n@[t],
            decreases n.len() - j,
        {
            if h[i + j] != n[j] {
                same = false;
            }
            j += 1;
        }
        if same {
            assert(h@.subrange(i as int, i + n@.len()) =~= n@);
            return true;
        }
        assert(h@.subrange(i as int, i + n@.len()) != n@) by {
            let t = choose|t: int| 0 <= t < n.len() && h@[i + t] != n@[t];
            assert(h@.subrange(i as int, i + n@.len())[t] == h@[i + t]);
        }
        i += 1;
    }
    false
}

fn utf16le_exec(s: &[char]) -> (r: Vec<u8>)
    ensures
        r@ == utf16le(s@),
{
    let mut out: Vec<u8> = Vec::new();
    let mut i: usize = s.len();
    let ghost full = s@;
    while i > 0
        invariant
            i <= s.len(),
            full == s@,
            out@ == utf16le(s@.skip(i as int)),
        decreases i,
    {
        i -= 1;
        let c = s[i] as u32;
        let mut head: Vec<u8> = Vec::new();
        if c < 0x10000 {
            head.push((c % 256) as u8);
            head.push((c / 256) as u8);
        } else {
            let v = c - 0x10000;
            let hi = 0xD800 + v / 1024;
            let lo = 0xDC00 + v % 1024;
            head.push((hi % 256) as u8);
            head.push((hi / 256) as u8);
            head.push((lo % 256) as u8);
            head.push((lo / 256) as u8);
        }
        let ghost hv = head@;
        let ghost cc = s@[i as int] as u32 as int;
        assert(hv == (if cc < 0x10000 {
            unit_le(cc)
        } else {
            unit_le(0xD800 + (cc - 0x10000) / 1024) + unit_le(0xDC00 + (cc - 0x10000) % 1024)
        })) by {
            if cc < 0x10000 {
                assert(hv =~= unit_le(cc));
            } else {
                assert(hv =~= unit_le(0xD800 + (cc - 0x10000) / 1024) + unit_le(
                    0xDC00 + (cc - 0x10000) % 1024,
                ));
            }
        }
        let mut k: usize = 0;
        let mut res = head;
        while k < out.len()
            invariant
                k <= out.len(),
                res@ == hv + out@.take(k as int),
            decreases out.len() - k,
        {
            res.push(out[k]);
            assert(res@ =~= hv + out@.take(k + 1));
            k += 1;
        }
        proof {
            assert(s@.skip(i as int).drop_first() =~= s@.skip(i + 1));
            assert(s@.skip(i as int)[0] == s@[i as int]);
            assert(out@.take(out.len() as int) =~= out@);
        }
        out = res;
        proof {
            assert(out@ =~= utf16le(s@.skip(i as int)));
        }
    }
    assert(s@.skip(0) =~= s@);
    out
}

/// Whether the certificate data holds `needle` (see [`spec_cert_contains`]).
pub fn cert_contains(blob: &[u8], needle: &str) -> (r: bool)
    ensures
        r == spec_cert_contains(blob@, needle@),
{
    let a = needle.as_bytes();
    if a.len() > 0 && bytes_contain_exec(blob, a) {
        return true;
    }
    let nv = text::chars_of(needle);
    let u = utf16le_exec(&nv);
    u.len() > 0 && bytes_contain_exec(blob, &u)
}

/// The signers of this project's files: the 0.2.4 native package and the
/// current proxy package.
pub const SIGNER_THIS_PROJECT: &'static str = "DLSSG Native Project";
pub const SIGNER_THIS_PROJECT_PROXY: &'static str = "DLSSG for SM86";
pub const SIGNER_NVIDIA: &'static str = "NVIDIA Corporation";

/// Who a file is from, by its certificate data: this project's when either
/// of its signer names appears, NVIDIA's when NVIDIA's does, someone else's
/// otherwise; with no certificate data, unsigned when the file is over
/// 1 KiB, else unknown (`file_len` is `None` when its size cannot be read).
pub open spec fn identity_of(blob: Seq<u8>, file_len: Option<u64>) -> FileIdentity {
    if blob.len() == 0 {
        match file_len {
            Some(n) => if n > 1024 {
                FileIdentity::Unsigned
            } else {
                FileIdentity::Unknown
            },
            None => FileIdentity::Unknown,
        }
    } else if spec_cert_contains(blob, "DLSSG Native Project"@) || spec_cert_contains(
        blob,
        "DLSSG for SM86"@,
    ) {
        FileIdentity::ThisProject
    } else if spec_cert_contains(blob, "NVIDIA Corporation"@) {
        FileIdentity::Nvidia
    } else {
        FileIdentity::OtherSigned
    }
}

/// Who signed a file: with certificate data it is never "unsigned" or
/// "unknown"; it is this project's exactly when one of this project's
/// signer names is in it, NVIDIA's exactly when NVIDIA's name is and this
/// project's are not; without certificate data a file over 1 KiB is
/// unsigned and any other (or one whose size is unknown) is unknown.
pub proof fn law_identity(blob: Seq<u8>, file_len: Option<u64>)
    ensures
        ({
            let id = identity_of(blob, file_len);
            let ours = spec_cert_contains(blob, "DLSSG Native Project"@) || spec_cert_contains(
                blob,
                "DLSSG for SM86"@,
            );
            &&& blob.len() > 0 ==> id != FileIdentity::Unsigned && id != FileIdentity::Unknown
            &&& id == FileIdentity::ThisProject <==> blob.len() > 0 && ours
            &&& id == FileIdentity::Nvidia <==> blob.len() > 0 && !ours && spec_cert_contains(
                blob,
                "NVIDIA Corporation"@,
            )
            &&& blob.len() == 0 ==> (id == FileIdentity::Unsigned <==> (file_len is Some
                && file_len.unwrap() > 1024))
            &&& blob.len() == 0 ==> (id == FileIdentity::Unknown <==> !(file_len is Some
                && file_len.unwrap() > 1024))
        }),
{
}

/// The identity from a certificate table and the file's size.
pub fn identify(blob: &[u8], file_len: Option<u64>) -> (r: FileIdentity)
    ensures
        r == identity_of(blob@, file_len),
{
    if blob.len() == 0 {
        return match file_len {
            Some(n) => if n > 1024 {
                FileIdentity::Unsigned
            } else {
                FileIdentity::Unknown
            },
            None => FileIdentity::Unknown,
        };
    }
    if cert_contains(blob, SIGNER_THIS_PROJECT) || cert_contains(blob, SIGNER_THIS_PROJECT_PROXY) {
        return FileIdentity::ThisProject;
    }
    if cert_contains(blob, SIGNER_NVIDIA) {
        return FileIdentity::Nvidia;
    }
    FileIdentity::OtherSigned
}

/// The identity of a DLL from its bytes.
pub fn identify_dll(data: &[u8]) -> (r: FileIdentity)
    ensures
        r == identity_of(cert_blob(data@), Some(data@.len() as u64)),
{
    let blob = pe_certificate_blob(data);
    identify(&blob, Some(data.len() as u64))
}

} // verus!

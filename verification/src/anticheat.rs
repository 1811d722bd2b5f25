//! Anti-cheat detection: which anti-cheat a game directory or the system
//! shows, and the verdict that gates a deployment. The registry and the
//! directory are read by the caller; this module decides from what was read.

use vstd::prelude::*;
use crate::text;
use crate::util;

verus! {

/// How intrusive an anti-cheat is.
#[derive(Debug, Clone, Copy, PartialEq, Eq, Structural)]
pub enum AcTier {
    NotDetected,
    UserMode,
    Kernel,
}

pub open spec fn tier_label(t: AcTier) -> Seq<char> {
    match t {
        AcTier::NotDetected => "未检出"@,
        AcTier::UserMode => "用户态反作弊"@,
        AcTier::Kernel => "内核级反作弊"@,
    }
}

/// The order of tiers: none < user mode < kernel.
pub open spec fn tier_rank(t: AcTier) -> int {
    match t {
        AcTier::NotDetected => 0,
        AcTier::UserMode => 1,
        AcTier::Kernel => 2,
    }
}

impl AcTier {
    pub fn label(self) -> (r: &'static str)
        ensures
            r@ == tier_label(self),
    {
        match self {
            AcTier::NotDetected => "未检出",
            AcTier::UserMode => "用户态反作弊",
            AcTier::Kernel => "内核级反作弊",
        }
    }
}

/// One finding.
#[derive(Debug, Clone)]
pub struct AcHit {
    pub name: String,
    pub tier: AcTier,
    pub evidence: String,
}

/// [`AcHit`] as plain values.
pub struct HitV {
    pub name: Seq<char>,
    pub tier: AcTier,
    pub evidence: Seq<char>,
}

impl View for AcHit {
    type V = HitV;

    open spec fn view(&self) -> HitV {
        HitV { name: self.name@, tier: self.tier, evidence: self.evidence@ }
    }
}

pub open spec fn hit_views(v: Seq<AcHit>) -> Seq<HitV> {
    v.map_values(|h: AcHit| h@)
}

pub open spec fn hit_names(v: Seq<HitV>) -> Seq<Seq<char>> {
    v.map_values(|h: HitV| h.name)
}

/// The findings, one per anti-cheat name.
#[derive(Debug, Clone)]
pub struct AcReport {
    pub hits: Vec<AcHit>,
}

/// Some finding has tier `t`.
pub open spec fn has_tier(hits: Seq<HitV>, t: AcTier) -> bool {
    exists|i: int| 0 <= i < hits.len() && (#[trigger] hits[i]).tier == t
}

/// The highest tier among the findings (kernel above user mode), or none
/// without findings.
pub open spec fn spec_verdict(hits: Seq<HitV>) -> AcTier {
    if has_tier(hits, AcTier::Kernel) {
        AcTier::Kernel
    } else if has_tier(hits, AcTier::UserMode) {
        AcTier::UserMode
    } else {
        AcTier::NotDetected
    }
}

/// `hits` after recording `h`: a name already recorded is not recorded again.
pub open spec fn push_hit(hits: Seq<HitV>, h: HitV) -> Seq<HitV> {
    if hit_names(hits).contains(h.name) {
        hits
    } else {
        hits.push(h)
    }
}

/// `a` after recording each finding of `b` in turn.
pub open spec fn merge_hits(a: Seq<HitV>, b: Seq<HitV>) -> Seq<HitV>
    decreases b.len(),
{
    if b.len() == 0 {
        a
    } else {
        push_hit(merge_hits(a, b.drop_last()), b.last())
    }
}

fn same(a: &String, b: &String) -> (r: bool)
    ensures
        r == (a@ == b@),
{
    let av = text::chars_of(a.as_str());
    let bv = text::chars_of(b.as_str());
    text::eq(&av, &bv)
}

fn clone_string(s: &String) -> (r: String)
    ensures
        r@ == s@,
{
    let v = text::chars_of(s.as_str());
    text::string_of(&v)
}

fn has_name(hits: &Vec<AcHit>, name: &String) -> (r: bool)
    ensures
        r == hit_names(hit_views(hits@)).contains(name@),
{
    let mut i: usize = 0;
    while i < hits.len()
        invariant
            i <= hits.len(),
            forall|k: int| 0 <= k < i ==> hits@[k].name@ != name@,
        decreases hits.len() - i,
    {
        if same(&hits[i].name, name) {
            assert(hit_names(hit_views(hits@))[i as int] == name@);
            return true;
        }
        i += 1;
    }
    assert forall|k: int| 0 <= k < hit_names(hit_views(hits@)).len() implies hit_names(
        hit_views(hits@),
    )[k] != name@ by {
        assert(hit_names(hit_views(hits@))[k] == hits@[k].name@);
    }
    false
}

fn record(hits: &mut Vec<AcHit>, h: AcHit)
    ensures
        hit_views(final(hits)@) == push_hit(hit_views(old(hits)@), h@),
{
    if !has_name(hits, &h.name) {
        let ghost before = hit_views(hits@);
        hits.push(h);
        assert(hit_views(hits@) =~= before.push(h@));
    }
}

impl AcReport {
    pub fn new() -> (r: Self)
        ensures
            r.hits@.len() == 0,
    {
        AcReport { hits: Vec::new() }
    }

    /// Kernel when any finding is kernel-level, else user mode when any is,
    /// else none.
    pub fn verdict(&self) -> (r: AcTier)
        ensures
            r == spec_verdict(hit_views(self.hits@)),
    {
        let ghost hv = hit_views(self.hits@);
        let mut kernel = false;
        let mut user = false;
        let mut i: usize = 0;
        while i < self.hits.len()
            invariant
                i <= self.hits.len(),
                hv == hit_views(self.hits@),
                kernel == exists|k: int| 0 <= k < i && (#[trigger] hv[k]).tier == AcTier::Kernel,
                user == exists|k: int| 0 <= k < i && (#[trigger] hv[k]).tier == AcTier::UserMode,
            decreases self.hits.len() - i,
        {
            assert(hv[i as int] == self.hits@[i as int]@);
            match self.hits[i].tier {
                AcTier::Kernel => {
                    kernel = true;
                },
                AcTier::UserMode => {
                    user = true;
                },
                AcTier::NotDetected => {},
            }
            i += 1;
        }
        if kernel {
            AcTier::Kernel
        } else if user {
            AcTier::UserMode
        } else {
            AcTier::NotDetected
        }
    }

    /// A deployment is refused when a kernel-level anti-cheat is found.
    pub fn is_blocked(&self) -> (r: bool)
        ensures
            r == has_tier(hit_views(self.hits@), AcTier::Kernel),
    {
        match self.verdict() {
            AcTier::Kernel => true,
            _ => false,
        }
    }

    /// Records a finding, unless one of that name is already recorded.
    pub fn push(&mut self, name: &str, tier: AcTier, evidence: String)
        ensures
            hit_views(final(self).hits@) == push_hit(
                hit_views(old(self).hits@),
                HitV { name: name@, tier, evidence: evidence@ },
            ),
    {
        let n = text::chars_of(name);
        let h = AcHit { name: text::string_of(&n), tier, evidence };
        record(&mut self.hits, h);
    }

    /// Adds the findings of `other` whose names are not recorded yet.
    pub fn merge(&mut self, other: AcReport)
        ensures
            hit_views(final(self).hits@) == merge_hits(
                hit_views(old(self).hits@),
                hit_views(other.hits@),
            ),
    {
        let ghost a = hit_views(self.hits@);
        let ghost b = hit_views(other.hits@);
        let mut i: usize = 0;
        while i < other.hits.len()
            invariant
                i <= other.hits.len(),
                b == hit_views(other.hits@),
                hit_views(self.hits@) == merge_hits(a, b.take(i as int)),
            decreases other.hits.len() - i,
        {
            let h = &other.hits[i];
            let c = AcHit { name: clone_string(&h.name), tier: h.tier, evidence: clone_string(&h.evidence) };
            record(&mut self.hits, c);
            proof {
                assert(b.take(i + 1).drop_last() =~= b.take(i as int));
                assert(b.take(i + 1).last() == b[i as int]);
            }
            i += 1;
        }
        assert(b.take(other.hits.len() as int) =~= b);
    }
}

// ------------------------------------------------------------ laws

/// Recording keeps one finding per name.
pub proof fn law_push_keeps_names_distinct(hits: Seq<HitV>, h: HitV)
    requires
        text::distinct_seq(hit_names(hits)),
    ensures
        text::distinct_seq(hit_names(push_hit(hits, h))),
{
    if !hit_names(hits).contains(h.name) {
        let r = hits.push(h);
        assert forall|i: int, j: int| 0 <= i < j < hit_names(r).len() implies hit_names(r)[i]
            != hit_names(r)[j] by {
            if j == hits.len() {
                assert(hit_names(hits)[i] == hit_names(r)[i]);
            } else {
                assert(hit_names(hits)[i] == hit_names(r)[i]);
                assert(hit_names(hits)[j] == hit_names(r)[j]);
            }
        }
    }
}

/// Merging keeps one finding per name.
pub proof fn law_merge_keeps_names_distinct(a: Seq<HitV>, b: Seq<HitV>)
    requires
        text::distinct_seq(hit_names(a)),
    ensures
        text::distinct_seq(hit_names(merge_hits(a, b))),
    decreases b.len(),
{
    if b.len() > 0 {
        law_merge_keeps_names_distinct(a, b.drop_last());
        law_push_keeps_names_distinct(merge_hits(a, b.drop_last()), b.last());
    }
}

/// Recording or merging never removes a finding: what was there stays, in
/// place, so the verdict never drops.
pub proof fn law_merge_keeps_findings(a: Seq<HitV>, b: Seq<HitV>)
    ensures
        merge_hits(a, b).len() >= a.len(),
        forall|i: int| 0 <= i < a.len() ==> merge_hits(a, b)[i] == a[i],
        tier_rank(spec_verdict(merge_hits(a, b))) >= tier_rank(spec_verdict(a)),
    decreases b.len(),
{
    if b.len() > 0 {
        law_merge_keeps_findings(a, b.drop_last());
    }
    let m = merge_hits(a, b);
    if has_tier(a, AcTier::Kernel) {
        let i = choose|i: int| 0 <= i < a.len() && (#[trigger] a[i]).tier == AcTier::Kernel;
        assert(m[i] == a[i]);
    }
    if has_tier(a, AcTier::UserMode) {
        let i = choose|i: int| 0 <= i < a.len() && (#[trigger] a[i]).tier == AcTier::UserMode;
        assert(m[i] == a[i]);
    }
}

/// The findings of `b` that a merge into `a` adds: those whose name is
/// neither in `a` nor among the earlier findings of `b`, in `b`'s order.
pub open spec fn fresh_hits(a: Seq<HitV>, b: Seq<HitV>) -> Seq<HitV>
    decreases b.len(),
{
    if b.len() == 0 {
        Seq::empty()
    } else {
        let t = b.drop_last();
        if hit_names(a).contains(b.last().name) || hit_names(t).contains(b.last().name) {
            fresh_hits(a, t)
        } else {
            fresh_hits(a, t).push(b.last())
        }
    }
}

proof fn lemma_merge_names(a: Seq<HitV>, b: Seq<HitV>, n: Seq<char>)
    ensures
        hit_names(merge_hits(a, b)).contains(n) <==> hit_names(a).contains(n) || hit_names(b).contains(n),
    decreases b.len(),
{
    if hit_names(a).contains(n) || hit_names(b).contains(n) {
        law_merge_covers_names(a, b, n);
    }
    if b.len() > 0 {
        let t = b.drop_last();
        lemma_merge_names(a, t, n);
        let m = merge_hits(a, t);
        if hit_names(merge_hits(a, b)).contains(n) {
            let i = choose|i: int| 0 <= i < hit_names(merge_hits(a, b)).len() && hit_names(merge_hits(a, b))[i] == n;
            if i < m.len() {
                assert(hit_names(m)[i] == n);
                if hit_names(t).contains(n) {
                    let j = choose|j: int| 0 <= j < hit_names(t).len() && hit_names(t)[j] == n;
                    assert(hit_names(b)[j] == n);
                }
            } else {
                assert(hit_names(b)[b.len() - 1] == n);
            }
        }
    }
}

/// Merging keeps the old findings as they were, in place, and appends the
/// other report's findings whose names are new, in that report's order,
/// each once.
pub proof fn law_merge_appends_fresh(a: Seq<HitV>, b: Seq<HitV>)
    ensures
        merge_hits(a, b) == a + fresh_hits(a, b),
    decreases b.len(),
{
    if b.len() == 0 {
        assert(a + Seq::<HitV>::empty() =~= a);
    } else {
        let t = b.drop_last();
        law_merge_appends_fresh(a, t);
        lemma_merge_names(a, t, b.last().name);
        assert((a + fresh_hits(a, t)).push(b.last()) =~= a + fresh_hits(a, t).push(b.last()));
    }
}

/// After merging, every name of either report is recorded.
pub proof fn law_merge_covers_names(a: Seq<HitV>, b: Seq<HitV>, n: Seq<char>)
    requires
        hit_names(a).contains(n) || hit_names(b).contains(n),
    ensures
        hit_names(merge_hits(a, b)).contains(n),
    decreases b.len(),
{
    if b.len() > 0 {
        let t = b.drop_last();
        if hit_names(b).contains(n) && b.last().name != n {
            let i = choose|i: int| 0 <= i < hit_names(b).len() && hit_names(b)[i] == n;
            assert(hit_names(t)[i] == n);
        }
        if hit_names(a).contains(n) || hit_names(t).contains(n) {
            law_merge_covers_names(a, t, n);
            let m = merge_hits(a, t);
            let i = choose|i: int| 0 <= i < hit_names(m).len() && hit_names(m)[i] == n;
            assert(hit_names(push_hit(m, b.last()))[i] == n);
        } else {
            let m = merge_hits(a, t);
            if !hit_names(m).contains(b.last().name) {
                assert(hit_names(m.push(b.last()))[m.len() as int] == n);
            }
        }
    } else {
    }
}

// ------------------------------------------------------------ registry services

/// Lower-case fragments of service names, with the name shown and the tier
/// assumed when the service is not a kernel driver.
pub open spec fn service_patterns() -> Seq<(Seq<char>, Seq<char>, AcTier)> {
    seq![
        ("bedaisy"@, "BattlEye 内核驱动 (BEDaisy)"@, AcTier::Kernel),
        ("beservice"@, "BattlEye 服务 (BEService)"@, AcTier::UserMode),
        ("easyanticheat_eos"@, "Easy Anti-Cheat (EOS)"@, AcTier::Kernel),
        ("easyanticheat"@, "Easy Anti-Cheat"@, AcTier::Kernel),
        ("vgk"@, "Riot Vanguard 内核驱动 (vgk)"@, AcTier::Kernel),
        ("vgc"@, "Riot Vanguard 服务 (vgc)"@, AcTier::UserMode),
        ("npggnt"@, "nProtect GameGuard 内核驱动"@, AcTier::Kernel),
        ("gameguard"@, "nProtect GameGuard"@, AcTier::UserMode),
        ("xigncode"@, "XignCode3"@, AcTier::Kernel),
        ("x3."@, "XignCode3 (x3)"@, AcTier::Kernel),
        ("pnkbstra"@, "PunkBuster A"@, AcTier::UserMode),
        ("pnkbstrab"@, "PunkBuster B"@, AcTier::UserMode),
        ("ricochet"@, "COD Ricochet"@, AcTier::Kernel),
    ]
}

pub const SERVICE_PATTERNS: [(&'static str, &'static str, AcTier); 13] = [
    ("bedaisy", "BattlEye 内核驱动 (BEDaisy)", AcTier::Kernel),
    ("beservice", "BattlEye 服务 (BEService)", AcTier::UserMode),
    ("easyanticheat_eos", "Easy Anti-Cheat (EOS)", AcTier::Kernel),
    ("easyanticheat", "Easy Anti-Cheat", AcTier::Kernel),
    ("vgk", "Riot Vanguard 内核驱动 (vgk)", AcTier::Kernel),
    ("vgc", "Riot Vanguard 服务 (vgc)", AcTier::UserMode),
    ("npggnt", "nProtect GameGuard 内核驱动", AcTier::Kernel),
    ("gameguard", "nProtect GameGuard", AcTier::UserMode),
    ("xigncode", "XignCode3", AcTier::Kernel),
    ("x3.", "XignCode3 (x3)", AcTier::Kernel),
    ("pnkbstra", "PunkBuster A", AcTier::UserMode),
    ("pnkbstrab", "PunkBuster B", AcTier::UserMode),
    ("ricochet", "COD Ricochet", AcTier::Kernel),
];

/// The service type of a kernel driver.
pub const SERVICE_TYPE_KERNEL_DRIVER: u32 = 1;

/// Index of the first pattern contained in the lower-cased name, or the
/// number of patterns.
pub open spec fn pattern_index(lower: Seq<char>) -> int {
    crate::deploy::first_from(0, 13, pattern_pred(lower))
}

pub open spec fn pattern_pred(lower: Seq<char>) -> spec_fn(int) -> bool {
    |k: int| text::contains(lower, service_patterns()[k].0)
}

/// The finding for a service of the given name, type and start value: the
/// first pattern its lower-cased name contains decides the name shown; a
/// kernel driver is kernel-level whatever the pattern says.
pub open spec fn spec_service_hit(name: Seq<char>, ty: u32, start: u32) -> Option<HitV> {
    let k = pattern_index(text::lowered(name));
    if k < 13 {
        let p = service_patterns()[k];
        let kernel = ty == SERVICE_TYPE_KERNEL_DRIVER;
        Some(
            HitV {
                name: p.1,
                tier: if kernel {
                    AcTier::Kernel
                } else {
                    p.2
                },
                evidence: "注册表服务 "@ + name + " ["@ + (if kernel {
                    "内核驱动"@
                } else {
                    "服务"@
                }) + "] Type=0x"@ + util::hex_upper(ty as nat) + " Start="@ + text::decimal(
                    start as nat,
                ),
            },
        )
    } else {
        None
    }
}

/// A registry service is a finding exactly when its lower-cased name
/// contains one of the known anti-cheat patterns; the first such pattern
/// names it; a kernel driver is kernel-level whatever the pattern, any
/// other service has the pattern's own level.
pub proof fn law_service_findings(name: Seq<char>, ty: u32, start: u32)
    ensures
        spec_service_hit(name, ty, start) is Some <==> exists|j: int|
            0 <= j < 13 && text::contains(text::lowered(name), #[trigger] service_patterns()[j].0),
        spec_service_hit(name, ty, start) matches Some(h) ==> exists|j: int|
            0 <= j < 13 && text::contains(text::lowered(name), #[trigger] service_patterns()[j].0)
                && h.name == service_patterns()[j].1 && (ty == SERVICE_TYPE_KERNEL_DRIVER ==> h.tier
                == AcTier::Kernel) && (ty != SERVICE_TYPE_KERNEL_DRIVER ==> h.tier
                == service_patterns()[j].2) && forall|i: int|
                0 <= i < j ==> !text::contains(text::lowered(name), #[trigger] service_patterns()[i].0),
{
    let l = text::lowered(name);
    crate::deploy::lemma_first_from_found(0, 13, pattern_pred(l));
    let k = pattern_index(l);
    if exists|j: int| 0 <= j < 13 && text::contains(l, #[trigger] service_patterns()[j].0) {
        let j = choose|j: int| 0 <= j < 13 && text::contains(l, #[trigger] service_patterns()[j].0);
        if k >= 13 {
            assert(!pattern_pred(l)(j));
        }
    }
    if k < 13 {
        assert(pattern_pred(l)(k));
        assert forall|i: int| 0 <= i < k implies !text::contains(l, #[trigger] service_patterns()[i].0) by {
            assert(!pattern_pred(l)(i));
        }
    }
}

/// The verdict of a report: kernel-level when some finding is, else
/// user-mode when some finding is, else nothing detected; a report is
/// blocked exactly when its verdict is kernel-level.
pub proof fn law_verdict(hits: Seq<HitV>)
    ensures
        spec_verdict(hits) == AcTier::Kernel <==> exists|i: int|
            0 <= i < hits.len() && (#[trigger] hits[i]).tier == AcTier::Kernel,
        spec_verdict(hits) == AcTier::UserMode <==> (exists|i: int|
            0 <= i < hits.len() && (#[trigger] hits[i]).tier == AcTier::UserMode) && !(exists|i: int|
            0 <= i < hits.len() && (#[trigger] hits[i]).tier == AcTier::Kernel),
        spec_verdict(hits) == AcTier::NotDetected <==> forall|i: int|
            0 <= i < hits.len() ==> (#[trigger] hits[i]).tier == AcTier::NotDetected,
{
    if !(forall|i: int| 0 <= i < hits.len() ==> (#[trigger] hits[i]).tier == AcTier::NotDetected) {
        let i = choose|i: int| 0 <= i < hits.len() && (#[trigger] hits[i]).tier != AcTier::NotDetected;
        if hits[i].tier == AcTier::Kernel {
            assert(has_tier(hits, AcTier::Kernel));
        } else {
            assert(has_tier(hits, AcTier::UserMode));
        }
    }
}

/// The finding for one registry service, if its name is a known
/// anti-cheat's.
pub fn service_hit(name: &str, ty: u32, start: u32) -> (r: Option<AcHit>)
    ensures
        match r {
            Some(h) => spec_service_hit(name@, ty, start) == Some(h@),
            None => spec_service_hit(name@, ty, start) is None,
        },
{
    let v = text::chars_of(name);
    let lower = text::to_lowercase(&v);
    let ghost pats = service_patterns();
    let ghost p = pattern_pred(lower@);
    assert(pats.len() == 13);
    let mut k: usize = 0;
    while k < 13
        invariant
            k <= 13,
            pats == service_patterns(),
            p == pattern_pred(lower@),
            lower@ == text::lowered(name@),
            forall|j: int| 0 <= j < k ==> !#[trigger] p(j),
        decreases 13 - k,
    {
        let (pat, label, tier) = SERVICE_PATTERNS[k];
        proof {
            reveal_strlit("bedaisy");
            reveal_strlit("beservice");
            reveal_strlit("easyanticheat_eos");
            reveal_strlit("easyanticheat");
            reveal_strlit("vgk");
            reveal_strlit("vgc");
            reveal_strlit("npggnt");
            reveal_strlit("gameguard");
            reveal_strlit("xigncode");
            reveal_strlit("x3.");
            reveal_strlit("pnkbstra");
            reveal_strlit("pnkbstrab");
            reveal_strlit("ricochet");
        }
        assert(pat@ == pats[k as int].0);
        if text::contains_str(&lower, pat) {
            proof {
                crate::deploy::lemma_first_from(0, 13, p, k as int);
            }
            let kernel = ty == SERVICE_TYPE_KERNEL_DRIVER;
            let mut ev = text::chars_of("注册表服务 ");
            text::extend_str(&mut ev, name);
            text::extend_str(&mut ev, " [");
            text::extend_str(&mut ev, if kernel { "内核驱动" } else { "服务" });
            text::extend_str(&mut ev, "] Type=0x");
            let hx = util::hex_upper_vec(ty);
            text::extend(&mut ev, &hx);
            text::extend_str(&mut ev, " Start=");
            let dec = text::decimal_vec(start as u64);
            text::extend(&mut ev, &dec);
            let l = text::chars_of(label);
            assert(label@ == pats[k as int].1);
            assert(tier == pats[k as int].2);
            assert(pattern_index(text::lowered(name@)) == k);
            return Some(
                AcHit {
                    name: text::string_of(&l),
                    tier: if kernel {
                        AcTier::Kernel
                    } else {
                        tier
                    },
                    evidence: text::string_of(&ev),
                },
            );
        }
        k += 1;
    }
    proof {
        crate::deploy::lemma_first_from(0, 13, p, 13);
    }
    None
}

/// The system's findings from its registry services (name, type, start),
/// in order, one per anti-cheat name.
pub fn scan_services(services: &Vec<(String, u32, u32)>) -> (r: AcReport)
    ensures
        hit_views(r.hits@) == services_hits(services@),
{
    let mut report = AcReport::new();
    assert(hit_views(report.hits@) =~= Seq::<HitV>::empty());
    let mut i: usize = 0;
    while i < services.len()
        invariant
            i <= services.len(),
            hit_views(report.hits@) == services_hits(services@.take(i as int)),
        decreases services.len() - i,
    {
        let (name, ty, start) = (&services[i].0, services[i].1, services[i].2);
        proof {
            assert(services@.take(i + 1).drop_last() =~= services@.take(i as int));
            assert(services@.take(i + 1).last() == services@[i as int]);
        }
        match service_hit(name.as_str(), ty, start) {
            Some(h) => record(&mut report.hits, h),
            None => {},
        }
        i += 1;
    }
    assert(services@.take(services.len() as int) =~= services@);
    report
}

/// The findings from registry services, each recorded in turn.
pub open spec fn services_hits(s: Seq<(String, u32, u32)>) -> Seq<HitV>
    decreases s.len(),
{
    if s.len() == 0 {
        Seq::empty()
    } else {
        let rest = services_hits(s.drop_last());
        match spec_service_hit(s.last().0@, s.last().1, s.last().2) {
            Some(h) => push_hit(rest, h),
            None => rest,
        }
    }
}

// ------------------------------------------------------------ directory markers

/// Anti-cheat directories: name, and the anti-cheat shown.
pub const DIR_MARKERS: [(&'static str, &'static str); 5] = [
    ("EasyAntiCheat", "Easy Anti-Cheat (EAC)"),
    ("EasyAntiCheat_EOS", "Easy Anti-Cheat (EOS)"),
    ("BattlEye", "BattlEye"),
    ("GameGuard", "nProtect GameGuard"),
    ("XignCode", "XignCode3"),
];

/// Anti-cheat files: name, and the anti-cheat shown.
pub const FILE_MARKERS: [(&'static str, &'static str); 7] = [
    ("EasyAntiCheat.sys", "EAC 内核驱动"),
    ("EasyAntiCheat_EOS.sys", "EAC EOS 内核驱动"),
    ("BEDaisy.sys", "BattlEye 内核驱动"),
    ("BEService.exe", "BattlEye 服务"),
    ("start_protected_game.exe", "EAC 受保护启动器"),
    ("vgk.sys", "Riot Vanguard 内核驱动"),
    ("x3.xem", "XignCode3"),
];

pub open spec fn dir_markers() -> Seq<(Seq<char>, Seq<char>)> {
    seq![
        ("EasyAntiCheat"@, "Easy Anti-Cheat (EAC)"@),
        ("EasyAntiCheat_EOS"@, "Easy Anti-Cheat (EOS)"@),
        ("BattlEye"@, "BattlEye"@),
        ("GameGuard"@, "nProtect GameGuard"@),
        ("XignCode"@, "XignCode3"@),
    ]
}

pub open spec fn file_markers() -> Seq<(Seq<char>, Seq<char>)> {
    seq![
        ("EasyAntiCheat.sys"@, "EAC 内核驱动"@),
        ("EasyAntiCheat_EOS.sys"@, "EAC EOS 内核驱动"@),
        ("BEDaisy.sys"@, "BattlEye 内核驱动"@),
        ("BEService.exe"@, "BattlEye 服务"@),
        ("start_protected_game.exe"@, "EAC 受保护启动器"@),
        ("vgk.sys"@, "Riot Vanguard 内核驱动"@),
        ("x3.xem"@, "XignCode3"@),
    ]
}

/// The findings one directory adds, given which marker directories and
/// which marker files it has (in the order of the tables): each is a
/// kernel-level finding, with the marker's path as evidence.
pub open spec fn flat_hits(
    hits: Seq<HitV>,
    dir: Seq<char>,
    dirs: Seq<bool>,
    files: Seq<bool>,
    k: int,
) -> Seq<HitV>
    decreases k,
{
    if k <= 0 {
        hits
    } else {
        let rest = flat_hits(hits, dir, dirs, files, k - 1);
        let i = k - 1;
        if i < 5 {
            if dirs[i] {
                push_hit(
                    rest,
                    HitV {
                        name: dir_markers()[i].1,
                        tier: AcTier::Kernel,
                        evidence: "目录存在: "@ + util::join_path(dir, dir_markers()[i].0),
                    },
                )
            } else {
                rest
            }
        } else {
            if files[i - 5] {
                push_hit(
                    rest,
                    HitV {
                        name: file_markers()[i - 5].1,
                        tier: AcTier::Kernel,
                        evidence: "文件存在: "@ + util::join_path(dir, file_markers()[i - 5].0),
                    },
                )
            } else {
                rest
            }
        }
    }
}

/// Marker `i` of a directory check: the five marker directories, then the
/// seven marker files.
pub open spec fn marker_found(dirs: Seq<bool>, files: Seq<bool>, i: int) -> bool {
    if i < 5 {
        dirs[i]
    } else {
        files[i - 5]
    }
}

pub open spec fn marker_name(i: int) -> Seq<char> {
    if i < 5 {
        dir_markers()[i].1
    } else {
        file_markers()[i - 5].1
    }
}

proof fn lemma_flat_hits(hits: Seq<HitV>, dir: Seq<char>, dirs: Seq<bool>, files: Seq<bool>, k: int)
    requires
        0 <= k <= 12,
        dirs.len() == 5,
        files.len() == 7,
    ensures
        flat_hits(hits, dir, dirs, files, k).len() >= hits.len(),
        forall|m: int| 0 <= m < hits.len() ==> #[trigger] flat_hits(hits, dir, dirs, files, k)[m] == hits[m],
        forall|m: int|
            hits.len() <= m < flat_hits(hits, dir, dirs, files, k).len() ==> (#[trigger] flat_hits(
                hits,
                dir,
                dirs,
                files,
                k,
            )[m]).tier == AcTier::Kernel,
        forall|i: int|
            0 <= i < k && #[trigger] marker_found(dirs, files, i) ==> hit_names(
                flat_hits(hits, dir, dirs, files, k),
            ).contains(marker_name(i)),
    decreases k,
{
    if k > 0 {
        lemma_flat_hits(hits, dir, dirs, files, k - 1);
        let rest = flat_hits(hits, dir, dirs, files, k - 1);
        let r = flat_hits(hits, dir, dirs, files, k);
        assert forall|i: int| 0 <= i < k && #[trigger] marker_found(dirs, files, i) implies hit_names(
            r,
        ).contains(marker_name(i)) by {
            if i < k - 1 {
                let w = choose|w: int| 0 <= w < hit_names(rest).len() && hit_names(rest)[w] == marker_name(i);
                if r != rest {
                    assert(hit_names(r)[w] == marker_name(i));
                }
            } else {
                if hit_names(rest).contains(marker_name(i)) {
                    let w = choose|w: int| 0 <= w < hit_names(rest).len() && hit_names(rest)[w] == marker_name(i);
                    if r != rest {
                        assert(hit_names(r)[w] == marker_name(i));
                    }
                } else {
                    assert(hit_names(r)[rest.len() as int] == marker_name(i));
                }
            }
        }
    }
}

/// Each finding a directory check adds is named after a marker it found.
proof fn lemma_flat_new_hits(hits: Seq<HitV>, dir: Seq<char>, dirs: Seq<bool>, files: Seq<bool>, k: int, m: int)
    requires
        0 <= k <= 12,
        dirs.len() == 5,
        files.len() == 7,
        hits.len() <= m < flat_hits(hits, dir, dirs, files, k).len(),
    ensures
        exists|i: int|
            0 <= i < k && marker_found(dirs, files, i) && flat_hits(hits, dir, dirs, files, k)[m].name
                == #[trigger] marker_name(i),
    decreases k,
{
    let rest = flat_hits(hits, dir, dirs, files, k - 1);
    let r = flat_hits(hits, dir, dirs, files, k);
    lemma_flat_hits(hits, dir, dirs, files, k - 1);
    if m < rest.len() {
        assert(r.len() >= rest.len());
        assert(r[m] == rest[m]);
        lemma_flat_new_hits(hits, dir, dirs, files, k - 1, m);
        let i = choose|i: int|
            0 <= i < k - 1 && marker_found(dirs, files, i) && rest[m].name == #[trigger] marker_name(i);
        assert(marker_found(dirs, files, i) && r[m].name == marker_name(i));
    } else {
        assert(r != rest);
        assert(marker_found(dirs, files, k - 1));
        assert(r[m].name == marker_name(k - 1));
    }
}

/// A directory check records every anti-cheat marker it finds as a
/// kernel-level finding, which blocks deployment: for each marker
/// directory or file that is there, the report afterwards has a finding of
/// that anti-cheat's name, kernel-level unless a finding of that name was
/// recorded before; what was recorded before stays as it was.
pub proof fn law_markers_are_kernel_findings(hits: Seq<HitV>, dir: Seq<char>, dirs: Seq<bool>, files: Seq<bool>)
    requires
        dirs.len() == 5,
        files.len() == 7,
    ensures
        ({
            let r = flat_hits(hits, dir, dirs, files, 12);
            &&& forall|m: int| 0 <= m < hits.len() ==> #[trigger] r[m] == hits[m]
            &&& forall|i: int|
                0 <= i < 5 && #[trigger] dirs[i] && !hit_names(hits).contains(dir_markers()[i].1)
                    ==> exists|m: int|
                    0 <= m < r.len() && (#[trigger] r[m]).name == dir_markers()[i].1 && r[m].tier
                        == AcTier::Kernel
            &&& forall|i: int|
                0 <= i < 7 && #[trigger] files[i] && !hit_names(hits).contains(file_markers()[i].1)
                    ==> exists|m: int|
                    0 <= m < r.len() && (#[trigger] r[m]).name == file_markers()[i].1 && r[m].tier
                        == AcTier::Kernel
            &&& hits.len() == 0 && ((exists|i: int| 0 <= i < 5 && #[trigger] dirs[i]) || (exists|i: int|
                0 <= i < 7 && #[trigger] files[i])) ==> has_tier(r, AcTier::Kernel)
        }),
{
    lemma_flat_hits(hits, dir, dirs, files, 12);
    let r = flat_hits(hits, dir, dirs, files, 12);
    assert forall|i: int| 0 <= i < 12 && #[trigger] marker_found(dirs, files, i) && !hit_names(
        hits,
    ).contains(marker_name(i)) implies exists|m: int|
        0 <= m < r.len() && (#[trigger] r[m]).name == marker_name(i) && r[m].tier == AcTier::Kernel by {
        let w = choose|w: int| 0 <= w < hit_names(r).len() && hit_names(r)[w] == marker_name(i);
        assert(r[w].name == marker_name(i));
        if w < hits.len() {
            assert(hit_names(hits)[w] == marker_name(i));
        }
    }
    assert forall|i: int| 0 <= i < 5 && #[trigger] dirs[i] && !hit_names(hits).contains(
        dir_markers()[i].1,
    ) implies exists|m: int|
        0 <= m < r.len() && (#[trigger] r[m]).name == dir_markers()[i].1 && r[m].tier
            == AcTier::Kernel by {
        assert(marker_found(dirs, files, i));
    }
    assert forall|i: int| 0 <= i < 7 && #[trigger] files[i] && !hit_names(hits).contains(
        file_markers()[i].1,
    ) implies exists|m: int|
        0 <= m < r.len() && (#[trigger] r[m]).name == file_markers()[i].1 && r[m].tier
            == AcTier::Kernel by {
        assert(marker_found(dirs, files, i + 5));
    }
    if hits.len() == 0 && ((exists|i: int| 0 <= i < 5 && #[trigger] dirs[i]) || (exists|i: int|
        0 <= i < 7 && #[trigger] files[i])) {
        let i = if exists|i: int| 0 <= i < 5 && #[trigger] dirs[i] {
            choose|i: int| 0 <= i < 5 && #[trigger] dirs[i]
        } else {
            (choose|i: int| 0 <= i < 7 && #[trigger] files[i]) + 5
        };
        assert(marker_found(dirs, files, i));
        assert(!hit_names(hits).contains(marker_name(i)));
        let m = choose|m: int| 0 <= m < r.len() && (#[trigger] r[m]).name == marker_name(i) && r[m].tier == AcTier::Kernel;
        assert(r[m].tier == AcTier::Kernel);
    }
}

/// A directory check adds no finding it has no marker for: each finding
/// it adds is kernel-level and named after a marker directory or file that
/// is there; with no marker there the report is unchanged.
pub proof fn law_findings_come_from_markers(hits: Seq<HitV>, dir: Seq<char>, dirs: Seq<bool>, files: Seq<bool>, m: int)
    requires
        dirs.len() == 5,
        files.len() == 7,
    ensures
        hits.len() <= m < flat_hits(hits, dir, dirs, files, 12).len() ==> {
            &&& flat_hits(hits, dir, dirs, files, 12)[m].tier == AcTier::Kernel
            &&& exists|i: int|
                0 <= i < 12 && marker_found(dirs, files, i) && flat_hits(hits, dir, dirs, files, 12)[m].name
                    == #[trigger] marker_name(i)
        },
        (forall|i: int| 0 <= i < 5 ==> !#[trigger] dirs[i]) && (forall|i: int|
            0 <= i < 7 ==> !#[trigger] files[i]) ==> flat_hits(hits, dir, dirs, files, 12) == hits,
{
    lemma_flat_hits(hits, dir, dirs, files, 12);
    let r = flat_hits(hits, dir, dirs, files, 12);
    if hits.len() <= m < r.len() {
        lemma_flat_new_hits(hits, dir, dirs, files, 12, m);
    }
    if (forall|i: int| 0 <= i < 5 ==> !#[trigger] dirs[i]) && (forall|i: int|
        0 <= i < 7 ==> !#[trigger] files[i]) {
        if r.len() > hits.len() {
            lemma_flat_new_hits(hits, dir, dirs, files, 12, hits.len() as int);
            let i = choose|i: int|
                0 <= i < 12 && marker_found(dirs, files, i) && r[hits.len() as int].name == #[trigger] marker_name(i);
            if i < 5 {
                assert(!dirs[i]);
            } else {
                assert(!files[i - 5]);
            }
        }
        assert(r =~= hits);
    }
}

/// Records the anti-cheat markers of one directory: `dirs[i]` says whether
/// it has the `i`-th marker directory, `files[i]` the `i`-th marker file.
pub fn check_flat(dir: &str, dirs: &Vec<bool>, files: &Vec<bool>, report: &mut AcReport)
    requires
        dirs@.len() == 5,
        files@.len() == 7,
    ensures
        hit_views(final(report).hits@) == flat_hits(
            hit_views(old(report).hits@),
            dir@,
            dirs@,
            files@,
            12,
        ),
{
    let ghost h0 = hit_views(report.hits@);
    let mut k: usize = 0;
    while k < 12
        invariant
            k <= 12,
            dirs@.len() == 5,
            files@.len() == 7,
            hit_views(report.hits@) == flat_hits(h0, dir@, dirs@, files@, k as int),
        decreases 12 - k,
    {
        proof {
            reveal_strlit("EasyAntiCheat");
            reveal_strlit("EasyAntiCheat_EOS");
            reveal_strlit("BattlEye");
            reveal_strlit("GameGuard");
            reveal_strlit("XignCode");
        }
        if k < 5 {
            if dirs[k] {
                let (n, label) = DIR_MARKERS[k];
                let p = util::join_path_str(dir, n);
                let mut ev = text::chars_of("目录存在: ");
                text::extend_str(&mut ev, p.as_str());
                let l = text::chars_of(label);
                assert(n@ == dir_markers()[k as int].0 && label@ == dir_markers()[k as int].1);
                record(
                    &mut report.hits,
                    AcHit { name: text::string_of(&l), tier: AcTier::Kernel, evidence: text::string_of(&ev) },
                );
            }
        } else {
            if files[k - 5] {
                let (n, label) = FILE_MARKERS[k - 5];
                let p = util::join_path_str(dir, n);
                let mut ev = text::chars_of("文件存在: ");
                text::extend_str(&mut ev, p.as_str());
                let l = text::chars_of(label);
                assert(n@ == file_markers()[k - 5].0 && label@ == file_markers()[k - 5].1);
                record(
                    &mut report.hits,
                    AcHit { name: text::string_of(&l), tier: AcTier::Kernel, evidence: text::string_of(&ev) },
                );
            }
        }
        k += 1;
    }
}

} // verus!

//! The checks a deployment goes through before anything is written: what is
//! refused outright, and what the user is asked first.

use vstd::prelude::*;
use crate::text;
use crate::scan::GpuRoute;
use crate::gpu::HagsState;

verus! {

/// A question the user answers before a deployment goes on.
#[derive(Debug, Clone)]
pub enum DeployAsk {
    /// The driver is older than advised: go on anyway, or update it first.
    /// Going on deploys without removing any extra proxy.
    OldDriver,
    /// Other proxies of this project are in the directory (see
    /// `deploy::find_extra_own_proxies`): remove them, or keep them.
    ExtraProxies(Vec<String>),
}

/// What to ask when the user starts a deployment: an old driver first,
/// then this project's extra proxies; nothing when neither applies.
pub fn ask_first(driver_too_old: bool, extras: Vec<String>) -> (r: Option<DeployAsk>)
    ensures
        driver_too_old ==> (r matches Some(DeployAsk::OldDriver)),
        !driver_too_old && extras@.len() > 0 ==> (r matches Some(DeployAsk::ExtraProxies(e))
            && e@ == extras@),
        !driver_too_old && extras@.len() == 0 ==> r is None,
{
    if driver_too_old {
        Some(DeployAsk::OldDriver)
    } else if extras.len() > 0 {
        Some(DeployAsk::ExtraProxies(extras))
    } else {
        None
    }
}

/// Why a deployment stops before it starts.
#[derive(Debug, Clone)]
pub enum DeployStop {
    /// Refused, with the reason shown.
    Refused(String),
    /// A kernel-level anti-cheat was found: the user decides, and cancelling
    /// is the default.
    AskKernelAntiCheat,
}

pub open spec fn unsupported_msg() -> Seq<char> {
    "已阻止部署：检测到非 NVIDIA 显卡，本 Mod 完全不适用（需要 NVIDIA 驱动接口）"@
}

pub open spec fn not_needed_msg() -> Seq<char> {
    "已阻止部署：RTX 40/50 系原生支持 DLSS 帧生成，不需要装本 Mod"@
}

pub open spec fn gtx16_msg() -> Seq<char> {
    "已阻止部署：GTX 16 系没有 Tensor Core，DLSS 帧生成在硬件上就跑不了，换哪个版本都没用"@
}

pub open spec fn missing_proxy_msg(proxy: Seq<char>) -> Seq<char> {
    "缺少 "@ + proxy + "，请先在上方「上游资产」点「下载 / 更新资产」"@
}

/// The message for a missing DLSS runtime: its shown name and its DLL.
pub open spec fn missing_runtime_msg(label: Seq<char>, dll: Seq<char>) -> Seq<char> {
    "缺少 "@ + label + "（"@ + dll + "），请先点「下载 / 更新资产」"@
}

/// The stop, if any, as plain values: `Some(Some(msg))` is a refusal,
/// `Some(None)` the anti-cheat question. In order: a GPU the mod does not
/// apply to (not NVIDIA; RTX 40/50, which have frame generation; GTX 16,
/// which has no Tensor Cores), a kernel-level anti-cheat the user has not accepted, the
/// proxy's file missing from the assets, then each DLSS runtime's (frame
/// generation first).
pub open spec fn stop_of(
    route: GpuRoute,
    kernel_blocked: bool,
    allow_kernel: bool,
    proxy: Seq<char>,
    proxy_present: bool,
    runtime_present: Seq<bool>,
) -> Option<Option<Seq<char>>> {
    if route == GpuRoute::Unsupported {
        Some(Some(unsupported_msg()))
    } else if route == GpuRoute::NotNeeded {
        Some(Some(not_needed_msg()))
    } else if route == GpuRoute::Gtx16 {
        Some(Some(gtx16_msg()))
    } else if kernel_blocked && !allow_kernel {
        Some(None)
    } else if !proxy_present {
        Some(Some(missing_proxy_msg(proxy)))
    } else if !runtime_present[0] {
        Some(Some(missing_runtime_msg("DLSS 帧生成运行库"@, "nvngx_dlssg.dll"@)))
    } else if !runtime_present[1] {
        Some(Some(missing_runtime_msg("DLSS 超分运行库"@, "nvngx_dlss.dll"@)))
    } else {
        None
    }
}

/// Whether a deployment may start (`None`), or why not (see [`stop_of`]).
/// `runtime_present` says which DLSS runtimes are among the assets, frame
/// generation first.
pub fn deploy_stop(
    route: GpuRoute,
    kernel_blocked: bool,
    allow_kernel: bool,
    proxy: &str,
    proxy_present: bool,
    runtime_present: &Vec<bool>,
) -> (r: Option<DeployStop>)
    requires
        runtime_present@.len() == 2,
    ensures
        match stop_of(route, kernel_blocked, allow_kernel, proxy@, proxy_present, runtime_present@) {
            Some(Some(m)) => r matches Some(DeployStop::Refused(x)) && x@ == m,
            Some(None) => r matches Some(DeployStop::AskKernelAntiCheat),
            None => r is None,
        },
{
    match route {
        GpuRoute::Unsupported => {
            return Some(
                DeployStop::Refused(
                    text::owned("已阻止部署：检测到非 NVIDIA 显卡，本 Mod 完全不适用（需要 NVIDIA 驱动接口）"),
                ),
            );
        },
        GpuRoute::NotNeeded => {
            return Some(
                DeployStop::Refused(
                    text::owned("已阻止部署：RTX 40/50 系原生支持 DLSS 帧生成，不需要装本 Mod"),
                ),
            );
        },
        GpuRoute::Gtx16 => {
            return Some(
                DeployStop::Refused(
                    text::owned("已阻止部署：GTX 16 系没有 Tensor Core，DLSS 帧生成在硬件上就跑不了，换哪个版本都没用"),
                ),
            );
        },
        _ => {},
    }
    if kernel_blocked && !allow_kernel {
        return Some(DeployStop::AskKernelAntiCheat);
    }
    if !proxy_present {
        let mut m = text::chars_of("缺少 ");
        text::extend_str(&mut m, proxy);
        text::extend_str(&mut m, "，请先在上方「上游资产」点「下载 / 更新资产」");
        return Some(DeployStop::Refused(text::string_of(&m)));
    }
    if !runtime_present[0] {
        let m = text::chars_of("缺少 DLSS 帧生成运行库（nvngx_dlssg.dll），请先点「下载 / 更新资产」");
        proof {
            reveal_strlit("缺少 DLSS 帧生成运行库（nvngx_dlssg.dll），请先点「下载 / 更新资产」");
            reveal_strlit("缺少 ");
            reveal_strlit("DLSS 帧生成运行库");
            reveal_strlit("（");
            reveal_strlit("nvngx_dlssg.dll");
            reveal_strlit("），请先点「下载 / 更新资产」");
            assert(m@ =~= missing_runtime_msg("DLSS 帧生成运行库"@, "nvngx_dlssg.dll"@));
        }
        return Some(DeployStop::Refused(text::string_of(&m)));
    }
    if !runtime_present[1] {
        let m = text::chars_of("缺少 DLSS 超分运行库（nvngx_dlss.dll），请先点「下载 / 更新资产」");
        proof {
            reveal_strlit("缺少 DLSS 超分运行库（nvngx_dlss.dll），请先点「下载 / 更新资产」");
            reveal_strlit("缺少 ");
            reveal_strlit("DLSS 超分运行库");
            reveal_strlit("（");
            reveal_strlit("nvngx_dlss.dll");
            reveal_strlit("），请先点「下载 / 更新资产」");
            assert(m@ =~= missing_runtime_msg("DLSS 超分运行库"@, "nvngx_dlss.dll"@));
        }
        return Some(DeployStop::Refused(text::string_of(&m)));
    }
    None
}

/// The note recorded when the user deploys despite a kernel-level
/// anti-cheat, naming the anti-cheats found.
pub fn kernel_ac_note(names: &Vec<String>) -> (r: String)
    ensures
        r@ == "⚠ 用户确认在内核级反作弊（"@ + text::join(text::views(names@), "、"@)
            + "）的情况下继续部署，风险自负"@,
{
    let mut out = text::chars_of("⚠ 用户确认在内核级反作弊（");
    let j = text::join_strings(names, "、");
    text::extend(&mut out, &j);
    text::extend_str(&mut out, "）的情况下继续部署，风险自负");
    text::string_of(&out)
}

/// After a deployment, the user is reminded of GPU scheduling only when it
/// is known to be off (unknown is common on Windows 11, where it is on).
pub fn hags_prompt_after_deploy(h: HagsState) -> (r: bool)
    ensures
        r == (h == HagsState::Disabled),
{
    match h {
        HagsState::Disabled => true,
        _ => false,
    }
}

/// A deployment on a card whose route is not the mod's is refused before
/// anything else is looked at: an RTX 40/50 card (frame generation built
/// in), a card of another vendor, and a GTX 16 card are each refused with
/// their own message, whatever the anti-cheat, proxy and runtime facts.
pub proof fn law_route_refusals(
    name: Seq<char>,
    kernel_blocked: bool,
    allow_kernel: bool,
    proxy: Seq<char>,
    proxy_present: bool,
    runtime_present: Seq<bool>,
)
    ensures
        ({
            let n = text::ascii_upper(name);
            let s = stop_of(
                crate::scan::spec_classify_gpu(name),
                kernel_blocked,
                allow_kernel,
                proxy,
                proxy_present,
                runtime_present,
            );
            &&& text::contains(n, "RTX 40"@) || text::contains(n, "RTX 50"@) ==> s == Some(
                Some(not_needed_msg()),
            )
            &&& crate::scan::spec_classify_gpu(name) == GpuRoute::Unsupported ==> s == Some(
                Some(unsupported_msg()),
            )
            &&& crate::scan::spec_classify_gpu(name) == GpuRoute::Gtx16 ==> s == Some(
                Some(gtx16_msg()),
            )
        }),
{
    crate::scan::law_gpu_routes(name);
}

/// A deployment may start only on a card the mod serves (RTX 30, RTX 20,
/// or one not recognised), with no kernel-level anti-cheat unless the user
/// allowed it, with the proxy entry and both DLSS runtimes among the
/// assets; on such a card, kernel-level anti-cheat without permission
/// asks the user first, and a missing proxy entry is refused naming it.
pub proof fn law_deploy_gate(
    route: GpuRoute,
    kernel_blocked: bool,
    allow_kernel: bool,
    proxy: Seq<char>,
    proxy_present: bool,
    runtime_present: Seq<bool>,
)
    requires
        runtime_present.len() == 2,
    ensures
        ({
            let s = stop_of(route, kernel_blocked, allow_kernel, proxy, proxy_present, runtime_present);
            let served = route == GpuRoute::Sm86 || route == GpuRoute::Sm75 || route
                == GpuRoute::Unknown;
            &&& s is None <==> served && (!kernel_blocked || allow_kernel) && proxy_present
                && runtime_present[0] && runtime_present[1]
            &&& served && kernel_blocked && !allow_kernel ==> s == Some(None::<Seq<char>>)
            &&& served && (!kernel_blocked || allow_kernel) && !proxy_present ==> s == Some(
                Some(missing_proxy_msg(proxy)),
            )
        }),
{
}

} // verus!

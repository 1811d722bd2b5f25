//! The GPU side: the NVIDIA driver version and whether it is new enough, the
//! hardware-accelerated GPU scheduling state, and the rules of the GPU name
//! override (which value is written, what is backed up, what a restore
//! writes back). The registry is read and written by the caller.

use vstd::prelude::*;
use crate::text;

verus! {

/// The lowest NVIDIA driver frame generation is advised on.
pub const MIN_FG_DRIVER: (u32, u32) = (555, 0);
pub const MIN_FG_DRIVER_TEXT: &'static str = "555.0（R555）";
/// NVIDIA's driver download page.
pub const DRIVER_URL: &'static str = "https://www.nvidia.cn/geforce/drivers/";

/// The device class of display adapters.
pub const DISPLAY_CLASS: &'static str = "{4d36e968-e325-11ce-bfc1-08002be10318}";
pub const CLASS_KEY: &'static str = "SYSTEM\\CurrentControlSet\\Control\\Class\\{4d36e968-e325-11ce-bfc1-08002be10318}";
pub const ENUM_PCI: &'static str = "SYSTEM\\CurrentControlSet\\Enum\\PCI";
pub const NVIDIA_SERVICE: &'static str = "nvlddmkm";

/// The only names the GPU may be shown as: desktop RTX 50 models.
pub const PRESETS: [&'static str; 6] = [
    "NVIDIA GeForce RTX 5090",
    "NVIDIA GeForce RTX 5080",
    "NVIDIA GeForce RTX 5070 Ti",
    "NVIDIA GeForce RTX 5070",
    "NVIDIA GeForce RTX 5060 Ti",
    "NVIDIA GeForce RTX 5060",
];

pub open spec fn is_preset(name: Seq<char>) -> bool {
    exists|i: int| 0 <= i < 6 && (#[trigger] PRESETS@[i])@ == name
}

// ------------------------------------------------------------ versions

pub open spec fn digits_only() -> spec_fn(char) -> Option<char> {
    |c: char|
        if text::is_digit(c) {
            Some(c)
        } else {
            None
        }
}

/// `32.0.16.1692` -> `(616, 92)`: all the digits run together, the last
/// five read as three and two; none when there are fewer than five digits.
pub open spec fn spec_windows_version(v: Seq<char>) -> Option<(u32, u32)> {
    let d = text::filter_map(v, digits_only());
    if d.len() < 5 {
        None
    } else {
        let tail = d.skip(d.len() - 5);
        Some(
            (
                text::digits_value(tail.take(3)) as u32,
                text::digits_value(tail.skip(3)) as u32,
            ),
        )
    }
}

proof fn lemma_digits_small(s: Seq<char>)
    requires
        text::all_digits(s),
    ensures
        text::digits_value(s) < pow10(s.len()),
    decreases s.len(),
{
    if s.len() > 0 {
        lemma_digits_small(s.drop_last());
        assert(text::all_digits(s.drop_last())) by {
            assert forall|i: int| 0 <= i < s.drop_last().len() implies text::is_digit(
                #[trigger] s.drop_last()[i],
            ) by {
                assert(s.drop_last()[i] == s[i]);
            }
        }
        assert(text::is_digit(s[s.len() - 1]));
    }
}

pub open spec fn pow10(n: nat) -> nat
    decreases n,
{
    if n == 0 {
        1
    } else {
        10 * pow10((n - 1) as nat)
    }
}

fn value_of(s: &[char]) -> (r: u32)
    requires
        text::all_digits(s@),
        s@.len() <= 3,
    ensures
        r == text::digits_value(s@),
{
    let mut v: u32 = 0;
    let mut i: usize = 0;
    proof {
        reveal_with_fuel(pow10, 4);
        lemma_digits_small(s@);
        assert(pow10(1) == 10);
        assert(pow10(2) == 100);
        assert(pow10(3) == 1000);
        assert(pow10(s@.len()) <= 1000) by {
            if s@.len() == 0 {
            } else if s@.len() == 1 {
                assert(pow10(1) == 10);
            } else if s@.len() == 2 {
                assert(pow10(2) == 100);
            }
        }
    }
    while i < s.len()
        invariant
            i <= s.len() <= 3,
            text::all_digits(s@),
            v == text::digits_value(s@.take(i as int)),
            v < pow10(i as nat),
        decreases s.len() - i,
    {
        proof {
            assert(s@.take(i + 1).drop_last() =~= s@.take(i as int));
            assert(text::is_digit(s@[i as int]));
            assert(pow10((i + 1) as nat) == 10 * pow10(i as nat));
            assert(pow10(i as nat) <= 100) by {
                reveal_with_fuel(pow10, 4);
                if i == 0 {
                } else if i == 1 {
                    assert(pow10(1) == 10);
                } else {
                    assert(pow10(1) == 10);
                    assert(pow10(2) == 100);
                }
            }
        }
        v = v * 10 + (text::digit_of(s[i]) as u32);
        i += 1;
    }
    assert(s@.take(s.len() as int) =~= s@);
    v
}

/// The marketing version of a Windows-style driver version.
pub fn parse_windows_version(v: &str) -> (r: Option<(u32, u32)>)
    ensures
        r == spec_windows_version(v@),
{
    let s = text::chars_of(v);
    let mut d: Vec<char> = Vec::new();
    let mut i: usize = 0;
    while i < s.len()
        invariant
            i <= s.len(),
            d@ == text::filter_map(s@.take(i as int), digits_only()),
            text::all_digits(d@),
        decreases s.len() - i,
    {
        proof {
            text::lemma_filter_map_take(s@, digits_only(), i as int);
        }
        if '0' <= s[i] && s[i] <= '9' {
            d.push(s[i]);
        }
        i += 1;
    }
    proof {
        text::lemma_take_full(s@);
    }
    if d.len() < 5 {
        return None;
    }
    let n = d.len();
    let a = text::slice_vec(&d, n - 5, n - 2);
    let b = text::slice_vec(&d, n - 2, n);
    proof {
        let tail = d@.skip(n - 5);
        assert(a@ =~= tail.take(3));
        assert(b@ =~= tail.skip(3));
        assert(text::all_digits(a@)) by {
            assert forall|k: int| 0 <= k < a@.len() implies text::is_digit(#[trigger] a@[k]) by {
                assert(a@[k] == d@[n - 5 + k]);
            }
        }
        assert(text::all_digits(b@)) by {
            assert forall|k: int| 0 <= k < b@.len() implies text::is_digit(#[trigger] b@[k]) by {
                assert(b@[k] == d@[n - 2 + k]);
            }
        }
    }
    Some((value_of(&a), value_of(&b)))
}

/// `616.92` -> `(616, 92)`: the trimmed text split at its first `.`, each
/// side trimmed and read as a `u32`.
pub open spec fn spec_marketing_version(v: Seq<char>) -> Option<(u32, u32)> {
    let t = text::trim(v);
    let i = text::first_index(t, '.');
    if i >= t.len() {
        None
    } else {
        match (
            text::parse_uint(text::trim(t.take(i)), u32::MAX as nat),
            text::parse_uint(text::trim(t.skip(i + 1)), u32::MAX as nat),
        ) {
            (Some(a), Some(b)) => Some((a as u32, b as u32)),
            _ => None,
        }
    }
}

pub fn parse_marketing_version(v: &str) -> (r: Option<(u32, u32)>)
    ensures
        r == spec_marketing_version(v@),
{
    let t = text::trim_str(v);
    let i = text::find_char(&t, 0, '.');
    assert(t@.subrange(0, t@.len() as int) =~= t@);
    if i >= t.len() {
        return None;
    }
    let av = text::slice_vec(&t, 0, i);
    let bv = text::slice_vec(&t, i + 1, t.len());
    assert(av@ =~= t@.take(i as int));
    assert(bv@ =~= t@.skip(i + 1));
    let at = text::trim_vec(&av);
    let bt = text::trim_vec(&bv);
    let a = text::parse_uint_exec(&at, u32::MAX as u64);
    let b = text::parse_uint_exec(&bt, u32::MAX as u64);
    match (a, b) {
        (Some(x), Some(y)) => Some((x as u32, y as u32)),
        _ => None,
    }
}

/// `616.92`, `555.00`: the minor part with two digits at least.
pub open spec fn spec_fmt_version(v: (u32, u32)) -> Seq<char> {
    text::decimal(v.0 as nat) + "."@ + text::pad_left(text::decimal(v.1 as nat), 2, '0')
}

pub fn fmt_version(v: (u32, u32)) -> (r: String)
    ensures
        r@ == spec_fmt_version(v),
{
    let mut s = text::decimal_vec(v.0 as u64);
    text::extend_str(&mut s, ".");
    let m = text::decimal_padded(v.1 as u64, 2);
    text::extend(&mut s, &m);
    text::string_of(&s)
}

/// A written version reads back as a decimal number, for the padding with
/// zeros that the minor part may get.
pub(crate) proof fn lemma_number_part(n: nat, width: nat)
    ensures
        ({
            let p = text::pad_left(text::decimal(n), width, '0');
            &&& p.len() > 0
            &&& text::all_digits(p)
            &&& text::digits_value(p) == n
        }),
{
    let d = text::decimal(n);
    text::lemma_decimal_ascii(n);
    text::lemma_decimal_value(n);
    if d.len() < width {
        let z = (width - d.len()) as nat;
        text::lemma_zeros_value(z, d);
        let p = Seq::new(z, |i: int| '0') + d;
        assert forall|i: int| 0 <= i < p.len() implies text::is_digit(#[trigger] p[i]) by {
            if i >= z {
                assert(p[i] == d[i - z]);
            }
        }
    }
}

/// A digits-only text reads as its value with `str::parse`, within range.
pub(crate) proof fn lemma_parse_digits(p: Seq<char>, max: nat)
    requires
        p.len() > 0,
        text::all_digits(p),
        text::digits_value(p) <= max,
    ensures
        text::trim(p) == p,
        text::parse_uint(text::trim(p), max) == Some(text::digits_value(p)),
{
    assert(text::is_digit(p[0]));
    assert(text::is_digit(p.last()));
    text::lemma_trim_keeps(p);
}

/// Writing a version and reading it back gives the same version.
pub proof fn law_version_round_trip(v: (u32, u32))
    ensures
        spec_marketing_version(spec_fmt_version(v)) == Some(v),
{
    reveal_strlit(".");
    let a = text::decimal(v.0 as nat);
    let b = text::pad_left(text::decimal(v.1 as nat), 2, '0');
    lemma_number_part(v.0 as nat, 0);
    lemma_number_part(v.1 as nat, 2);
    assert(text::pad_left(a, 0, '0') == a);
    let s = spec_fmt_version(v);
    assert(s =~= a + seq!['.'] + b);
    assert(s[0] == a[0]);
    assert(s.last() == b.last());
    assert(text::is_digit(a[0]) && text::is_digit(b.last()));
    text::lemma_trim_keeps(s);
    let i = a.len() as int;
    assert forall|k: int| 0 <= k < i implies s[k] != '.' by {
        assert(s[k] == a[k]);
        assert(text::is_digit(a[k]));
    }
    text::lemma_first_index_unique(s, '.', i);
    assert(s.take(i) =~= a);
    assert(s.skip(i + 1) =~= b);
    lemma_parse_digits(a, u32::MAX as nat);
    lemma_parse_digits(b, u32::MAX as nat);
}

/// `a` is an older version than `b`.
pub open spec fn version_lt(a: (u32, u32), b: (u32, u32)) -> bool {
    a.0 < b.0 || (a.0 == b.0 && a.1 < b.1)
}

/// The installed driver.
#[derive(Debug)]
pub struct DriverInfo {
    /// As NVIDIA writes it, such as "616.92".
    pub marketing: String,
    pub version: (u32, u32),
    /// The raw Windows-style version, such as "32.0.16.1692".
    pub windows: Option<String>,
    /// Where the version was read.
    pub source: &'static str,
}

impl DriverInfo {
    /// Older than the advised minimum: frame generation may not work.
    pub fn too_old(&self) -> (r: bool)
        ensures
            r == version_lt(self.version, MIN_FG_DRIVER),
    {
        self.version.0 < MIN_FG_DRIVER.0 || (self.version.0 == MIN_FG_DRIVER.0 && self.version.1
            < MIN_FG_DRIVER.1)
    }
}

// ------------------------------------------------------------ adapters

/// One NVIDIA display adapter, as the registry records it.
#[derive(Debug, Clone)]
pub struct GpuAdapter {
    /// The instance under the class key, such as "0000".
    pub class_sub: String,
    /// The name the driver records; routing goes by it.
    pub driver_name: String,
    /// Such as "32.0.16.1692".
    pub driver_version: String,
    /// The device instance key (under HKLM) that names the value written.
    pub enum_key: String,
    pub hardware_id: String,
    /// The device's current `DeviceDesc`.
    pub device_desc: Option<String>,
}

/// The shown part of a `DeviceDesc`: after the last `;` (indirect strings
/// look like `@oem19.inf,%nvidia_dev.2484%;NVIDIA GeForce RTX 3070`), trimmed.
pub open spec fn spec_display_name(raw: Seq<char>) -> Seq<char> {
    text::trim(raw.skip(last_semicolon(raw) + 1))
}

/// Index of the last `;`, or -1.
pub open spec fn last_semicolon(s: Seq<char>) -> int
    decreases s.len(),
{
    if s.len() == 0 {
        -1
    } else if s.last() == ';' {
        s.len() - 1
    } else {
        last_semicolon(s.drop_last())
    }
}

proof fn lemma_last_semicolon(s: Seq<char>)
    ensures
        -1 <= last_semicolon(s) < s.len(),
        last_semicolon(s) >= 0 ==> s[last_semicolon(s)] == ';',
        forall|j: int| last_semicolon(s) < j < s.len() ==> s[j] != ';',
    decreases s.len(),
{
    if s.len() > 0 && s.last() != ';' {
        lemma_last_semicolon(s.drop_last());
        assert forall|j: int| last_semicolon(s) < j < s.len() implies s[j] != ';' by {
            if j < s.len() - 1 {
                assert(s[j] == s.drop_last()[j]);
            }
        }
    }
}

pub fn display_name(raw: &str) -> (r: String)
    ensures
        r@ == spec_display_name(raw@),
{
    let s = text::chars_of(raw);
    let mut i: usize = s.len();
    while i > 0 && s[i - 1] != ';'
        invariant
            i <= s.len(),
            forall|j: int| i <= j < s.len() ==> s@[j] != ';',
        decreases i,
    {
        i -= 1;
    }
    proof {
        lemma_last_semicolon(s@);
        let l = last_semicolon(s@);
        if i > 0 {
            if l < i - 1 {
                assert(s@[i - 1] != ';');
            }
        }
        assert(l == i - 1);
    }
    let rest = text::slice_vec(&s, i, s.len());
    assert(rest@ =~= s@.skip(i as int));
    let t = text::trim_vec(&rest);
    text::string_of(&t)
}

pub open spec fn spec_current_name(a: GpuAdapter) -> Option<Seq<char>> {
    match a.device_desc {
        Some(d) => if spec_display_name(d@).len() > 0 {
            Some(spec_display_name(d@))
        } else {
            None
        },
        None => None,
    }
}

impl GpuAdapter {
    /// The name shown now.
    pub fn current_name(&self) -> (r: Option<String>)
        ensures
            match r {
                Some(n) => spec_current_name(*self) == Some(n@),
                None => spec_current_name(*self) is None,
            },
    {
        match &self.device_desc {
            Some(d) => {
                let n = display_name(d.as_str());
                if n.as_str().unicode_len() > 0 {
                    Some(n)
                } else {
                    None
                }
            },
            None => None,
        }
    }

    /// The shown name differs from the driver's (ignoring ASCII case).
    pub fn spoofed(&self) -> (r: bool)
        ensures
            r == match spec_current_name(*self) {
                Some(n) => !text::eq_ic(n, self.driver_name@),
                None => false,
            },
    {
        match self.current_name() {
            Some(n) => {
                let a = text::chars_of(n.as_str());
                let b = text::chars_of(self.driver_name.as_str());
                !text::eq_ignore_case(&a, &b)
            },
            None => false,
        }
    }
}

pub open spec fn is_nvidia_name(n: Seq<char>) -> bool {
    text::contains(text::ascii_upper(n), "NVIDIA"@)
}

/// The adapter to show and act on: the first NVIDIA one, else the first.
pub fn primary(adapters: &Vec<GpuAdapter>) -> (r: Option<usize>)
    ensures
        match r {
            Some(i) => i < adapters@.len() && ((is_nvidia_name(adapters@[i as int].driver_name@)
                && forall|j: int| 0 <= j < i ==> !is_nvidia_name(#[trigger] adapters@[j].driver_name@))
                || (i == 0 && forall|j: int|
                0 <= j < adapters@.len() ==> !is_nvidia_name(#[trigger] adapters@[j].driver_name@))),
            None => adapters@.len() == 0,
        },
{
    let mut i: usize = 0;
    while i < adapters.len()
        invariant
            i <= adapters.len(),
            forall|j: int| 0 <= j < i ==> !is_nvidia_name(#[trigger] adapters@[j].driver_name@),
        decreases adapters.len() - i,
    {
        let n = text::chars_of(adapters[i].driver_name.as_str());
        let u = text::upper_vec(&n);
        if text::contains_str(&u, "NVIDIA") {
            return Some(i);
        }
        i += 1;
    }
    if adapters.len() > 0 {
        Some(0)
    } else {
        None
    }
}

/// The driver, as `nvidia-smi` reports it (`smi`, when it ran), else from
/// the primary adapter's recorded version.
pub fn detect_driver(adapters: &Vec<GpuAdapter>, smi: Option<String>) -> (r: Option<DriverInfo>)
    ensures
        ({
            let win = match primary_spec(adapters@) {
                Some(i) => if adapters@[i].driver_version@.len() > 0 {
                    Some(adapters@[i].driver_version@)
                } else {
                    None
                },
                None => None,
            };
            let from_smi = match smi {
                Some(s) => spec_marketing_version(s@),
                None => None,
            };
            match from_smi {
                Some(v) => r is Some && r.unwrap().version == v && r.unwrap().marketing@
                    == spec_fmt_version(v) && r.unwrap().source@ == "nvidia-smi"@ && opt_view(
                    r.unwrap().windows,
                ) == win,
                None => match win {
                    Some(w) => match spec_windows_version(w) {
                        Some(v) => r is Some && r.unwrap().version == v && r.unwrap().marketing@
                            == spec_fmt_version(v) && r.unwrap().source@ == "注册表"@ && opt_view(
                            r.unwrap().windows,
                        ) == win,
                        None => r is None,
                    },
                    None => r is None,
                },
            }
        }),
{
    let p = primary(adapters);
    proof {
        lemma_primary(adapters@, p);
    }
    let windows: Option<String> = match p {
        Some(i) => {
            if adapters[i].driver_version.as_str().unicode_len() > 0 {
                Some(text::copy_string(&adapters[i].driver_version))
            } else {
                None
            }
        },
        None => None,
    };
    match &smi {
        Some(raw) => match parse_marketing_version(raw.as_str()) {
            Some(v) => {
                return Some(
                    DriverInfo { marketing: fmt_version(v), version: v, windows, source: "nvidia-smi" },
                );
            },
            None => {},
        },
        None => {},
    }
    let v = match &windows {
        Some(w) => match parse_windows_version(w.as_str()) {
            Some(v) => v,
            None => {
                return None;
            },
        },
        None => {
            return None;
        },
    };
    Some(DriverInfo { marketing: fmt_version(v), version: v, windows, source: "注册表" })
}

pub open spec fn opt_view(o: Option<String>) -> Option<Seq<char>> {
    match o {
        Some(s) => Some(s@),
        None => None,
    }
}

/// The primary adapter's index (see [`primary`]).
pub open spec fn primary_spec(a: Seq<GpuAdapter>) -> Option<int> {
    if exists|i: int| 0 <= i < a.len() && is_nvidia_name(#[trigger] a[i].driver_name@) {
        Some(
            choose|i: int|
                0 <= i < a.len() && is_nvidia_name(#[trigger] a[i].driver_name@) && forall|j: int|
                    0 <= j < i ==> !is_nvidia_name(#[trigger] a[j].driver_name@),
        )
    } else if a.len() > 0 {
        Some(0)
    } else {
        None
    }
}

proof fn lemma_primary(a: Seq<GpuAdapter>, p: Option<usize>)
    requires
        match p {
            Some(i) => i < a.len() && ((is_nvidia_name(a[i as int].driver_name@) && forall|j: int|
                0 <= j < i ==> !is_nvidia_name(#[trigger] a[j].driver_name@)) || (i == 0 && forall|
                j: int|
                0 <= j < a.len() ==> !is_nvidia_name(#[trigger] a[j].driver_name@))),
            None => a.len() == 0,
        },
    ensures
        match p {
            Some(i) => primary_spec(a) == Some(i as int),
            None => primary_spec(a) is None,
        },
{
    match p {
        Some(i) => {
            if exists|k: int| 0 <= k < a.len() && is_nvidia_name(#[trigger] a[k].driver_name@) {
                let c = choose|k: int|
                    0 <= k < a.len() && is_nvidia_name(#[trigger] a[k].driver_name@) && forall|j: int|
                        0 <= j < k ==> !is_nvidia_name(#[trigger] a[j].driver_name@);
                assert(is_nvidia_name(a[i as int].driver_name@));
                assert(c == i) by {
                    if c < i {
                        assert(!is_nvidia_name(a[c].driver_name@));
                    } else if c > i {
                        assert(!is_nvidia_name(a[i as int].driver_name@));
                    }
                }
            }
        },
        None => {},
    }
}

// ------------------------------------------------------------ GPU scheduling

/// Hardware-accelerated GPU scheduling. The registry's `HwSchMode` is 2 when
/// on and 1 when off, and often absent (Windows 11 turns it on without
/// writing it), so absent means unknown, never off.
#[derive(Debug, Clone, Copy, PartialEq, Eq, Structural)]
pub enum HagsState {
    Enabled,
    Disabled,
    Unknown,
}

pub open spec fn hags_label(s: HagsState) -> Seq<char> {
    match s {
        HagsState::Enabled => "已开启"@,
        HagsState::Disabled => "已关闭"@,
        HagsState::Unknown => "未知"@,
    }
}

impl HagsState {
    pub fn label(self) -> (r: &'static str)
        ensures
            r@ == hags_label(self),
    {
        match self {
            HagsState::Enabled => "已开启",
            HagsState::Disabled => "已关闭",
            HagsState::Unknown => "未知",
        }
    }
}

/// 2 is on, 1 is off, anything else (or nothing) unknown.
pub fn hags_from_value(v: Option<u32>) -> (r: HagsState)
    ensures
        r == (match v {
            Some(2) => HagsState::Enabled,
            Some(1) => HagsState::Disabled,
            _ => HagsState::Unknown,
        }),
{
    match v {
        Some(2) => HagsState::Enabled,
        Some(1) => HagsState::Disabled,
        _ => HagsState::Unknown,
    }
}

/// Windows 11 starts at build 22000; an unknown build counts as Windows 10.
pub fn is_windows_11(build: Option<u32>) -> (r: bool)
    ensures
        r == (match build {
            Some(b) => b >= 22000,
            None => false,
        }),
{
    match build {
        Some(b) => b >= 22000,
        None => false,
    }
}

/// The settings page of GPU scheduling: the default graphics settings page
/// on Windows 11, the graphics settings page on Windows 10.
pub fn hags_settings_uri(build: Option<u32>) -> (r: &'static str)
    ensures
        r@ == (if is_windows_11_spec(build) {
            "ms-settings:display-advancedgraphics-default"@
        } else {
            "ms-settings:display-advancedgraphics"@
        }),
{
    if is_windows_11(build) {
        "ms-settings:display-advancedgraphics-default"
    } else {
        "ms-settings:display-advancedgraphics"
    }
}

pub open spec fn is_windows_11_spec(build: Option<u32>) -> bool {
    match build {
        Some(b) => b >= 22000,
        None => false,
    }
}

// ------------------------------------------------------------ name override backup

/// The backup of one adapter's `DeviceDesc`.
#[derive(Debug, Clone)]
pub struct BackupEntry {
    pub key: String,
    /// Whether the value existed before this tool first wrote it.
    pub existed_before: bool,
    /// The value before this tool first wrote it.
    pub original: Option<String>,
    /// The value this tool wrote last.
    pub applied: String,
    /// The driver's name, to restore to as a fallback.
    pub driver_name: String,
    pub saved_at: String,
}

/// All backed-up adapters.
#[derive(Debug, Clone)]
pub struct Backup {
    pub saved_at: String,
    pub entries: Vec<BackupEntry>,
}

pub struct BEntryV {
    pub key: Seq<char>,
    pub existed_before: bool,
    pub original: Option<Seq<char>>,
    pub applied: Seq<char>,
    pub driver_name: Seq<char>,
    pub saved_at: Seq<char>,
}

impl View for BackupEntry {
    type V = BEntryV;

    open spec fn view(&self) -> BEntryV {
        BEntryV {
            key: self.key@,
            existed_before: self.existed_before,
            original: opt_view(self.original),
            applied: self.applied@,
            driver_name: self.driver_name@,
            saved_at: self.saved_at@,
        }
    }
}

pub open spec fn bviews(v: Seq<BackupEntry>) -> Seq<BEntryV> {
    v.map_values(|e: BackupEntry| e@)
}

/// Index of the first entry for `key`, or the number of entries.
pub open spec fn entry_for(es: Seq<BEntryV>, key: Seq<char>) -> int
    decreases es.len(),
{
    if es.len() == 0 {
        0
    } else if es[0].key == key {
        0
    } else {
        1 + entry_for(es.drop_first(), key)
    }
}

proof fn lemma_entry_for(es: Seq<BEntryV>, key: Seq<char>)
    ensures
        0 <= entry_for(es, key) <= es.len(),
        entry_for(es, key) < es.len() ==> es[entry_for(es, key)].key == key,
        forall|j: int| 0 <= j < entry_for(es, key) ==> (#[trigger] es[j]).key != key,
    decreases es.len(),
{
    if es.len() > 0 && es[0].key != key {
        lemma_entry_for(es.drop_first(), key);
        assert forall|j: int| 0 <= j < entry_for(es, key) implies (#[trigger] es[j]).key != key by {
            if j > 0 {
                assert(es[j] == es.drop_first()[j - 1]);
            }
        }
    }
}

fn find_entry(es: &Vec<BackupEntry>, key: &String) -> (r: usize)
    ensures
        r == entry_for(bviews(es@), key@),
{
    let ghost v = bviews(es@);
    let mut i: usize = 0;
    while i < es.len()
        invariant
            i <= es.len(),
            v == bviews(es@),
            forall|j: int| 0 <= j < i ==> (#[trigger] v[j]).key != key@,
        decreases es.len() - i,
    {
        let a = text::chars_of(es[i].key.as_str());
        let b = text::chars_of(key.as_str());
        if text::eq(&a, &b) {
            proof {
                lemma_entry_for(v, key@);
                assert(v[i as int] == es@[i as int]@);
                assert(v[i as int].key == key@);
            }
            return i;
        }
        i += 1;
    }
    proof {
        lemma_entry_for(v, key@);
    }
    i
}

/// Whether the backup has an entry for the adapter.
pub fn has_backup_for(backup: &Option<Backup>, a: &GpuAdapter) -> (r: bool)
    ensures
        r == match backup {
            Some(b) => entry_for(bviews(b.entries@), a.enum_key@) < b.entries@.len(),
            None => false,
        },
{
    match backup {
        Some(b) => find_entry(&b.entries, &a.enum_key) < b.entries.len(),
        None => false,
    }
}

/// The backup after the name is overridden with `new_name`: an adapter
/// already backed up keeps its first original and only records the new
/// value; otherwise it gets an entry with the value found now.
pub open spec fn spec_apply_backup(
    entries: Seq<BEntryV>,
    a: GpuAdapter,
    original: Option<Seq<char>>,
    new_name: Seq<char>,
    now: Seq<char>,
) -> Seq<BEntryV> {
    let i = entry_for(entries, a.enum_key@);
    if i < entries.len() {
        entries.update(i, BEntryV { applied: new_name, ..entries[i] })
    } else {
        entries.push(
            BEntryV {
                key: a.enum_key@,
                existed_before: original is Some,
                original,
                applied: new_name,
                driver_name: a.driver_name@,
                saved_at: now,
            },
        )
    }
}

/// Why a GPU name change is refused.
#[derive(Debug, Clone)]
pub enum GpuError {
    /// The name is not one of [`PRESETS`].
    NotPreset { name: String },
    /// No NVIDIA adapter was found.
    NoAdapter,
    /// There is no original to restore: none was backed up, or the value did
    /// not exist before.
    NoBackupOriginal,
    /// The value to restore is blank.
    EmptyTarget,
}

impl GpuError {
    pub fn message(&self) -> (r: String)
        ensures
            r@ == (match *self {
                GpuError::NotPreset { name } => "型号「"@ + name@
                    + "」不在允许的名单里，已拒绝写入（防止填错型号）"@,
                GpuError::NoAdapter => "没有找到可操作的 NVIDIA 显卡注册表实例"@,
                GpuError::NoBackupOriginal => "没有可用的备份原始值（记录显示该值原本不存在）。可以改用「还原为驱动记录的名称」，或在设备管理器里卸载显卡后重新扫描硬件。"@,
                GpuError::EmptyTarget => "目标值是空的，已中止"@,
            }),
    {
        match self {
            GpuError::NotPreset { name } => {
                let mut v = text::chars_of("型号「");
                text::extend_str(&mut v, name.as_str());
                text::extend_str(&mut v, "」不在允许的名单里，已拒绝写入（防止填错型号）");
                text::string_of(&v)
            },
            GpuError::NoAdapter => text::owned("没有找到可操作的 NVIDIA 显卡注册表实例"),
            GpuError::NoBackupOriginal => text::owned(
                "没有可用的备份原始值（记录显示该值原本不存在）。可以改用「还原为驱动记录的名称」，或在设备管理器里卸载显卡后重新扫描硬件。",
            ),
            GpuError::EmptyTarget => text::owned("目标值是空的，已中止"),
        }
    }
}

fn clone_opt(o: &Option<String>) -> (r: Option<String>)
    ensures
        opt_view(r) == opt_view(*o),
{
    match o {
        Some(s) => Some(text::copy_string(s)),
        None => None,
    }
}

fn clone_bentry(e: &BackupEntry) -> (r: BackupEntry)
    ensures
        r@ == e@,
{
    BackupEntry {
        key: text::copy_string(&e.key),
        existed_before: e.existed_before,
        original: clone_opt(&e.original),
        applied: text::copy_string(&e.applied),
        driver_name: text::copy_string(&e.driver_name),
        saved_at: text::copy_string(&e.saved_at),
    }
}

/// Whether a name is one of [`PRESETS`], the names an adapter may be shown
/// as; checked before anything is read or written.
pub fn preset_ok(new_name: &str) -> (r: bool)
    ensures
        r == is_preset(new_name@),
{
    let nv = text::chars_of(new_name);
    let mut ok = false;
    let mut k: usize = 0;
    while k < 6
        invariant
            k <= 6,
            ok == exists|i: int| 0 <= i < k && (#[trigger] PRESETS@[i])@ == new_name@,
            nv@ == new_name@,
        decreases 6 - k,
    {
        let p = text::chars_of(PRESETS[k]);
        if text::eq(&p, &nv) {
            ok = true;
        }
        k += 1;
    }
    ok
}

/// Plans overriding the adapter's shown name with `new_name`, which must be
/// one of [`PRESETS`]: the backup to write first (see
/// [`spec_apply_backup`]; `original` is the value found now, `now` the time).
pub fn apply(
    a: &GpuAdapter,
    new_name: &str,
    original: Option<String>,
    backup: Option<Backup>,
    now: &str,
) -> (r: Result<Backup, GpuError>)
    ensures
        match r {
            Ok(b) => is_preset(new_name@) && b.saved_at@ == now@ && bviews(b.entries@)
                == spec_apply_backup(
                match backup {
                    Some(bk) => bviews(bk.entries@),
                    None => Seq::empty(),
                },
                *a,
                opt_view(original),
                new_name@,
                now@,
            ),
            Err(e) => !is_preset(new_name@) && (e matches GpuError::NotPreset { name } && name@ == new_name@),
        },
{
    let ok = preset_ok(new_name);
    if !ok {
        return Err(GpuError::NotPreset { name: text::owned(new_name) });
    }
    let mut entries: Vec<BackupEntry> = match backup {
        Some(bk) => bk.entries,
        None => Vec::new(),
    };
    let ghost e0 = bviews(entries@);
    let i = find_entry(&entries, &a.enum_key);
    if i < entries.len() {
        let mut e = clone_bentry(&entries[i]);
        e.applied = text::owned(new_name);
        let ghost ev = e@;
        entries.set(i, e);
        assert(bviews(entries@) =~= e0.update(i as int, ev));
    } else {
        entries.push(
            BackupEntry {
                key: text::copy_string(&a.enum_key),
                existed_before: original.is_some(),
                original,
                applied: text::owned(new_name),
                driver_name: text::copy_string(&a.driver_name),
                saved_at: text::owned(now),
            },
        );
        assert(bviews(entries@) =~= e0.push(bviews(entries@).last()));
    }
    Ok(Backup { saved_at: text::owned(now), entries })
}

/// Overriding twice keeps the value from before the first override: the
/// backup a restore goes back to is never replaced by a value this tool
/// wrote.
pub proof fn law_backup_keeps_first_original(
    entries: Seq<BEntryV>,
    a: GpuAdapter,
    o1: Option<Seq<char>>,
    n1: Seq<char>,
    t1: Seq<char>,
    o2: Option<Seq<char>>,
    n2: Seq<char>,
    t2: Seq<char>,
)
    ensures
        ({
            let b1 = spec_apply_backup(entries, a, o1, n1, t1);
            let b2 = spec_apply_backup(b1, a, o2, n2, t2);
            let i = entry_for(b2, a.enum_key@);
            &&& i < b2.len()
            &&& i == entry_for(b1, a.enum_key@)
            &&& b2[i].original == b1[i].original
            &&& b2[i].existed_before == b1[i].existed_before
            &&& b2[i].applied == n2
        }),
{
    let b1 = spec_apply_backup(entries, a, o1, n1, t1);
    lemma_entry_for(entries, a.enum_key@);
    lemma_entry_for(b1, a.enum_key@);
    let i0 = entry_for(entries, a.enum_key@);
    let i1 = entry_for(b1, a.enum_key@);
    assert(i1 == i0) by {
        if i1 < i0 {
            assert(b1[i1] == entries[i1]);
        }
        if i0 < entries.len() && i0 < i1 {
            assert(b1[i0].key == a.enum_key@);
        }
        if i0 == entries.len() && i1 > i0 {
            assert(b1[i0].key == a.enum_key@);
        }
    }
    let b2 = spec_apply_backup(b1, a, o2, n2, t2);
    lemma_entry_for(b2, a.enum_key@);
    let i2 = entry_for(b2, a.enum_key@);
    assert(i2 == i1) by {
        if i2 < i1 {
            assert(b2[i2] == b1[i2]);
        }
        if i2 > i1 {
            assert(b2[i1].key == a.enum_key@);
        }
    }
}

/// What a restore writes back.
#[derive(Debug, Clone, Copy, PartialEq, Eq, Structural)]
pub enum RestoreTo {
    /// The driver's own name: no override left.
    DriverName,
    /// The value from before this tool's first change (which may itself come
    /// from another tool).
    BackupOriginal,
}

/// The backed-up value from before the first change, when the value existed.
pub open spec fn spec_backup_original(backup: Option<Backup>, a: GpuAdapter) -> Option<Seq<char>> {
    match backup {
        Some(b) => {
            let es = bviews(b.entries@);
            let i = entry_for(es, a.enum_key@);
            if i < es.len() && es[i].existed_before {
                es[i].original
            } else {
                None
            }
        },
        None => None,
    }
}

pub fn backup_original_of(backup: &Option<Backup>, a: &GpuAdapter) -> (r: Option<String>)
    ensures
        opt_view(r) == spec_backup_original(*backup, *a),
{
    match backup {
        Some(b) => {
            let i = find_entry(&b.entries, &a.enum_key);
            if i < b.entries.len() && b.entries[i].existed_before {
                assert(bviews(b.entries@)[i as int] == b.entries@[i as int]@);
                clone_opt(&b.entries[i].original)
            } else {
                if i < b.entries.len() {
                    assert(bviews(b.entries@)[i as int] == b.entries@[i as int]@);
                }
                None
            }
        },
        None => None,
    }
}

/// The value a restore writes, and its report; refused when the backup has
/// no original to go back to, or the value is blank.
pub fn restore(a: &GpuAdapter, to: RestoreTo, backup: &Option<Backup>) -> (r: Result<
    (String, String),
    GpuError,
>)
    ensures
        ({
            let target = match to {
                RestoreTo::DriverName => Some(a.driver_name@),
                RestoreTo::BackupOriginal => spec_backup_original(*backup, *a),
            };
            match r {
                Ok((t, msg)) => target == Some(t@) && text::trim(t@).len() > 0 && msg@
                    == "已把显卡名还原为「"@ + spec_display_name(t@) + "」。重启后生效。"@,
                Err(e) => (target is None && (e is NoBackupOriginal)) || (target is Some
                    && text::trim(target.unwrap()).len() == 0 && (e is EmptyTarget)),
            }
        }),
{
    let target = match to {
        RestoreTo::DriverName => text::copy_string(&a.driver_name),
        RestoreTo::BackupOriginal => match backup_original_of(backup, a) {
            Some(v) => v,
            None => {
                return Err(GpuError::NoBackupOriginal);
            },
        },
    };
    let t = text::trim_str(target.as_str());
    if t.len() == 0 {
        return Err(GpuError::EmptyTarget);
    }
    let mut m = text::chars_of("已把显卡名还原为「");
    let d = display_name(target.as_str());
    text::extend_str(&mut m, d.as_str());
    text::extend_str(&mut m, "」。重启后生效。");
    Ok((target, text::string_of(&m)))
}

/// The report of an override.
pub fn apply_message(a: &GpuAdapter, new_name: &str) -> (r: String)
    ensures
        r@ == "已把显卡名从「"@ + (match spec_current_name(*a) {
            Some(n) => n,
            None => a.driver_name@,
        }) + "」改为「"@ + new_name@ + "」。重启后生效。"@,
{
    let from = match a.current_name() {
        Some(n) => n,
        None => text::copy_string(&a.driver_name),
    };
    let mut m = text::chars_of("已把显卡名从「");
    text::extend_str(&mut m, from.as_str());
    text::extend_str(&mut m, "」改为「");
    text::extend_str(&mut m, new_name);
    text::extend_str(&mut m, "」。重启后生效。");
    text::string_of(&m)
}

// ------------------------------------------------------------ elevated helper

/// What the elevated helper process is asked to do.
#[derive(Debug, Clone)]
pub enum Op {
    Apply(String),
    Restore(RestoreTo),
}

/// The command line of the elevated helper: the operation, then the file
/// it writes its result to, each quoted.
pub fn elevated_args(op: &Op, out: &str) -> (r: String)
    ensures
        r@ == (match *op {
            Op::Apply(name) => "--gpuspoof-apply \""@ + name@ + "\" \""@ + out@ + "\""@,
            Op::Restore(to) => "--gpuspoof-restore "@ + (match to {
                RestoreTo::DriverName => "driver"@,
                RestoreTo::BackupOriginal => "backup"@,
            }) + " \""@ + out@ + "\""@,
        }),
{
    let mut v: Vec<char>;
    match op {
        Op::Apply(name) => {
            v = text::chars_of("--gpuspoof-apply \"");
            text::extend_str(&mut v, name.as_str());
            text::extend_str(&mut v, "\" \"");
        },
        Op::Restore(to) => {
            v = text::chars_of("--gpuspoof-restore ");
            text::extend_str(
                &mut v,
                match to {
                    RestoreTo::DriverName => "driver",
                    RestoreTo::BackupOriginal => "backup",
                },
            );
            text::extend_str(&mut v, " \"");
        },
    }
    text::extend_str(&mut v, out);
    text::extend_str(&mut v, "\"");
    text::string_of(&v)
}

/// The mode argument of the helper's restore: `backup` means the backed-up
/// original; anything else the driver's name.
pub fn restore_mode(mode: &str) -> (r: RestoreTo)
    ensures
        r == (if mode@ == "backup"@ {
            RestoreTo::BackupOriginal
        } else {
            RestoreTo::DriverName
        }),
{
    let m = text::chars_of(mode);
    let b = text::chars_of("backup");
    if text::eq(&m, &b) {
        RestoreTo::BackupOriginal
    } else {
        RestoreTo::DriverName
    }
}

// ------------------------------------------------------------ registry filters

/// A display-class instance to keep: a four-digit instance name, an NVIDIA
/// driver, and a PCI device (virtual displays are not).
pub fn class_instance_ok(sub: &str, desc: &str, matching_id: &str) -> (r: bool)
    ensures
        r == (sub@.len() == 4 && text::all_digits(sub@) && is_nvidia_name(desc@)
            && text::starts_with(text::ascii_lower(matching_id@), "pci\\"@)),
{
    let s = text::chars_of(sub);
    let mut digits = s.len() == 4;
    let mut i: usize = 0;
    while i < s.len()
        invariant
            i <= s.len(),
            digits == (s@.len() == 4 && forall|k: int| 0 <= k < i ==> text::is_digit(#[trigger] s@[k])),
        decreases s.len() - i,
    {
        if !('0' <= s[i] && s[i] <= '9') {
            digits = false;
        }
        i += 1;
    }
    if !digits {
        return false;
    }
    let d = text::chars_of(desc);
    let du = text::upper_vec(&d);
    let m = text::chars_of(matching_id);
    let ml = text::lower_vec(&m);
    text::contains_str(&du, "NVIDIA") && text::starts_with_str(&ml, "pci\\")
}

/// A PCI device key of NVIDIA's vendor id.
pub fn pci_device_ok(dev: &str) -> (r: bool)
    ensures
        r == text::starts_with(text::ascii_upper(dev@), "VEN_10DE"@),
{
    let d = text::chars_of(dev);
    let u = text::upper_vec(&d);
    text::starts_with_str(&u, "VEN_10DE")
}

/// A device instance of the display class driven by NVIDIA's service (the
/// HD audio controller has another class).
pub fn instance_ok(class_guid: &str, service: &str) -> (r: bool)
    ensures
        r == (text::eq_ic(class_guid@, DISPLAY_CLASS@) && text::eq_ic(service@, NVIDIA_SERVICE@)),
{
    let g = text::chars_of(class_guid);
    let dc = text::chars_of(DISPLAY_CLASS);
    let s = text::chars_of(service);
    let ns = text::chars_of(NVIDIA_SERVICE);
    text::eq_ignore_case(&g, &dc) && text::eq_ignore_case(&s, &ns)
}

/// The device instance key of `dev\inst`, under HKLM.
pub fn enum_key_of(dev: &str, inst: &str) -> (r: String)
    ensures
        r@ == ENUM_PCI@ + "\\"@ + dev@ + "\\"@ + inst@,
{
    let mut v = text::chars_of(ENUM_PCI);
    text::extend_str(&mut v, "\\");
    text::extend_str(&mut v, dev);
    text::extend_str(&mut v, "\\");
    text::extend_str(&mut v, inst);
    text::string_of(&v)
}

/// The first non-empty line of a tool's output, trimmed.
pub open spec fn first_line_of(ls: Seq<Seq<char>>) -> Option<Seq<char>>
    decreases ls.len(),
{
    if ls.len() == 0 {
        None
    } else if text::trim(ls[0]).len() > 0 {
        Some(text::trim(ls[0]))
    } else {
        first_line_of(ls.drop_first())
    }
}

/// What `nvidia-smi` printed for a one-field query: its first non-empty
/// line, trimmed.
pub fn smi_value(output: &str) -> (r: Option<String>)
    ensures
        match first_line_of(text::lines(output@)) {
            Some(v) => r matches Some(x) && x@ == v,
            None => r is None,
        },
{
    let s = text::chars_of(output);
    let ls = text::lines_of(&s);
    let ghost gl = text::lines(output@);
    let mut i: usize = 0;
    assert(gl.skip(0) =~= gl);
    while i < ls.len()
        invariant
            i <= ls.len(),
            gl == text::lines(output@),
            ls@.len() == gl.len(),
            forall|j: int| 0 <= j < ls@.len() ==> #[trigger] ls@[j]@ == gl[j],
            first_line_of(gl) == first_line_of(gl.skip(i as int)),
        decreases ls.len() - i,
    {
        assert(gl.skip(i as int).drop_first() =~= gl.skip(i + 1));
        assert(gl.skip(i as int)[0] == ls@[i as int]@);
        let t = text::trim_vec(&ls[i]);
        if t.len() > 0 {
            return Some(text::string_of(&t));
        }
        i += 1;
    }
    None
}

/// What `serde_json::from_str` makes of the helper process's result file,
/// read as its `ok` flag and `msg` text; `None` when the text is not JSON.
pub uninterp spec fn helper_result_of(text: Seq<char>) -> Option<(Option<bool>, Option<Seq<char>>)>;

/// Parses the result file with `serde_json::from_str` and reads `ok` with
/// `as_bool` and `msg` with `as_str` (`None` when missing or of another
/// type). Claimed: the result is `helper_result_of` of the text.
#[verifier::external_body]
fn helper_fields(text: &str) -> (r: Option<(Option<bool>, Option<String>)>)
    ensures
        match r {
            None => helper_result_of(text@) is None,
            Some(f) => helper_result_of(text@) == Some((f.0, crate::scan::opt_str(f.1))),
        },
{
    let v: serde_json::Value = serde_json::from_str(text).ok()?;
    Some((v["ok"].as_bool(), v["msg"].as_str().map(String::from)))
}

/// The message when the helper's result has none.
pub const NO_MESSAGE: &'static str = "(无消息)";

/// The message when the helper's result cannot be read.
pub const UNREADABLE_RESULT: &'static str = "子进程返回的内容无法解析";

/// The outcome a helper result stands for: success when `ok` is true (a
/// missing `ok` is a failure), with `msg` or the stand-in message.
pub open spec fn helper_outcome_v(f: Option<(Option<bool>, Option<Seq<char>>)>) -> Result<Seq<char>, Seq<char>> {
    match f {
        None => Err(UNREADABLE_RESULT@),
        Some((ok, msg)) => {
            let m = match msg {
                Some(m) => m,
                None => NO_MESSAGE@,
            };
            if ok == Some(true) {
                Ok(m)
            } else {
                Err(m)
            }
        },
    }
}

/// The parsed fields of a helper result as plain values.
pub open spec fn helper_fields_view(f: Option<(Option<bool>, Option<String>)>) -> Option<(Option<bool>, Option<Seq<char>>)> {
    match f {
        None => None,
        Some((ok, msg)) => Some((ok, crate::scan::opt_str(msg))),
    }
}

/// What a helper result means, from its parsed `ok` and `msg` fields
/// (`None` when the result could not be parsed).
pub fn helper_outcome_of(f: Option<(Option<bool>, Option<String>)>) -> (r: Result<String, String>)
    ensures
        match (r, helper_outcome_v(helper_fields_view(f))) {
            (Ok(a), Ok(b)) => a@ == b,
            (Err(a), Err(b)) => a@ == b,
            _ => false,
        },
{
    match f {
        None => Err(text::owned(UNREADABLE_RESULT)),
        Some((ok, msg)) => {
            let m = match msg {
                Some(m) => m,
                None => text::owned(NO_MESSAGE),
            };
            if ok == Some(true) {
                Ok(m)
            } else {
                Err(m)
            }
        },
    }
}

/// What the elevated helper reported in its result file's text.
pub fn helper_outcome(text: &str) -> (r: Result<String, String>)
    ensures
        match (r, helper_outcome_v(helper_result_of(text@))) {
            (Ok(a), Ok(b)) => a@ == b,
            (Err(a), Err(b)) => a@ == b,
            _ => false,
        },
{
    helper_outcome_of(helper_fields(text))
}

} // verus!

//! What a file's signature says, strictly: whether Windows found the content
//! intact, and whether the signer is this project's author (by certificate
//! thumbprint) or NVIDIA. Used for files imported by hand, which are trusted
//! by content, not by where they came from.

use vstd::prelude::*;
use crate::text;

verus! {

/// SHA-1 thumbprint of the author's certificate of the proxy packages
/// ("DLSSG for SM86").
pub const AUTHOR_CERT_PROXY: &'static str = "85BA66762F851E49148D706915D09026281418E6";

/// SHA-1 thumbprint of the author's earlier certificate of the native
/// package ("DLSSG Native Project").
pub const AUTHOR_CERT_NATIVE: &'static str = "A994735E6A7E9AA31FA926B3023B7C487DAB4850";

/// SHA-1 thumbprint of NVIDIA's signing certificate of the 310.9.1 runtimes.
pub const NVIDIA_CERT: &'static str = "7B7B0B6697AFB438CF6F65A155F00E86676FB186";

/// What Windows concluded of a signature.
#[derive(Debug, Clone, Copy, PartialEq, Eq, Structural)]
pub enum SigState {
    /// Valid, and the chain reaches a trusted root.
    Trusted,
    /// Valid, but the root is not trusted (a self-signed certificate): the
    /// content is intact.
    UntrustedRoot,
    NoSignature,
    /// Invalid: the content was changed.
    BadDigest,
    /// Any other failure (expired, revoked, ...).
    Other,
}

pub open spec fn sig_label(s: SigState) -> Seq<char> {
    match s {
        SigState::Trusted => "签名有效（受信任的证书链）"@,
        SigState::UntrustedRoot => "签名有效（自签证书，Windows 不信任这张证书本身）"@,
        SigState::NoSignature => "没有签名"@,
        SigState::BadDigest => "签名无效：内容被改过"@,
        SigState::Other => "签名校验失败（证书过期或被吊销等）"@,
    }
}

impl SigState {
    pub fn label(self) -> (r: &'static str)
        ensures
            r@ == sig_label(self),
    {
        match self {
            SigState::Trusted => "签名有效（受信任的证书链）",
            SigState::UntrustedRoot => "签名有效（自签证书，Windows 不信任这张证书本身）",
            SigState::NoSignature => "没有签名",
            SigState::BadDigest => "签名无效：内容被改过",
            SigState::Other => "签名校验失败（证书过期或被吊销等）",
        }
    }

    /// The signature shows the content unchanged.
    pub fn content_ok(self) -> (r: bool)
        ensures
            r == (self == SigState::Trusted || self == SigState::UntrustedRoot),
    {
        match self {
            SigState::Trusted | SigState::UntrustedRoot => true,
            _ => false,
        }
    }
}

/// The conclusion a `WinVerifyTrust` status (as an unsigned HRESULT) means:
/// success is trusted; `CERT_E_UNTRUSTEDROOT` an intact self-signed file;
/// `TRUST_E_NOSIGNATURE`, `TRUST_E_SUBJECT_FORM_UNKNOWN` and
/// `TRUST_E_PROVIDER_UNKNOWN` no signature; `TRUST_E_BAD_DIGEST` a changed
/// file; anything else another failure.
pub open spec fn sig_state_spec(status: u32) -> SigState {
    if status == 0 {
        SigState::Trusted
    } else if status == 0x800B0109 {
        SigState::UntrustedRoot
    } else if status == 0x800B0100 || status == 0x800B0003 || status == 0x800B0002 {
        SigState::NoSignature
    } else if status == 0x80096010 {
        SigState::BadDigest
    } else {
        SigState::Other
    }
}

/// Classifies a `WinVerifyTrust` status.
pub fn sig_state_of(status: u32) -> (r: SigState)
    ensures
        r == sig_state_spec(status),
{
    if status == 0 {
        SigState::Trusted
    } else if status == 0x800B0109 {
        SigState::UntrustedRoot
    } else if status == 0x800B0100 || status == 0x800B0003 || status == 0x800B0002 {
        SigState::NoSignature
    } else if status == 0x80096010 {
        SigState::BadDigest
    } else {
        SigState::Other
    }
}

/// Who signed.
#[derive(Debug, Clone, Copy, PartialEq, Eq, Structural)]
pub enum SignerKind {
    /// This project's author (the thumbprint is one of the fixed list).
    Author,
    /// NVIDIA.
    Nvidia,
    Other,
}

pub open spec fn signer_label(k: SignerKind) -> Seq<char> {
    match k {
        SignerKind::Author => "本项目作者"@,
        SignerKind::Nvidia => "NVIDIA"@,
        SignerKind::Other => "不认识"@,
    }
}

impl SignerKind {
    pub fn label(self) -> (r: &'static str)
        ensures
            r@ == signer_label(self),
    {
        match self {
            SignerKind::Author => "本项目作者",
            SignerKind::Nvidia => "NVIDIA",
            SignerKind::Other => "不认识",
        }
    }
}

/// The conclusion of checking a file.
#[derive(Debug, Clone)]
pub struct VerifyReport {
    pub sig: SigState,
    /// The signer's subject name (empty when not read).
    pub subject: String,
    /// The signer certificate's SHA-1 thumbprint, upper-case hex (empty when
    /// not read).
    pub thumbprint: String,
    pub kind: SignerKind,
    /// Why the signer could not be read, if it could not.
    pub note: Option<String>,
}

/// The content can be trusted: the signature shows it unchanged and the
/// signer is known — NVIDIA only through a trusted chain, the author by
/// thumbprint.
pub open spec fn trusted_spec(sig: SigState, kind: SignerKind) -> bool {
    (sig == SigState::Trusted || sig == SigState::UntrustedRoot) && match kind {
        SignerKind::Nvidia => sig == SigState::Trusted,
        SignerKind::Author => true,
        SignerKind::Other => false,
    }
}

/// The one-line conclusion: the signature's label, the signer (or 未知)
/// with its kind, and the thumbprint when there is one.
pub open spec fn summary_spec(r: VerifyReport) -> Seq<char> {
    sig_label(r.sig) + "；签名者："@ + (if r.subject@.len() == 0 {
        "未知"@
    } else {
        r.subject@
    }) + "（"@ + signer_label(r.kind) + "）"@ + (if r.thumbprint@.len() == 0 {
        Seq::empty()
    } else {
        "，证书指纹 "@ + r.thumbprint@
    })
}

impl VerifyReport {
    /// Whether the file passes silently.
    pub fn content_trusted(&self) -> (r: bool)
        ensures
            r == trusted_spec(self.sig, self.kind),
    {
        if !self.sig.content_ok() {
            return false;
        }
        match self.kind {
            SignerKind::Nvidia => self.sig == SigState::Trusted,
            SignerKind::Author => true,
            SignerKind::Other => false,
        }
    }

    /// The conclusion in one line.
    pub fn summary(&self) -> (r: String)
        ensures
            r@ == summary_spec(*self),
    {
        let mut out = text::chars_of(self.sig.label());
        text::extend_str(&mut out, "；签名者：");
        let subj = text::chars_of(self.subject.as_str());
        if subj.len() == 0 {
            text::extend_str(&mut out, "未知");
        } else {
            text::extend(&mut out, &subj);
        }
        text::extend_str(&mut out, "（");
        text::extend_str(&mut out, self.kind.label());
        text::extend_str(&mut out, "）");
        let th = text::chars_of(self.thumbprint.as_str());
        if th.len() > 0 {
            text::extend_str(&mut out, "，证书指纹 ");
            text::extend(&mut out, &th);
        } else {
            assert(out@ + Seq::<char>::empty() =~= out@);
        }
        text::string_of(&out)
    }
}

/// The subject names NVIDIA, in any ASCII case.
pub open spec fn names_nvidia(subject: Seq<char>) -> bool {
    text::contains(text::ascii_lower(subject), "nvidia"@)
}

/// Who signed, from the signer certificate: with no thumbprint only an
/// NVIDIA subject is recognised; a thumbprint of the author's (either
/// certificate) is the author; NVIDIA's thumbprint or an NVIDIA subject is
/// NVIDIA; thumbprints compare ignoring ASCII case.
pub open spec fn signer_kind_spec(subject: Seq<char>, thumbprint: Seq<char>) -> SignerKind {
    if thumbprint.len() == 0 {
        if names_nvidia(subject) {
            SignerKind::Nvidia
        } else {
            SignerKind::Other
        }
    } else if text::eq_ic(thumbprint, AUTHOR_CERT_PROXY@) || text::eq_ic(
        thumbprint,
        AUTHOR_CERT_NATIVE@,
    ) {
        SignerKind::Author
    } else if text::eq_ic(thumbprint, NVIDIA_CERT@) || names_nvidia(subject) {
        SignerKind::Nvidia
    } else {
        SignerKind::Other
    }
}

fn names_nvidia_exec(subject: &[char]) -> (r: bool)
    ensures
        r == names_nvidia(subject@),
{
    let l = text::lower_vec(subject);
    text::contains_str(&l, "nvidia")
}

fn eq_ic_str(a: &[char], b: &str) -> (r: bool)
    ensures
        r == text::eq_ic(a@, b@),
{
    let bv = text::chars_of(b);
    text::eq_ignore_case(a, &bv)
}

/// Who signed, from the signer certificate's subject and thumbprint.
pub fn signer_kind(subject: &str, thumbprint: &str) -> (r: SignerKind)
    ensures
        r == signer_kind_spec(subject@, thumbprint@),
{
    let s = text::chars_of(subject);
    let t = text::chars_of(thumbprint);
    if t.len() == 0 {
        if names_nvidia_exec(&s) {
            SignerKind::Nvidia
        } else {
            SignerKind::Other
        }
    } else if eq_ic_str(&t, AUTHOR_CERT_PROXY) || eq_ic_str(&t, AUTHOR_CERT_NATIVE) {
        SignerKind::Author
    } else if eq_ic_str(&t, NVIDIA_CERT) || names_nvidia_exec(&s) {
        SignerKind::Nvidia
    } else {
        SignerKind::Other
    }
}

/// The conclusion of checking a file, from what Windows said of its
/// signature and, for a signed file, what reading the signer certificate
/// gave (subject and thumbprint, or why it could not be read). A file
/// without a signature has no signer read.
pub fn verify_file(sig: SigState, signer: Option<Result<(String, String), String>>) -> (r: VerifyReport)
    ensures
        r.sig == sig,
        sig == SigState::NoSignature ==> r.subject@.len() == 0 && r.thumbprint@.len() == 0
            && r.note is None,
        sig != SigState::NoSignature ==> match signer {
            Some(Ok((s, t))) => r.subject@ == s@ && r.thumbprint@ == t@ && r.note is None,
            Some(Err(e)) => r.subject@.len() == 0 && r.thumbprint@.len() == 0 && (r.note matches Some(
                n,
            ) && n@ == e@),
            None => r.subject@.len() == 0 && r.thumbprint@.len() == 0 && r.note is None,
        },
        r.kind == signer_kind_spec(r.subject@, r.thumbprint@),
{
    let (subject, thumbprint, note) = if sig == SigState::NoSignature {
        (String::new(), String::new(), None)
    } else {
        match signer {
            Some(Ok((s, t))) => (s, t, None),
            Some(Err(e)) => (String::new(), String::new(), Some(e)),
            None => (String::new(), String::new(), None),
        }
    };
    let kind = signer_kind(subject.as_str(), thumbprint.as_str());
    VerifyReport { sig, subject, thumbprint, kind, note }
}

} // verus!

//! The licence manager: which state the program is in (trial, licensed,
//! expired, tampered), activation of a licence code, and the daily
//! checkpoint of the trial's high-water mark.

use vstd::prelude::*;

use crate::license::crypto::{
    b64_bytes_of, b64_decode, ed25519_accepts, ed25519_verify, DEVELOPER_PUBLIC_KEY,
};
use crate::license::payload::{
    payload_parse, LicensePayload, PayloadView, EXPIRES_NEVER, PRODUCT_ID, TRIAL_DAYS,
};
use crate::license::store::{
    as_i64, opt_str, opt_trial, trial_signed, utf8_or, LoadResult, TrialState, TrialView,
};
use crate::text::{
    chars_of, find_first, find_in, lemma_find_first, seq_eq, slice_to_vec, string_from, trim,
};

verus! {

broadcast use vstd::string::group_string_axioms;

/// Days of clock roll-back that are tolerated (time zones, daylight saving).
pub const ROLLBACK_TOLERANCE_DAYS: u64 = 2;

/// Where the program stands with its licence.
#[allow(inconsistent_fields)]
#[derive(Debug, Clone, Copy, PartialEq, Eq, Structural)]
pub enum LicenseStatus {
    /// In the trial, with this many days left.
    Trial { days_left: i64 },
    /// The trial is over; a licence is needed.
    TrialExpired,
    /// Licensed: `None` for ever, else this many days left.
    Licensed { days_left: Option<i64> },
    /// The licence has expired.
    LicensedExpired,
    /// Tampering was seen (bad signature, clock roll-back, copies that
    /// disagree).
    Tampered,
}

/// Days left as shown: never below zero.
pub open spec fn shown_days(d: i64) -> nat {
    if d < 0 {
        0
    } else {
        d as nat
    }
}

/// The text the About menu shows for a status.
pub open spec fn status_label_text(s: LicenseStatus) -> Seq<char> {
    match s {
        LicenseStatus::Trial { days_left } => "试用剩余 "@ + crate::text::dec(shown_days(days_left)) + " 天"@,
        LicenseStatus::Licensed { days_left: None } => "已授权（永久）"@,
        LicenseStatus::Licensed { days_left: Some(d) } => "已授权（剩余 "@ + crate::text::dec(
            shown_days(d),
        ) + " 天）"@,
        LicenseStatus::TrialExpired => "试用期已结束"@,
        LicenseStatus::LicensedExpired => "授权已到期"@,
        LicenseStatus::Tampered => "授权异常"@,
    }
}

fn push_days(out: &mut Vec<char>, d: i64)
    ensures
        final(out)@ == old(out)@ + crate::text::dec(shown_days(d)),
{
    let n: u64 = if d < 0 {
        0
    } else {
        d as u64
    };
    crate::text::push_dec(out, n);
}

impl LicenseStatus {
    /// The text the About menu shows for the status.
    pub fn label(&self) -> (r: String)
        ensures
            r@ == status_label_text(*self),
    {
        let mut v: Vec<char> = Vec::new();
        match self {
            LicenseStatus::Trial { days_left } => {
                crate::text::push_str(&mut v, "试用剩余 ");
                push_days(&mut v, *days_left);
                crate::text::push_str(&mut v, " 天");
            },
            LicenseStatus::Licensed { days_left: None } => crate::text::push_str(&mut v, "已授权（永久）"),
            LicenseStatus::Licensed { days_left: Some(d) } => {
                crate::text::push_str(&mut v, "已授权（剩余 ");
                push_days(&mut v, *d);
                crate::text::push_str(&mut v, " 天）");
            },
            LicenseStatus::TrialExpired => crate::text::push_str(&mut v, "试用期已结束"),
            LicenseStatus::LicensedExpired => crate::text::push_str(&mut v, "授权已到期"),
            LicenseStatus::Tampered => crate::text::push_str(&mut v, "授权异常"),
        }
        assert(v@ =~= status_label_text(*self));
        string_from(v.as_slice())
    }

    /// Whether the program must stop and ask for a licence.
    pub fn is_blocking(&self) -> (r: bool)
        ensures
            r == (*self is TrialExpired || *self is LicensedExpired || *self is Tampered),
    {
        match self {
            LicenseStatus::TrialExpired | LicenseStatus::LicensedExpired | LicenseStatus::Tampered => true,
            _ => false,
        }
    }
}

/// Why an activation failed.
#[derive(Debug, Clone, Copy, PartialEq, Eq, Structural)]
pub enum ActivateError {
    /// The code is not `payload.signature` in Base64, or its payload does not
    /// read.
    Format,
    /// The signature does not verify.
    InvalidSig,
    /// The code is for another machine.
    MachineMismatch,
    /// The code is for another product.
    ProductMismatch,
    /// The code had expired when it was entered.
    AlreadyExpired,
}

pub open spec fn error_text(e: ActivateError) -> Seq<char> {
    match e {
        ActivateError::Format => "授权码格式不正确"@,
        ActivateError::InvalidSig => "授权码无效（签名校验失败）"@,
        ActivateError::MachineMismatch => "授权码与当前机器不匹配"@,
        ActivateError::ProductMismatch => "授权码产品不匹配"@,
        ActivateError::AlreadyExpired => "授权码已过期，请联系开发者续期"@,
    }
}

impl ActivateError {
    /// The message shown to the user.
    pub fn message(&self) -> (r: &'static str)
        ensures
            r@ == error_text(*self),
    {
        match self {
            ActivateError::Format => "授权码格式不正确",
            ActivateError::InvalidSig => "授权码无效（签名校验失败）",
            ActivateError::MachineMismatch => "授权码与当前机器不匹配",
            ActivateError::ProductMismatch => "授权码产品不匹配",
            ActivateError::AlreadyExpired => "授权码已过期，请联系开发者续期",
        }
    }
}

// ===========================================================================
// Checking a licence code
// ===========================================================================

/// The payload bytes and signature bytes of a code `payload.signature`.
pub open spec fn code_parts(t: Seq<char>) -> Option<(Seq<u8>, Seq<u8>)> {
    match find_first(t, '.') {
        None => None,
        Some(i) => match b64_bytes_of(t.take(i)) {
            None => None,
            Some(p) => match b64_bytes_of(t.skip(i + 1)) {
                None => None,
                Some(s) => Some((p, s)),
            },
        },
    }
}

pub open spec fn sig_ok(p: Seq<u8>, s: Seq<u8>) -> bool {
    s.len() == 64 && ed25519_accepts(DEVELOPER_PUBLIC_KEY@, p, s)
}

/// What checking a licence code gives: its payload, when the code (trimmed)
/// is `payload.signature`, the signature is the developer's, the payload
/// reads, and it names this product and this machine. The expiry is not
/// looked at.
pub open spec fn license_check(s: Seq<char>, machine_code: Seq<char>) -> Option<PayloadView> {
    match code_parts(trim(s)) {
        None => None,
        Some((p, sig)) => if !sig_ok(p, sig) {
            None
        } else {
            match utf8_or(Some(p)) {
                None => None,
                Some(text) => match payload_parse(text) {
                    None => None,
                    Some(pl) => if pl.1 != PRODUCT_ID@ || pl.2 != machine_code {
                        None
                    } else {
                        Some(pl)
                    },
                },
            }
        },
    }
}

/// Why a code fails [`license_check`].
pub open spec fn rejection(s: Seq<char>) -> ActivateError {
    match code_parts(trim(s)) {
        None => ActivateError::Format,
        Some((p, sig)) => if !sig_ok(p, sig) {
            ActivateError::InvalidSig
        } else {
            match utf8_or(Some(p)) {
                None => ActivateError::Format,
                Some(text) => match payload_parse(text) {
                    None => ActivateError::Format,
                    Some(pl) => if pl.1 != PRODUCT_ID@ {
                        ActivateError::ProductMismatch
                    } else {
                        ActivateError::MachineMismatch
                    },
                },
            }
        },
    }
}

pub open spec fn opt_payload(p: Option<LicensePayload>) -> Option<PayloadView> {
    match p {
        Some(x) => Some(x@),
        None => None,
    }
}

/// The payload bytes and signature bytes of `t` (already trimmed).
fn split_code(t: &Vec<char>) -> (r: Option<(Vec<u8>, Vec<u8>)>)
    ensures
        match r {
            Some((p, s)) => code_parts(t@) == Some((p@, s@)),
            None => code_parts(t@) is None,
        },
{
    proof {
        lemma_find_first(t@, '.');
    }
    assert(t@.subrange(0, t@.len() as int) =~= t@);
    let dot = match find_in(t.as_slice(), 0, t.len(), '.') {
        Some(d) => d,
        None => {
            return None;
        },
    };
    let ps = string_from(slice_to_vec(t.as_slice(), 0, dot).as_slice());
    let ss = string_from(slice_to_vec(t.as_slice(), dot + 1, t.len()).as_slice());
    assert(ps@ =~= t@.take(dot as int));
    assert(ss@ =~= t@.skip(dot + 1));
    let p = match b64_decode(ps.as_str()) {
        Some(b) => b,
        None => {
            return None;
        },
    };
    let s = match b64_decode(ss.as_str()) {
        Some(b) => b,
        None => {
            return None;
        },
    };
    Some((p, s))
}

/// The payload of a licence code for this product and the machine
/// `machine_code`, when its signature verifies; the expiry is not looked at.
pub fn verify_license(s: &str, machine_code: &str) -> (r: Option<LicensePayload>)
    ensures
        opt_payload(r) == license_check(s@, machine_code@),
{
    let v = chars_of(s);
    let t = crate::text::trim_vec(v.as_slice());
    let (p, sig) = match split_code(&t) {
        Some(x) => x,
        None => {
            return None;
        },
    };
    if !ed25519_verify(p.as_slice(), sig.as_slice()) {
        return None;
    }
    let text = match crate::license::crypto::utf8_text(p.as_slice()) {
        Some(x) => x,
        None => {
            return None;
        },
    };
    let pl = match LicensePayload::parse(text.as_str()) {
        Some(x) => x,
        None => {
            return None;
        },
    };
    if !seq_eq(chars_of(pl.product.as_str()).as_slice(), chars_of(PRODUCT_ID).as_slice()) {
        return None;
    }
    if !seq_eq(chars_of(pl.machine.as_str()).as_slice(), chars_of(machine_code).as_slice()) {
        return None;
    }
    Some(pl)
}

/// Why `s` is refused, for a code that [`verify_license`] refuses.
fn classify(s: &Vec<char>) -> (e: ActivateError)
    ensures
        e == rejection(s@),
{
    let t = crate::text::trim_vec(s.as_slice());
    let (p, sig) = match split_code(&t) {
        Some(x) => x,
        None => {
            return ActivateError::Format;
        },
    };
    if !ed25519_verify(p.as_slice(), sig.as_slice()) {
        return ActivateError::InvalidSig;
    }
    let text = match crate::license::crypto::utf8_text(p.as_slice()) {
        Some(x) => x,
        None => {
            return ActivateError::Format;
        },
    };
    match LicensePayload::parse(text.as_str()) {
        None => ActivateError::Format,
        Some(pl) => if !seq_eq(chars_of(pl.product.as_str()).as_slice(), chars_of(PRODUCT_ID).as_slice()) {
            ActivateError::ProductMismatch
        } else {
            ActivateError::MachineMismatch
        },
    }
}

// ===========================================================================
// The manager
// ===========================================================================

/// The licence state of the running program.
#[derive(Debug)]
pub struct LicenseManager {
    /// The machine code shown to the user.
    pub machine_code: String,
    /// The machine fingerprint the MAC key comes from.
    pub machine_fp: Vec<u8>,
    /// The checked licence, if any.
    pub license: Option<LicensePayload>,
    /// The licence code as stored.
    pub license_raw: Option<String>,
    /// The trial state.
    pub trial: Option<TrialState>,
    /// Whether tampering was seen in the stored copies.
    pub tampered: bool,
}

/// A fresh trial that starts on `today`, signed for the machine.
pub open spec fn fresh_trial(today: u64, fp: Seq<u8>) -> TrialView {
    trial_signed((today, today, 0, Seq::empty()), fp)
}

fn new_trial(today: u64, fp: &[u8]) -> (t: TrialState)
    ensures
        t@ == fresh_trial(today, fp@),
{
    let mut t = TrialState {
        first_run_day: today,
        last_run_day: today,
        rollback_count: 0,
        mac: String::new(),
    };
    t.sign(fp);
    t
}

/// `a - b` as `i64` arithmetic on the two days taken `as i64` does not
/// overflow.
pub open spec fn diff_fits(a: u64, b: u64) -> bool {
    i64::MIN <= as_i64(a) - as_i64(b) <= i64::MAX
}

fn day_diff(a: u64, b: u64) -> (r: i64)
    requires
        diff_fits(a, b),
    ensures
        r == as_i64(a) - as_i64(b),
{
    let x: i128 = if a <= i64::MAX as u64 {
        a as i128
    } else {
        a as i128 - 0x1_0000_0000_0000_0000i128
    };
    let y: i128 = if b <= i64::MAX as u64 {
        b as i128
    } else {
        b as i128 - 0x1_0000_0000_0000_0000i128
    };
    (x - y) as i64
}

/// The state on `today`: a valid licence decides first (expired or not);
/// without one, tampering; then the trial (a clock more than two days behind
/// the trial's last day counts as tampering).
pub open spec fn status_of(
    license: Option<PayloadView>,
    tampered: bool,
    trial: Option<TrialView>,
    today: u64,
) -> LicenseStatus {
    match license {
        Some(l) => if l.4 != EXPIRES_NEVER && today >= l.4 {
            LicenseStatus::LicensedExpired
        } else if l.4 == EXPIRES_NEVER {
            LicenseStatus::Licensed { days_left: None }
        } else {
            LicenseStatus::Licensed { days_left: Some((as_i64(l.4) - as_i64(today)) as i64) }
        },
        None => if tampered {
            LicenseStatus::Tampered
        } else {
            match trial {
                None => LicenseStatus::TrialExpired,
                Some(t) => if t.1 > today + ROLLBACK_TOLERANCE_DAYS {
                    LicenseStatus::Tampered
                } else if today >= t.0 + TRIAL_DAYS {
                    LicenseStatus::TrialExpired
                } else {
                    LicenseStatus::Trial {
                        days_left: (as_i64((t.0 + TRIAL_DAYS) as u64) - as_i64(today)) as i64,
                    }
                },
            }
        },
    }
}

/// The arithmetic of the branch of [`status_of`] that is taken stays within
/// its integers: the days left of a licence that has not expired, and the
/// trial's roll-back bound, end day and days left.
pub open spec fn status_fits(
    license: Option<PayloadView>,
    tampered: bool,
    trial: Option<TrialView>,
    today: u64,
) -> bool {
    match license {
        Some(l) => (l.4 != EXPIRES_NEVER && today < l.4) ==> diff_fits(l.4, today),
        None => !tampered ==> match trial {
            None => true,
            Some(t) => {
                &&& today <= u64::MAX - ROLLBACK_TOLERANCE_DAYS
                &&& t.1 <= today + ROLLBACK_TOLERANCE_DAYS ==> {
                    &&& t.0 <= u64::MAX - TRIAL_DAYS
                    &&& today < t.0 + TRIAL_DAYS ==> diff_fits((t.0 + TRIAL_DAYS) as u64, today)
                }
            },
        },
    }
}

impl LicenseManager {
    /// Sets the manager up from what was loaded: the stored licence code is
    /// checked; a clock more than two days behind the trial's last day adds
    /// a roll-back; a trial whose copies were partly missing is signed again;
    /// with no trial and no tampering a fresh trial starts today. The flag
    /// says whether the state must be written to every place now.
    pub fn load(machine_code: String, machine_fp: Vec<u8>, today: u64, lr: LoadResult) -> (r: (
        Self,
        bool,
    ))
        requires
            today <= u64::MAX - ROLLBACK_TOLERANCE_DAYS,
        ensures
            r.0.machine_code@ == machine_code@,
            r.0.machine_fp@ == machine_fp@,
            opt_payload(r.0.license) == (match opt_str(lr.license_raw) {
                Some(raw) => license_check(raw, machine_code@),
                None => None,
            }),
            opt_str(r.0.license_raw) == opt_str(lr.license_raw),
            r.0.tampered == lr.tampered,
            opt_trial(r.0.trial) == (match opt_trial(lr.trial) {
                Some(t) => {
                    let t1 = if t.1 > today + ROLLBACK_TOLERANCE_DAYS {
                        (t.0, t.1, if t.2 < u32::MAX {
                            (t.2 + 1) as u32
                        } else {
                            t.2
                        }, t.3)
                    } else {
                        t
                    };
                    Some(
                        if lr.needs_heal {
                            trial_signed(t1, machine_fp@)
                        } else {
                            t1
                        },
                    )
                },
                None => if lr.tampered {
                    None
                } else {
                    Some(fresh_trial(today, machine_fp@))
                },
            }),
            r.1 == (match lr.trial {
                Some(_) => lr.needs_heal,
                None => !lr.tampered,
            }),
    {
        let license = match &lr.license_raw {
            Some(raw) => verify_license(raw.as_str(), machine_code.as_str()),
            None => None,
        };
        let mut save = false;
        let trial = match lr.trial {
            Some(mut t) => {
                if t.last_run_day > today + ROLLBACK_TOLERANCE_DAYS {
                    t.rollback_count = t.rollback_count.saturating_add(1);
                }
                if lr.needs_heal {
                    t.sign(machine_fp.as_slice());
                    save = true;
                }
                Some(t)
            },
            None => {
                if !lr.tampered {
                    save = true;
                    Some(new_trial(today, machine_fp.as_slice()))
                } else {
                    None
                }
            },
        };
        (
            LicenseManager {
                machine_code,
                machine_fp,
                license,
                license_raw: lr.license_raw,
                trial,
                tampered: lr.tampered,
            },
            save,
        )
    }

    /// The state on `today` (see [`status_of`]).
    pub fn status(&self, today: u64) -> (r: LicenseStatus)
        requires
            status_fits(opt_payload(self.license), self.tampered, opt_trial(self.trial), today),
        ensures
            r == status_of(opt_payload(self.license), self.tampered, opt_trial(self.trial), today),
    {
        match &self.license {
            Some(lic) => {
                if lic.is_expired(today) {
                    return LicenseStatus::LicensedExpired;
                }
                let days_left = if lic.expires_day == EXPIRES_NEVER {
                    None
                } else {
                    Some(day_diff(lic.expires_day, today))
                };
                return LicenseStatus::Licensed { days_left };
            },
            None => {},
        }
        if self.tampered {
            return LicenseStatus::Tampered;
        }
        match &self.trial {
            None => LicenseStatus::TrialExpired,
            Some(t) => {
                if t.last_run_day > today + ROLLBACK_TOLERANCE_DAYS {
                    return LicenseStatus::Tampered;
                }
                let expire_day = t.first_run_day + TRIAL_DAYS;
                if today >= expire_day {
                    LicenseStatus::TrialExpired
                } else {
                    LicenseStatus::Trial { days_left: day_diff(expire_day, today) }
                }
            },
        }
    }

    /// Activates a licence code: it must verify for this product and
    /// machine and must not have expired on `today`. On success the licence
    /// and the code are kept, a trial is started if there was none, and the
    /// state must then be written to every place; on failure nothing
    /// changes.
    pub fn activate(&mut self, license_str: &str, today: u64) -> (r: Result<LicensePayload, ActivateError>)
        ensures
            match r {
                Ok(p) => {
                    &&& license_check(license_str@, old(self).machine_code@) == Some(p@)
                    &&& !(p@.4 != EXPIRES_NEVER && today >= p@.4)
                    &&& opt_payload(final(self).license) == Some(p@)
                    &&& opt_str(final(self).license_raw) == Some(trim(license_str@))
                    &&& opt_trial(final(self).trial) == (match opt_trial(old(self).trial) {
                        Some(t) => Some(t),
                        None => Some(fresh_trial(today, old(self).machine_fp@)),
                    })
                    &&& final(self).machine_code == old(self).machine_code
                    &&& final(self).machine_fp == old(self).machine_fp
                    &&& final(self).tampered == old(self).tampered
                    &&& status_of(
                        opt_payload(final(self).license),
                        final(self).tampered,
                        opt_trial(final(self).trial),
                        today,
                    ) is Licensed
                },
                Err(e) => {
                    &&& e == (match license_check(license_str@, old(self).machine_code@) {
                        None => rejection(license_str@),
                        Some(_) => ActivateError::AlreadyExpired,
                    })
                    &&& (e == ActivateError::AlreadyExpired ==> (license_check(
                        license_str@,
                        old(self).machine_code@,
                    ) matches Some(pl) && pl.4 != EXPIRES_NEVER && today >= pl.4))
                    &&& *final(self) == *old(self)
                },
            },
    {
        let v = chars_of(license_str);
        let t = crate::text::trim_vec(v.as_slice());
        let s = string_from(t.as_slice());
        proof {
            crate::search::lemma_trim_trimmed(license_str@);
        }
        let payload = match verify_license(s.as_str(), self.machine_code.as_str()) {
            Some(p) => p,
            None => {
                return Err(classify(&t));
            },
        };
        if payload.is_expired(today) {
            return Err(ActivateError::AlreadyExpired);
        }
        self.license = Some(payload.duplicate());
        self.license_raw = Some(s);
        let trial_owned = match &self.trial {
            Some(tr) => tr.duplicate(),
            None => new_trial(today, self.machine_fp.as_slice()),
        };
        self.trial = Some(trial_owned);
        Ok(payload)
    }

    /// Activates with the code typed into the licence window: a blank entry
    /// asks for a code ("请输入授权码") and changes nothing; otherwise the
    /// trimmed code is activated as [`LicenseManager::activate`] does, a
    /// failure answering with its message.
    pub fn activate_typed(&mut self, input: &str, today: u64) -> (r: Result<LicensePayload, &'static str>)
        ensures
            trim(input@).len() == 0 ==> r is Err && r->Err_0@ == "请输入授权码"@ && *final(self) == *old(self),
            trim(input@).len() > 0 ==> match r {
                Ok(p) => {
                    &&& license_check(trim(input@), old(self).machine_code@) == Some(p@)
                    &&& opt_payload(final(self).license) == Some(p@)
                    &&& opt_str(final(self).license_raw) == Some(trim(input@))
                    &&& status_of(
                        opt_payload(final(self).license),
                        final(self).tampered,
                        opt_trial(final(self).trial),
                        today,
                    ) is Licensed
                },
                Err(m) => {
                    &&& *final(self) == *old(self)
                    &&& m@ == error_text(match license_check(trim(input@), old(self).machine_code@) {
                        None => rejection(trim(input@)),
                        Some(_) => ActivateError::AlreadyExpired,
                    })
                },
            },
    {
        let v = chars_of(input);
        let t = crate::text::trim_vec(v.as_slice());
        if t.len() == 0 {
            return Err("请输入授权码");
        }
        let code = string_from(t.as_slice());
        proof {
            crate::search::lemma_trim_trimmed(input@);
        }
        match self.activate(code.as_str(), today) {
            Ok(p) => Ok(p),
            Err(e) => Err(e.message()),
        }
    }

    /// Moves the trial's last day forward to `today`, or counts a roll-back
    /// when the clock is more than two days behind it. True when the state
    /// changed (it is then signed again and must be written to every place).
    pub fn checkpoint(&mut self, today: u64) -> (changed: bool)
        requires
            today <= u64::MAX - ROLLBACK_TOLERANCE_DAYS,
        ensures
            final(self).machine_code == old(self).machine_code,
            final(self).machine_fp == old(self).machine_fp,
            opt_payload(final(self).license) == opt_payload(old(self).license),
            opt_str(final(self).license_raw) == opt_str(old(self).license_raw),
            final(self).tampered == old(self).tampered,
            match opt_trial(old(self).trial) {
                None => !changed && opt_trial(final(self).trial) is None,
                Some(t) => {
                    let adv = today > t.1;
                    let rb = t.1 > today + ROLLBACK_TOLERANCE_DAYS;
                    let t1 = (
                        t.0,
                        if adv {
                            today
                        } else {
                            t.1
                        },
                        if rb && t.2 < u32::MAX {
                            (t.2 + 1) as u32
                        } else {
                            t.2
                        },
                        t.3,
                    );
                    &&& changed == (adv || rb)
                    &&& opt_trial(final(self).trial) == Some(
                        if changed {
                            trial_signed(t1, old(self).machine_fp@)
                        } else {
                            t
                        },
                    )
                },
            },
    {
        let fp = &self.machine_fp;
        match &mut self.trial {
            None => false,
            Some(t) => {
                let day_advanced = today > t.last_run_day;
                let rollback = t.last_run_day > today + ROLLBACK_TOLERANCE_DAYS;
                if day_advanced {
                    t.last_run_day = today;
                }
                if rollback {
                    t.rollback_count = t.rollback_count.saturating_add(1);
                }
                if !day_advanced && !rollback {
                    return false;
                }
                t.sign(fp.as_slice());
                true
            },
        }
    }

    /// The machine code shown to the user.
    pub fn machine_code(&self) -> (r: &str)
        ensures
            r@ == self.machine_code@,
    {
        self.machine_code.as_str()
    }

    /// The checked licence, if any.
    pub fn license(&self) -> (r: Option<&LicensePayload>)
        ensures
            match r {
                Some(p) => opt_payload(self.license) == Some(p@),
                None => self.license is None,
            },
    {
        match &self.license {
            Some(p) => Some(p),
            None => None,
        }
    }
}

/// A checkpoint never moves the trial's last day backwards.
pub proof fn lemma_checkpoint_monotone(t: TrialView, today: u64, fp: Seq<u8>)
    ensures
        ({
            let adv = today > t.1;
            let rb = t.1 > today + ROLLBACK_TOLERANCE_DAYS;
            let t1 = (
                t.0,
                if adv {
                    today
                } else {
                    t.1
                },
                if rb && t.2 < u32::MAX {
                    (t.2 + 1) as u32
                } else {
                    t.2
                },
                t.3,
            );
            let after = if adv || rb {
                trial_signed(t1, fp)
            } else {
                t
            };
            after.1 >= t.1 && after.0 == t.0 && after.2 >= t.2
        }),
{
}

} // verus!

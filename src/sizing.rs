//! Device sizes. Size expressions are evaluated in double precision outside
//! this crate; their values reach it as IEEE-754 bit patterns, and are turned
//! into byte counts here as `(value * 1024.0 * 1024.0) as u64` would be.

use vstd::prelude::*;
use crate::device::{Device, DeviceView};
use crate::error::{ConfigError, SizeError};

verus! {

pub open spec fn two_to(n: nat) -> nat
    decreases n,
{
    if n == 0 {
        1
    } else {
        2 * two_to((n - 1) as nat)
    }
}

proof fn lemma_two_to_pos(n: nat)
    ensures
        1 <= two_to(n),
    decreases n,
{
    if n > 0 {
        lemma_two_to_pos((n - 1) as nat);
    }
}

proof fn lemma_two_to_mono(a: nat, b: nat)
    requires
        a <= b,
    ensures
        1 <= two_to(a) <= two_to(b),
    decreases b,
{
    lemma_two_to_pos(a);
    if b > a {
        lemma_two_to_mono(a, (b - 1) as nat);
    }
}

proof fn lemma_two_to_values()
    ensures
        two_to(11) == 0x800,
        two_to(12) == 0x1000,
        two_to(52) == 0x10_0000_0000_0000,
        two_to(64) == 0x1_0000_0000_0000_0000,
{
    reveal_with_fuel(two_to, 65);
}

/// The exponent field of a double's bit pattern.
pub open spec fn exponent_bits(b: u64) -> int {
    (b as int / 0x10_0000_0000_0000) % 0x800
}

/// The fraction field of a double's bit pattern.
pub open spec fn mantissa_bits(b: u64) -> int {
    b as int % 0x10_0000_0000_0000
}

pub open spec fn sign_bit(b: u64) -> bool {
    b >= 0x8000_0000_0000_0000
}

pub open spec fn is_nan_bits(b: u64) -> bool {
    exponent_bits(b) == 0x7FF && mantissa_bits(b) != 0
}

pub open spec fn is_infinite_bits(b: u64) -> bool {
    exponent_bits(b) == 0x7FF && mantissa_bits(b) == 0
}

pub open spec fn is_zero_bits(b: u64) -> bool {
    exponent_bits(b) == 0 && mantissa_bits(b) == 0
}

/// A finite double's magnitude is `significand(b) * 2^power_of(b)`.
pub open spec fn significand(b: u64) -> nat {
    if exponent_bits(b) == 0 {
        mantissa_bits(b) as nat
    } else {
        (mantissa_bits(b) + 0x10_0000_0000_0000) as nat
    }
}

pub open spec fn power_of(b: u64) -> int {
    (if exponent_bits(b) == 0 {
        1
    } else {
        exponent_bits(b)
    }) - 1075
}

/// The integer part of a finite double's magnitude times `2^shift`.
pub open spec fn scaled_floor(b: u64, shift: nat) -> nat {
    let e = power_of(b) + shift;
    if e >= 0 {
        significand(b) * two_to(e as nat)
    } else {
        (significand(b) as int / (two_to((-e) as nat) as int)) as nat
    }
}

/// `(x * 2^shift) as u64` for the double `x` with bit pattern `b`: NaN and
/// negative values give 0, values past the range give `u64::MAX`, the rest
/// are truncated towards zero.
pub open spec fn cast_scaled(b: u64, shift: nat) -> u64 {
    if is_nan_bits(b) || sign_bit(b) {
        0
    } else if is_infinite_bits(b) || scaled_floor(b, shift) > u64::MAX {
        u64::MAX
    } else {
        scaled_floor(b, shift) as u64
    }
}

/// `(x * 2^shift) as u64` for the double `x` whose bit pattern is `bits`.
pub fn scale_to_u64(bits: u64, shift: u64) -> (r: u64)
    requires
        shift <= 64,
    ensures
        r == cast_scaled(bits, shift as nat),
{
    let exp: u64 = (bits / 0x10_0000_0000_0000) % 0x800;
    let man: u64 = bits % 0x10_0000_0000_0000;
    if (exp == 0x7FF && man != 0) || bits >= 0x8000_0000_0000_0000 {
        return 0;
    }
    if exp == 0x7FF {
        return u64::MAX;
    }
    let sig: u64 = if exp == 0 {
        man
    } else {
        man + 0x10_0000_0000_0000
    };
    let base: u64 = if exp == 0 {
        1
    } else {
        exp
    };
    proof {
        lemma_two_to_values();
    }
    assert(sig == significand(bits));
    assert(sig < 0x20_0000_0000_0000);
    if base + shift >= 1075 {
        let e: u64 = base + shift - 1075;
        if e >= 12 {
            proof {
                lemma_two_to_mono(12, e as nat);
                assert(sig >= 0x10_0000_0000_0000);
                let t = two_to(e as nat);
                assert(sig * t >= 0x10_0000_0000_0000 * 0x1000) by (nonlinear_arith)
                    requires
                        sig >= 0x10_0000_0000_0000,
                        t >= 0x1000,
                ;
            }
            return u64::MAX;
        }
        let mut r: u64 = sig;
        let mut k: u64 = 0;
        assert(two_to(0) == 1);
        assert(r == sig * two_to(0));
        while k < e
            invariant
                e < 12,
                k <= e,
                sig < 0x20_0000_0000_0000,
                r == sig * two_to(k as nat),
            decreases e - k,
        {
            proof {
                lemma_two_to_mono((k + 1) as nat, 11);
                lemma_two_to_values();
                let t = two_to((k + 1) as nat);
                assert(sig * t < 0x20_0000_0000_0000 * 0x800) by (nonlinear_arith)
                    requires
                        sig < 0x20_0000_0000_0000,
                        t <= 0x800,
                        t >= 1,
                ;
                assert(sig * two_to((k + 1) as nat) == 2 * (sig * two_to(k as nat))) by (nonlinear_arith)
                    requires
                        two_to((k + 1) as nat) == 2 * two_to(k as nat),
                ;
            }
            r = r * 2;
            k = k + 1;
        }
        r
    } else {
        let d: u64 = 1075 - (base + shift);
        if d >= 64 {
            proof {
                lemma_two_to_mono(64, d as nat);
                let t = two_to(d as nat) as int;
                assert(sig as int / t == 0) by (nonlinear_arith)
                    requires
                        sig < 0x20_0000_0000_0000,
                        t >= 0x1_0000_0000_0000_0000,
                ;
            }
            return 0;
        }
        let mut r: u64 = sig;
        let mut k: u64 = 0;
        assert(two_to(0) == 1);
        assert(r == sig as int / (two_to(0) as int));
        while k < d
            invariant
                k <= d,
                r == sig as int / (two_to(k as nat) as int),
            decreases d - k,
        {
            proof {
                lemma_two_to_mono(0, k as nat);
                let t = two_to(k as nat) as int;
                assert((sig as int / t) / 2 == sig as int / (t * 2)) by (nonlinear_arith)
                    requires
                        t >= 1,
                        sig >= 0,
                ;
            }
            r = r / 2;
            k = k + 1;
        }
        r
    }
}

/// What the value of a size expression (in MB) gives in bytes: NaN and
/// negative values are refused; infinity and values past the range give
/// `u64::MAX`.
pub open spec fn size_of_value(b: u64) -> Result<u64, SizeError> {
    if is_nan_bits(b) {
        Err(SizeError::NotANumber)
    } else if sign_bit(b) && !is_zero_bits(b) {
        Err(SizeError::Negative)
    } else {
        Ok(cast_scaled(b, 20))
    }
}

/// Bytes for the value of a size expression in MB, given as the bit pattern
/// of a double.
pub fn size_from_value(bits: u64) -> (r: Result<u64, SizeError>)
    ensures
        r == size_of_value(bits),
{
    let exp: u64 = (bits / 0x10_0000_0000_0000) % 0x800;
    let man: u64 = bits % 0x10_0000_0000_0000;
    if exp == 0x7FF && man != 0 {
        Err(SizeError::NotANumber)
    } else if bits >= 0x8000_0000_0000_0000 && !(exp == 0 && man == 0) {
        Err(SizeError::Negative)
    } else {
        Ok(scale_to_u64(bits, 20))
    }
}

pub const MIB: u64 = 0x10_0000;

/// `min(ram / 2, 4096)` MB in bytes, the size of a device without a size
/// expression.
pub open spec fn default_disksize_of(memtotal_mb: u64) -> u64 {
    if memtotal_mb >= 8192 {
        (4096 * MIB) as u64
    } else {
        (memtotal_mb * 0x8_0000) as u64
    }
}

pub fn default_disksize(memtotal_mb: u64) -> (r: u64)
    ensures
        r == default_disksize_of(memtotal_mb),
{
    if memtotal_mb >= 8192 {
        4096 * MIB
    } else {
        memtotal_mb * 0x8_0000
    }
}

/// The deprecated sizing: `min(fraction_mb, max-zram-size)` MB in bytes,
/// saturating at `u64::MAX`.
pub open spec fn legacy_disksize_of(fraction_mb: u64, max_zram_size_mb: Option<Option<u64>>) -> u64 {
    let cap = match max_zram_size_mb {
        Some(Some(m)) => m,
        _ => u64::MAX,
    };
    let mb = if fraction_mb < cap {
        fraction_mb
    } else {
        cap
    };
    if mb > u64::MAX / MIB {
        u64::MAX
    } else {
        (mb * MIB) as u64
    }
}

pub fn legacy_disksize(fraction_mb: u64, max_zram_size_mb: Option<Option<u64>>) -> (r: u64)
    ensures
        r == legacy_disksize_of(fraction_mb, max_zram_size_mb),
{
    let cap: u64 = match max_zram_size_mb {
        Some(Some(m)) => m,
        _ => u64::MAX,
    };
    let mb: u64 = if fraction_mb < cap {
        fraction_mb
    } else {
        cap
    };
    if mb > u64::MAX / MIB {
        u64::MAX
    } else {
        mb * MIB
    }
}

/// A device is enabled unless its host memory limit is below the host's memory.
pub open spec fn enabled_on(d: DeviceView, memtotal_mb: u64) -> bool {
    match d.host_memory_limit_mb {
        Some(limit) => !(limit < memtotal_mb),
        None => true,
    }
}

/// Either deprecated field replaces the size expression entirely.
pub open spec fn uses_legacy(d: DeviceView) -> bool {
    d.zram_fraction is Some || d.max_zram_size_mb is Some
}

/// What the evaluator is asked for.
#[derive(Debug, Clone, Copy, PartialEq, Eq)]
pub enum QueryKind {
    /// The value of a size expression, in MB.
    Expression,
    /// The deprecated fraction, as written, times the host's memory in MB.
    FractionOfRam,
}

/// One request to the evaluator of doubles, which answers with the bit
/// pattern of a double or with a message.
pub struct SizeQuery {
    pub kind: QueryKind,
    pub text: String,
}

/// The evaluator, asked `kind` of `text`, may answer `out`.
pub open spec fn answers<F: Fn(SizeQuery) -> Result<u64, String>>(
    eval: F,
    kind: QueryKind,
    text: Seq<char>,
    out: Result<u64, String>,
) -> bool {
    exists|q: SizeQuery| q.kind == kind && q.text@ == text && #[trigger] eval.ensures((q,), out)
}

/// `size` is a size in bytes that the device may get.
pub open spec fn disksize_from<F: Fn(SizeQuery) -> Result<u64, String>>(
    d: DeviceView,
    memtotal_mb: u64,
    eval: F,
    size: u64,
) -> bool {
    if uses_legacy(d) {
        match d.zram_fraction {
            None => size == legacy_disksize_of(memtotal_mb / 2, d.max_zram_size_mb),
            Some(t) => exists|p: u64|
                answers(eval, QueryKind::FractionOfRam, t, Ok(p)) && size == legacy_disksize_of(
                    #[trigger] cast_scaled(p, 0),
                    d.max_zram_size_mb,
                ),
        }
    } else {
        match d.zram_size {
            None => size == default_disksize_of(memtotal_mb),
            Some(t) => exists|b: u64|
                answers(eval, QueryKind::Expression, t, Ok(b)) && #[trigger] size_of_value(b) == Ok::<
                    u64,
                    SizeError,
                >(size),
        }
    }
}

/// `limit` is a resident memory cap in bytes that the device may get.
pub open spec fn mem_limit_from<F: Fn(SizeQuery) -> Result<u64, String>>(
    d: DeviceView,
    eval: F,
    limit: u64,
) -> bool {
    match d.zram_resident_limit {
        None => limit == 0,
        Some(t) => exists|b: u64|
            answers(eval, QueryKind::Expression, t, Ok(b)) && #[trigger] size_of_value(b) == Ok::<
                u64,
                SizeError,
            >(limit),
    }
}

/// The evaluator's answer on `text` may make `cause`.
pub open spec fn fails_with<F: Fn(SizeQuery) -> Result<u64, String>>(
    eval: F,
    kind: QueryKind,
    text: Seq<char>,
    cause: SizeError,
) -> bool {
    (exists|m: String| answers(eval, kind, text, Err(m)) && cause == SizeError::Evaluation(m)) || (
    kind == QueryKind::Expression && exists|b: u64|
        answers(eval, kind, text, Ok(b)) && #[trigger] size_of_value(b) == Err::<u64, SizeError>(
            cause,
        ))
}

/// `e` is an error that sizing the enabled device `d` may end with.
pub open spec fn sizing_failure<F: Fn(SizeQuery) -> Result<u64, String>>(
    d: DeviceView,
    eval: F,
    e: ConfigError,
) -> bool {
    match e {
        ConfigError::Size { device, key, cause } => device@ == d.name && ((key@ == "zram-fraction"@
            && uses_legacy(d) && d.zram_fraction is Some && fails_with(
            eval,
            QueryKind::FractionOfRam,
            d.zram_fraction->0,
            cause,
        )) || (key@ == "zram-size"@ && !uses_legacy(d) && d.zram_size is Some && fails_with(
            eval,
            QueryKind::Expression,
            d.zram_size->0,
            cause,
        )) || (key@ == "zram-resident-limit"@ && d.zram_resident_limit is Some && fails_with(
            eval,
            QueryKind::Expression,
            d.zram_resident_limit->0,
            cause,
        ))),
        _ => false,
    }
}

/// Sizing the device asks the evaluator something: its size comes from a
/// fraction or an expression, or it has a resident cap expression.
pub open spec fn needs_evaluation(d: DeviceView) -> bool {
    (uses_legacy(d) && d.zram_fraction is Some) || (!uses_legacy(d) && d.zram_size is Some)
        || d.zram_resident_limit is Some
}

/// `after` is `before` sized on a host with `memtotal_mb` of memory: size 0
/// when disabled; otherwise a size and a resident cap that `eval` may give,
/// with every other field kept.
pub open spec fn sized<F: Fn(SizeQuery) -> Result<u64, String>>(
    before: DeviceView,
    after: DeviceView,
    memtotal_mb: u64,
    eval: F,
) -> bool {
    if !enabled_on(before, memtotal_mb) {
        after == (DeviceView { disksize: 0, ..before })
    } else {
        after == (DeviceView { disksize: after.disksize, mem_limit: after.mem_limit, ..before })
            && disksize_from(before, memtotal_mb, eval, after.disksize) && mem_limit_from(
            before,
            eval,
            after.mem_limit,
        )
    }
}

impl Device {
    /// Whether the device is enabled on a host with `memtotal_mb` of memory.
    pub fn is_enabled(&self, memtotal_mb: u64) -> (r: bool)
        ensures
            r == enabled_on(self@, memtotal_mb),
    {
        match self.host_memory_limit_mb {
            Some(limit) => !(limit < memtotal_mb),
            None => true,
        }
    }

    /// Whether a deprecated field replaces the size expression.
    pub fn uses_legacy_size(&self) -> (r: bool)
        ensures
            r == uses_legacy(self@),
    {
        self.zram_fraction.is_some() || self.max_zram_size_mb.is_some()
    }

    /// Sizes the device on a host with `memtotal_mb` of memory. A disabled
    /// device gets size 0 and nothing is evaluated. Otherwise the size comes
    /// from the deprecated fields when either is set, else from the size
    /// expression (or its default), and the resident memory cap from its
    /// expression (or 0). `eval` evaluates in double precision; only the
    /// size and the cap change.
    pub fn set_disksize_if_enabled<F: Fn(SizeQuery) -> Result<u64, String>>(
        &mut self,
        memtotal_mb: u64,
        eval: F,
    ) -> (r: Result<(), ConfigError>)
        requires
            forall|q: SizeQuery| eval.requires((q,)),
        ensures
            !enabled_on(old(self)@, memtotal_mb) ==> r is Ok,
            r is Ok ==> sized(old(self)@, final(self)@, memtotal_mb, eval),
            r is Err ==> enabled_on(old(self)@, memtotal_mb) && sizing_failure(
                old(self)@,
                eval,
                r->Err_0,
            ),
    {
        if !self.is_enabled(memtotal_mb) {
            self.disksize = 0;
            return Ok(());
        }
        let disksize: u64;
        if self.uses_legacy_size() {
            let mb: u64 = match &self.zram_fraction {
                None => memtotal_mb / 2,
                Some(t) => {
                    let q = SizeQuery { kind: QueryKind::FractionOfRam, text: t.clone() };
                    match eval(q) {
                        Ok(p) => {
                            assert(answers(eval, QueryKind::FractionOfRam, t@, Ok(p)));
                            scale_to_u64(p, 0)
                        },
                        Err(m) => {
                            assert(answers(eval, QueryKind::FractionOfRam, t@, Err(m)));
                            let e = ConfigError::Size {
                                device: self.name.clone(),
                                key: "zram-fraction".to_string(),
                                cause: SizeError::Evaluation(m),
                            };
                            return Err(e);
                        },
                    }
                },
            };
            disksize = legacy_disksize(mb, self.max_zram_size_mb);
        } else {
            match &self.zram_size {
                None => {
                    disksize = default_disksize(memtotal_mb);
                },
                Some(t) => {
                    let q = SizeQuery { kind: QueryKind::Expression, text: t.clone() };
                    match eval(q) {
                        Ok(b) => {
                            assert(answers(eval, QueryKind::Expression, t@, Ok(b)));
                            match size_from_value(b) {
                                Ok(v) => {
                                    disksize = v;
                                },
                                Err(c) => {
                                    let e = ConfigError::Size {
                                        device: self.name.clone(),
                                        key: "zram-size".to_string(),
                                        cause: c,
                                    };
                                    return Err(e);
                                },
                            }
                        },
                        Err(m) => {
                            assert(answers(eval, QueryKind::Expression, t@, Err(m)));
                            let e = ConfigError::Size {
                                device: self.name.clone(),
                                key: "zram-size".to_string(),
                                cause: SizeError::Evaluation(m),
                            };
                            return Err(e);
                        },
                    }
                },
            }
        }
        let limit: u64;
        match &self.zram_resident_limit {
            None => {
                limit = 0;
            },
            Some(t) => {
                let q = SizeQuery { kind: QueryKind::Expression, text: t.clone() };
                match eval(q) {
                    Ok(b) => {
                        assert(answers(eval, QueryKind::Expression, t@, Ok(b)));
                        match size_from_value(b) {
                            Ok(v) => {
                                limit = v;
                            },
                            Err(c) => {
                                let e = ConfigError::Size {
                                    device: self.name.clone(),
                                    key: "zram-resident-limit".to_string(),
                                    cause: c,
                                };
                                return Err(e);
                            },
                        }
                    },
                    Err(m) => {
                        assert(answers(eval, QueryKind::Expression, t@, Err(m)));
                        let e = ConfigError::Size {
                            device: self.name.clone(),
                            key: "zram-resident-limit".to_string(),
                            cause: SizeError::Evaluation(m),
                        };
                        return Err(e);
                    },
                }
            },
        }
        self.disksize = disksize;
        self.mem_limit = limit;
        Ok(())
    }
}

} // verus!

//! The CRC divider: modulo-2 long division of a byte sequence against a
//! truncated generator polynomial, with configurable width, initial remainder,
//! final XOR mask, and input/output bit reflection.

use vstd::prelude::*;
use vstd::arithmetic::power2::pow2;
use vstd::arithmetic::power2::lemma2_to64;
use vstd::arithmetic::power2::lemma2_to64_rest;
use vstd::bits::low_bits_mask;
use vstd::bits::lemma_u64_pow2_no_overflow;
use vstd::bits::lemma_u64_shl_is_mul;
use crate::bitrev::bit_at;
use crate::bitrev::reflect_spec;
use crate::bitrev::reflect;
use crate::bitrev::lemma_reflect_bound;

verus! {

/// One algorithm instance: a register width `width` (in bits), the truncated
/// generator polynomial, the initial remainder, the final XOR mask, and the
/// two reflection flags. All three numeric parameters are `width`-bit values.
#[derive(Clone, Copy, Debug, PartialEq, Eq, Structural)]
pub struct CrcConfig {
    pub width: u64,
    pub poly: u64,
    pub init: u64,
    pub final_xor: u64,
    pub reflect_in: bool,
    pub reflect_out: bool,
}

/// Why a parameter set was rejected at construction. The policy is strict:
/// a value wider than the configured width is an error, never silently masked.
#[derive(Clone, Copy, Debug, PartialEq, Eq, Structural)]
pub enum ConfigError {
    /// The width is below 8 (the byte-folding step needs at least one byte of
    /// register) or above 64 (the widest register this engine supports).
    InvalidWidth,
    /// The truncated polynomial does not fit in `width` bits.
    PolyTooWide,
    /// The initial remainder does not fit in `width` bits.
    InitTooWide,
    /// The final XOR mask does not fit in `width` bits.
    FinalXorTooWide,
}

impl CrcConfig {
    /// A well-formed instance: the width is supported and every numeric
    /// parameter fits in `width` bits.
    pub open spec fn wf(self) -> bool {
        &&& 8 <= self.width <= 64
        &&& self.poly < pow2(self.width as nat)
        &&& self.init < pow2(self.width as nat)
        &&& self.final_xor < pow2(self.width as nat)
    }
}

/// The all-ones mask of the `w` lowest bits, as a register value.
pub open spec fn wmask(w: nat) -> u64 {
    low_bits_mask(w) as u64
}

/// The `w`-bit mask, computed: `2^w - 1`.
fn width_mask(w: u64) -> (r: u64)
    requires
        1 <= w <= 64,
    ensures
        r == wmask(w as nat),
        r == pow2(w as nat) - 1,
{
    proof {
        lemma2_to64();
        lemma2_to64_rest();
    }
    if w == 64 {
        u64::MAX
    } else {
        proof {
            lemma_u64_pow2_no_overflow(w as nat);
            lemma_u64_shl_is_mul(1u64, w);
        }
        (1u64 << w) - 1
    }
}

/// Builds a validated configuration. Validation is strict: a width outside
/// `[8, 64]` is rejected, as is any numeric parameter that does not fit in
/// `width` bits; parameters are never silently truncated.
pub fn new_config(
    width: u64,
    poly: u64,
    init: u64,
    final_xor: u64,
    reflect_in: bool,
    reflect_out: bool,
) -> (r: Result<CrcConfig, ConfigError>)
    ensures
        r is Ok <==> (8 <= width <= 64 && poly < pow2(width as nat) && init < pow2(width as nat)
            && final_xor < pow2(width as nat)),
        r matches Ok(c) ==> c == (CrcConfig {
            width,
            poly,
            init,
            final_xor,
            reflect_in,
            reflect_out,
        }) && c.wf(),
        !(8 <= width <= 64) ==> r == Err::<CrcConfig, ConfigError>(ConfigError::InvalidWidth),
        8 <= width <= 64 && poly >= pow2(width as nat) ==> r == Err::<CrcConfig, ConfigError>(
            ConfigError::PolyTooWide,
        ),
        8 <= width <= 64 && poly < pow2(width as nat) && init >= pow2(width as nat) ==> r == Err::<
            CrcConfig,
            ConfigError,
        >(ConfigError::InitTooWide),
        8 <= width <= 64 && poly < pow2(width as nat) && init < pow2(width as nat) && final_xor
            >= pow2(width as nat) ==> r == Err::<CrcConfig, ConfigError>(
            ConfigError::FinalXorTooWide,
        ),
{
    if width < 8 || width > 64 {
        return Err(ConfigError::InvalidWidth);
    }
    let mask = width_mask(width);
    if poly > mask {
        return Err(ConfigError::PolyTooWide);
    }
    if init > mask {
        return Err(ConfigError::InitTooWide);
    }
    if final_xor > mask {
        return Err(ConfigError::FinalXorTooWide);
    }
    Ok(CrcConfig { width, poly, init, final_xor, reflect_in, reflect_out })
}

/// One division step: shift the remainder left one bit and mask it back to
/// `w` bits; when the bit shifted out (bit `w - 1`) was set, XOR in the
/// truncated polynomial. The top-bit test stands in for the implicit leading
/// 1 of the untruncated polynomial, which always shifts out as a 0.
pub open spec fn step_bit(rem: u64, poly: u64, w: nat) -> u64 {
    if bit_at(rem, (w - 1) as nat) == 1 {
        ((rem << 1u64) ^ poly) & wmask(w)
    } else {
        (rem << 1u64) & wmask(w)
    }
}

/// `k` division steps in sequence.
pub open spec fn step_bits(rem: u64, poly: u64, w: nat, k: nat) -> u64
    decreases k,
{
    if k == 0 {
        rem
    } else {
        step_bits(step_bit(rem, poly, w), poly, w, (k - 1) as nat)
    }
}

/// Folds one message byte into the remainder: the (optionally reflected) byte
/// is XORed into the top 8 bits of the register, then eight division steps run.
pub open spec fn fold_byte(rem: u64, b: u8, poly: u64, w: nat, reflect_in: bool) -> u64 {
    let data: u64 = if reflect_in {
        reflect_spec(b as u64, 8) as u64
    } else {
        b as u64
    };
    step_bits(rem ^ (data << ((w - 8) as u64)), poly, w, 8)
}

/// Folds a whole message into the remainder, byte by byte, in order.
pub open spec fn crc_fold(rem: u64, msg: Seq<u8>, poly: u64, w: nat, reflect_in: bool) -> u64
    decreases msg.len(),
{
    if msg.len() == 0 {
        rem
    } else {
        crc_fold(
            fold_byte(rem, msg[0], poly, w, reflect_in),
            msg.subrange(1, msg.len() as int),
            poly,
            w,
            reflect_in,
        )
    }
}

/// The checksum of `msg` under configuration `cfg`: the message folded into
/// the initial remainder, XORed with the final mask, and optionally reflected.
pub open spec fn spec_crc(cfg: CrcConfig, msg: Seq<u8>) -> u64 {
    let w = cfg.width as nat;
    let folded = crc_fold(cfg.init, msg, cfg.poly, w, cfg.reflect_in);
    let xored = (folded ^ cfg.final_xor) & wmask(w);
    if cfg.reflect_out {
        reflect_spec(xored, w) as u64
    } else {
        xored
    }
}

/// Masking with `wmask(w)` bounds a value by `2^w - 1` and leaves a `w`-bit
/// value unchanged.
proof fn lemma_mask_props(x: u64, w: nat)
    requires
        1 <= w <= 64,
    ensures
        wmask(w) == pow2(w) - 1,
        x & wmask(w) <= wmask(w),
        x < pow2(w) ==> x & wmask(w) == x,
{
    lemma2_to64();
    lemma2_to64_rest();
    let m = wmask(w);
    if w == 64 {
        assert(x & 0xFFFFFFFFFFFFFFFFu64 == x) by (bit_vector);
    } else {
        lemma_u64_pow2_no_overflow(w);
        let wu = w as u64;
        lemma_u64_shl_is_mul(1u64, wu);
        assert(1u64 << wu == pow2(w));
        assert(m == (1u64 << wu) - 1);
        assert(x < (1u64 << wu) ==> x & (((1u64 << wu) - 1) as u64) == x) by (bit_vector)
            requires
                wu < 64,
        ;
    }
    assert(x & m <= m) by (bit_vector);
}

/// A division step yields a `w`-bit value.
proof fn lemma_step_bit_bound(rem: u64, poly: u64, w: nat)
    requires
        1 <= w <= 64,
    ensures
        step_bit(rem, poly, w) < pow2(w),
{
    lemma_mask_props((rem << 1u64) ^ poly, w);
    lemma_mask_props(rem << 1u64, w);
}

/// One more division step at the end of a run of steps.
proof fn lemma_step_bits_snoc(rem: u64, poly: u64, w: nat, k: nat)
    ensures
        step_bits(rem, poly, w, k + 1) == step_bit(step_bits(rem, poly, w, k), poly, w),
    decreases k,
{
    if k == 0 {
        assert(step_bits(step_bit(rem, poly, w), poly, w, 0) == step_bit(rem, poly, w));
    } else {
        lemma_step_bits_snoc(step_bit(rem, poly, w), poly, w, (k - 1) as nat);
    }
}

/// At least one division step yields a `w`-bit value.
proof fn lemma_step_bits_bound(rem: u64, poly: u64, w: nat, k: nat)
    requires
        1 <= w <= 64,
        1 <= k,
    ensures
        step_bits(rem, poly, w, k) < pow2(w),
    decreases k,
{
    if k == 1 {
        lemma_step_bit_bound(rem, poly, w);
        assert(step_bits(step_bit(rem, poly, w), poly, w, 0) == step_bit(rem, poly, w));
    } else {
        lemma_step_bits_bound(step_bit(rem, poly, w), poly, w, (k - 1) as nat);
    }
}

/// Law: the checksum never exceeds `2^width - 1`.
pub proof fn lemma_spec_crc_bounded(cfg: CrcConfig, msg: Seq<u8>)
    requires
        cfg.wf(),
    ensures
        spec_crc(cfg, msg) < pow2(cfg.width as nat),
{
    let w = cfg.width as nat;
    let folded = crc_fold(cfg.init, msg, cfg.poly, w, cfg.reflect_in);
    let xored = (folded ^ cfg.final_xor) & wmask(w);
    lemma_mask_props(folded ^ cfg.final_xor, w);
    if cfg.reflect_out {
        lemma_reflect_bound(xored, w);
    }
}

/// Computes the `cfg.width`-bit checksum of `message` by bit-serial modulo-2
/// long division: each byte (reflected when `cfg.reflect_in` is set) is folded
/// into the top of the remainder and divided out bit by bit against the
/// truncated polynomial; the remainder is then XORed with `cfg.final_xor` and,
/// when `cfg.reflect_out` is set, bit-reflected over the full width.
pub fn compute_crc(cfg: &CrcConfig, message: &[u8]) -> (r: u64)
    requires
        cfg.wf(),
    ensures
        r == spec_crc(*cfg, message@),
        r < pow2(cfg.width as nat),
{
    let w = cfg.width;
    let ghost wn = w as nat;
    let mask = width_mask(w);
    let top: u64 = 1u64 << (w - 1);
    let mut rem: u64 = cfg.init;
    let mut idx: usize = 0;
    let len = message.len();
    proof {
        assert(message@.subrange(0, len as int) =~= message@);
    }
    while idx < len
        invariant
            cfg.wf(),
            w == cfg.width,
            wn == w as nat,
            mask == wmask(wn),
            top == 1u64 << ((w - 1) as u64),
            len == message@.len(),
            idx <= len,
            rem < pow2(wn),
            crc_fold(rem, message@.subrange(idx as int, len as int), cfg.poly, wn, cfg.reflect_in)
                == crc_fold(cfg.init, message@, cfg.poly, wn, cfg.reflect_in),
        decreases len - idx,
    {
        let ghost rem_in: u64 = rem;
        let byte: u8 = message[idx];
        let data: u64 = if cfg.reflect_in {
            reflect(byte as u64, 8)
        } else {
            byte as u64
        };
        proof {
            lemma2_to64();
            if cfg.reflect_in {
                lemma_reflect_bound(byte as u64, 8);
            }
            assert(data < 256);
        }
        rem = rem ^ (data << (w - 8));
        let ghost rem0: u64 = rem;
        let mut k: u64 = 0;
        while k < 8
            invariant
                k <= 8,
                cfg.wf(),
                w == cfg.width,
                wn == w as nat,
                mask == wmask(wn),
                top == 1u64 << ((w - 1) as u64),
                rem == step_bits(rem0, cfg.poly, wn, k as nat),
            decreases 8 - k,
        {
            let ghost prev: u64 = rem;
            if rem & top != 0 {
                rem = ((rem << 1u64) ^ cfg.poly) & mask;
            } else {
                rem = (rem << 1u64) & mask;
            }
            proof {
                let wm1: u64 = (w - 1) as u64;
                assert(((prev & (1u64 << wm1)) != 0) <==> ((prev >> wm1) & 1) == 1)
                    by (bit_vector)
                    requires
                        wm1 <= 63,
                ;
                assert(((wn - 1) as nat) as u64 == wm1);
                assert(rem == step_bit(prev, cfg.poly, wn));
                lemma_step_bits_snoc(rem0, cfg.poly, wn, k as nat);
            }
            k = k + 1;
        }
        proof {
            lemma_step_bits_bound(rem0, cfg.poly, wn, 8);
            let sub = message@.subrange(idx as int, len as int);
            assert(sub[0] == message@[idx as int]);
            assert(sub.subrange(1, sub.len() as int) =~= message@.subrange(
                idx as int + 1,
                len as int,
            ));
            assert(rem == fold_byte(rem_in, byte, cfg.poly, wn, cfg.reflect_in));
            assert(crc_fold(rem_in, sub, cfg.poly, wn, cfg.reflect_in) == crc_fold(
                rem,
                message@.subrange(idx as int + 1, len as int),
                cfg.poly,
                wn,
                cfg.reflect_in,
            ));
        }
        idx = idx + 1;
    }
    proof {
        assert(message@.subrange(len as int, len as int) =~= Seq::<u8>::empty());
        assert(rem == crc_fold(cfg.init, message@, cfg.poly, wn, cfg.reflect_in));
    }
    let xored = (rem ^ cfg.final_xor) & mask;
    proof {
        lemma_mask_props(rem ^ cfg.final_xor, wn);
    }
    if cfg.reflect_out {
        let out = reflect(xored, w);
        proof {
            lemma_reflect_bound(xored, wn);
        }
        out
    } else {
        xored
    }
}

/// Law: the checksum is a pure function of the configuration and the message;
/// two computations over equal parameters and equal messages agree.
pub proof fn lemma_crc_deterministic(
    cfg1: CrcConfig,
    cfg2: CrcConfig,
    msg1: Seq<u8>,
    msg2: Seq<u8>,
)
    requires
        cfg1 == cfg2,
        msg1 == msg2,
    ensures
        spec_crc(cfg1, msg1) == spec_crc(cfg2, msg2),
{
}

/// Law: with a zero initial remainder, the checksum of the empty message is
/// the final XOR mask, reflected when `reflect_out` is set: no byte is folded
/// in, so the remainder reaches the final XOR step unchanged.
pub proof fn lemma_empty_message(cfg: CrcConfig)
    requires
        cfg.wf(),
        cfg.init == 0,
    ensures
        spec_crc(cfg, Seq::<u8>::empty()) == (if cfg.reflect_out {
            reflect_spec(cfg.final_xor, cfg.width as nat) as u64
        } else {
            cfg.final_xor
        }),
{
    let w = cfg.width as nat;
    let fx = cfg.final_xor;
    assert(crc_fold(0u64, Seq::<u8>::empty(), cfg.poly, w, cfg.reflect_in) == 0u64);
    assert(0u64 ^ fx == fx) by (bit_vector);
    lemma_mask_props(fx, w);
}

/// The standard CRC-32 parameter set (PNG, gzip, zip): polynomial
/// `0x04C11DB7`, initial remainder and final XOR mask all ones, input and
/// output both reflected.
pub fn crc32_config() -> (r: CrcConfig)
    ensures
        r.wf(),
        r.width == 32,
        r.poly == 0x04C11DB7u64,
        r.init == 0xFFFFFFFFu64,
        r.final_xor == 0xFFFFFFFFu64,
        r.reflect_in,
        r.reflect_out,
{
    proof {
        lemma2_to64();
        lemma2_to64_rest();
    }
    CrcConfig {
        width: 32,
        poly: 0x04C11DB7,
        init: 0xFFFFFFFF,
        final_xor: 0xFFFFFFFF,
        reflect_in: true,
        reflect_out: true,
    }
}

/// The CRC-CCITT parameter set: 16-bit register, polynomial `0x1021`, initial
/// remainder all ones, no final XOR, no reflection.
pub fn crc_ccitt_config() -> (r: CrcConfig)
    ensures
        r.wf(),
        r.width == 16,
        r.poly == 0x1021u64,
        r.init == 0xFFFFu64,
        r.final_xor == 0u64,
        !r.reflect_in,
        !r.reflect_out,
{
    proof {
        lemma2_to64();
        lemma2_to64_rest();
    }
    CrcConfig {
        width: 16,
        poly: 0x1021,
        init: 0xFFFF,
        final_xor: 0,
        reflect_in: false,
        reflect_out: false,
    }
}

/// A small 8-bit parameter set: truncated polynomial `0b01011000`, zero
/// initial remainder, no final XOR, no reflection. Its single-byte checksums
/// can be followed by hand as a worked long-division trace.
pub fn crc8_config() -> (r: CrcConfig)
    ensures
        r.wf(),
        r.width == 8,
        r.poly == 0x58u64,
        r.init == 0u64,
        r.final_xor == 0u64,
        !r.reflect_in,
        !r.reflect_out,
{
    proof {
        lemma2_to64();
        lemma2_to64_rest();
    }
    CrcConfig {
        width: 8,
        poly: 0x58,
        init: 0,
        final_xor: 0,
        reflect_in: false,
        reflect_out: false,
    }
}

} // verus!

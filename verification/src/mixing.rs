//! How the channels of a packet become one.

use crate::arith::{quotient_to, sum_to};
use crate::convert::{lemma_exact_integer, whole};
use crate::decode::Samples;
use crate::double::{
    decode, decode_single, lemma_build, one_units, ratio, round, round_single, single_units, Double, SINGLE_BINADE,
    SINGLE_INFINITE, TOP,
};
use crate::order::no_sum;
use crate::rounding::{encode, lemma_encode_scale, lemma_encode_unroll, lemma_encode_zero, lemma_quotient, nearest};
use vstd::arithmetic::div_mod::*;
use vstd::arithmetic::power2::*;
use vstd::prelude::*;

verus! {

/// The first integer that single precision may not hold.
pub const SINGLE_TOP: u64 = 0x100_0000;

/// Every single-precision number is its own nearest one.
proof fn lemma_encode_decode_single(code: nat)
    requires
        code < SINGLE_INFINITE,
    ensures
        encode(SINGLE_TOP as nat, decode_single(code), 1) == code,
{
    lemma2_to64();
    let b = SINGLE_BINADE as nat;
    let top = SINGLE_TOP as nat;
    if code < b {
        lemma_quotient(code, 1, code, 0);
    } else {
        let m = b + code % b;
        let k = (code / b - 1) as nat;
        let p = pow2(k);
        lemma_pow2_pos(k);
        lemma_fundamental_div_mod(code as int, b as int);
        assert(m * p < top * p) by (nonlinear_arith)
            requires
                m < top,
                p > 0,
        ;
        if k > 0 {
            lemma_pow2_unfold(k);
            let h = pow2((k - 1) as nat);
            assert(m * (2 * h) >= top * h) by (nonlinear_arith)
                requires
                    2 * m >= top,
            ;
        }
        assert(1 * top * p == top * p);
        lemma_encode_unroll(top, m * p, 1, k);
        lemma_quotient(m * p, p, m, 0);
        assert(1 * p == p);
        assert(code == b * (k + 1) + code % b);
        assert(b * (k + 1) == k * b + b) by (nonlinear_arith);
    }
}

/// A product of a short significand and a power of two is a single-precision number.
proof fn lemma_exact_single(m: nat, k: nat) -> (code: nat)
    requires
        m < SINGLE_TOP,
        k <= 253,
    ensures
        code < SINGLE_INFINITE,
        decode_single(code) == m * pow2(k),
    decreases k,
{
    lemma2_to64();
    let b = SINGLE_BINADE as nat;
    if k == 0 && m < b {
        assert(m * pow2(0) == m);
        m
    } else if m >= b {
        let code = (k + 1) * b + (m - b) as nat;
        lemma_quotient(code, b, k + 1, (m - b) as nat);
        assert((k + 1) * b <= 254 * b) by (nonlinear_arith)
            requires
                k <= 253,
        ;
        code
    } else {
        lemma_pow2_unfold(k);
        let h = pow2((k - 1) as nat);
        assert(m * (2 * h) == (2 * m) * h) by (nonlinear_arith);
        lemma_exact_single(2 * m, (k - 1) as nat)
    }
}

/// A short integer is held exactly.
proof fn lemma_whole_single(negative: bool, n: nat)
    requires
        n < SINGLE_TOP,
    ensures
        round_single(negative, n * one_units(), 1) == round(negative, n * one_units(), 1),
{
    let code = lemma_exact_single(n, 149);
    lemma_encode_decode_single(code);
    lemma_pow2_adds(149, 925);
    lemma_pow2_pos(925);
    let u = single_units();
    let x = n * pow2(149);
    assert(n * one_units() == x * u) by (nonlinear_arith)
        requires
            one_units() == pow2(149) * u,
            x == n * pow2(149),
    ;
    lemma_encode_scale(SINGLE_TOP as nat, x, 1, u);
}

/// Sums of short integers are exact in single precision.
proof fn lemma_whole_single_sum(a: nat, b: nat)
    requires
        a + b < SINGLE_TOP,
    ensures
        ratio(a, 1).single_sum(ratio(b, 1)) == ratio(a + b, 1),
        no_sum().single_sum(ratio(b, 1)) == ratio(b, 1),
{
    broadcast use lemma_build;

    reveal(sum_to);
    let one = one_units();
    lemma_pow2_pos(1074);
    lemma_exact_integer(a);
    lemma_exact_integer(b);
    lemma_whole_single(false, a + b);
    lemma_whole_single(false, b);
    lemma_encode_zero(TOP as nat, 1);
    assert(decode(0) == 0);
    assert(0 * one == 0);
    assert(a * one + b * one == (a + b) * one) by (nonlinear_arith);
    assert((a + b) * one == 0 <==> a + b == 0) by (nonlinear_arith)
        requires
            one > 0,
    ;
    assert(b * one == 0 <==> b == 0) by (nonlinear_arith)
        requires
            one > 0,
    ;
}

/// The sum of the first `n` of some whole numbers.
pub open spec fn sum_of(s: Seq<nat>, n: int) -> nat
    decreases n,
{
    if n <= 0 {
        0
    } else {
        sum_of(s, n - 1) + s[n - 1]
    }
}

/// The sum of channels of short integers.
proof fn lemma_mixed(samples: Samples, channels: nat, frame: int, values: Seq<nat>, n: int)
    requires
        1 <= n <= channels,
        values.len() == channels,
        forall|c: int| 0 <= c < channels ==> samples.sample(channels, c, frame) == ratio(#[trigger] values[c], 1),
        sum_of(values, n) < SINGLE_TOP,
    ensures
        samples.mixed(channels, frame, n) == ratio(sum_of(values, n), 1),
    decreases n,
{
    assert(samples.sample(channels, n - 1, frame) == ratio(values[n - 1], 1));
    if n == 1 {
        reveal_with_fuel(Samples::mixed, 2);
        reveal_with_fuel(sum_of, 2);
        lemma_whole_single_sum(0, values[0]);
    } else {
        lemma_mixed(samples, channels, frame, values, n - 1);
        lemma_whole_single_sum(sum_of(values, n - 1), values[n - 1]);
    }
}

/// The mono sample of a frame is the mean of its channels: where they are whole numbers and
/// their sum is short, it is the sum divided by the number of channels, rounded once.
pub proof fn lemma_mono(samples: Samples, channels: nat, frame: int, values: Seq<nat>)
    requires
        0 < channels < SINGLE_TOP,
        values.len() == channels,
        forall|c: int| 0 <= c < channels ==> samples.sample(channels, c, frame) == ratio(#[trigger] values[c], 1),
        sum_of(values, channels as int) < SINGLE_TOP,
    ensures
        samples.mono(channels, frame) == round_single(
            false,
            sum_of(values, channels as int) * one_units(),
            channels,
        ),
{
    broadcast use lemma_build;

    reveal(quotient_to);
    let one = one_units();
    let s = sum_of(values, channels as int);
    lemma_mixed(samples, channels, frame, values, channels as int);
    lemma_exact_integer(s);
    lemma_exact_integer(channels);
    lemma_whole_single(false, channels);
    lemma_pow2_pos(1074);
    lemma_pow2_pos(925);
    assert(ratio(channels, 1).single() == ratio(channels, 1));
    lemma_single_quotient(false, s, channels);
}

/// A quotient of whole numbers is rounded once.
proof fn lemma_single_quotient(negative: bool, n: nat, d: nat)
    requires
        n < TOP,
        0 < d < TOP,
    ensures
        round(negative, n * one_units(), 1).single_quotient(ratio(d, 1)) == round_single(negative, n * one_units(), d),
{
    broadcast use lemma_build;

    reveal(quotient_to);
    let one = one_units();
    let u = single_units();
    lemma_pow2_pos(1074);
    lemma_pow2_pos(925);
    crate::convert::lemma_exact(negative, n, 1074);
    lemma_exact_integer(d);
    assert(d * one > 0) by (nonlinear_arith)
        requires
            d > 0,
            one > 0,
    ;
    assert(decode(0) == 0);
    assert(d * u > 0) by (nonlinear_arith)
        requires
            d > 0,
            u > 0,
    ;
    lemma_encode_scale(SINGLE_TOP as nat, n * one, d * u, one);
    assert((d * u) * one == (d * one) * u) by (nonlinear_arith);
}

/// The order of two channels does not matter.
pub proof fn lemma_channels_swapped(a: Samples, b: Samples, frame: int)
    requires
        a.sample(2, 0, frame) == b.sample(2, 1, frame),
        a.sample(2, 1, frame) == b.sample(2, 0, frame),
        a.sample(2, 0, frame).is_finite(),
        a.sample(2, 1, frame).is_finite(),
        round_single(false, a.sample(2, 0, frame).magnitude(), 1) == a.sample(2, 0, frame).abs(),
        round_single(true, a.sample(2, 0, frame).magnitude(), 1) == a.sample(2, 0, frame).abs().neg(),
        round_single(false, a.sample(2, 1, frame).magnitude(), 1) == a.sample(2, 1, frame).abs(),
        round_single(true, a.sample(2, 1, frame).magnitude(), 1) == a.sample(2, 1, frame).abs().neg(),
    ensures
        a.mono(2, frame) == b.mono(2, frame),
{
    broadcast use lemma_build;

    reveal_with_fuel(Samples::mixed, 3);
    let x = a.sample(2, 0, frame);
    let y = a.sample(2, 1, frame);
    lemma_first(x);
    lemma_first(y);
    reveal(sum_to);
    crate::double::lemma_rebuild(x);
    crate::double::lemma_rebuild(y);
    assert(x.single_sum(y) == y.single_sum(x));
}

/// The first channel stays what it is.
proof fn lemma_first(x: Double)
    requires
        x.is_finite(),
        round_single(false, x.magnitude(), 1) == x.abs(),
        round_single(true, x.magnitude(), 1) == x.abs().neg(),
    ensures
        no_sum().single_sum(x) == x,
{
    broadcast use lemma_build;

    reveal(sum_to);
    crate::double::lemma_rebuild(x);
    assert(decode(0) == 0);
    if x.code() > 0 {
        x.lemma_magnitude_positive();
    }
}

/// Samples that lie side by side, frame behind frame, mix as they do in planes.
pub proof fn lemma_interleaved(all: Vec<Double>, planes: Vec<Vec<Double>>, channels: nat, frame: int)
    requires
        forall|c: int| 0 <= c < channels ==> all@[frame * channels + c] == #[trigger] planes@[c]@[frame],
    ensures
        Samples::Interleaved(all).mono(channels, frame) == Samples::F32(planes).mono(channels, frame),
        channels > 0 ==> Samples::Interleaved(all).frames(channels) * channels <= all@.len() < (Samples::Interleaved(
            all,
        ).frames(channels) + 1) * channels,
{
    let a = Samples::Interleaved(all);
    let b = Samples::F32(planes);
    assert forall|c: int| 0 <= c < channels implies a.sample(channels, c, frame) == #[trigger] b.sample(
        channels,
        c,
        frame,
    ) by {
        assert(all@[frame * channels + c] == planes@[c]@[frame]);
    }
    lemma_same_mixed(a, b, channels, frame, channels as int);
    if channels > 0 {
        let n = all@.len() as int;
        let q = n / channels as int;
        lemma_fundamental_div_mod(n, channels as int);
        lemma_mod_bound(n, channels as int);
        assert((q + 1) * channels == channels * q + channels) by (nonlinear_arith);
        assert(q * channels == channels * q) by (nonlinear_arith);
    }
}

/// Samples that are numbers already are taken as they are.
pub proof fn lemma_plain_samples(samples: Samples, channels: nat, channel: int, frame: int)
    ensures
        samples matches Samples::F32(planes) ==> samples.sample(channels, channel, frame) == planes@[channel]@[frame],
        samples matches Samples::Interleaved(all) ==> samples.sample(channels, channel, frame) == all@[frame * channels
            + channel],
{
}

/// A packet gives one sample for every frame, the mean of the channels in it; in planes there
/// are as many frames as the first plane has samples.
pub proof fn lemma_mono_frames(samples: Samples, channels: nat)
    ensures
        samples.mono_frames(channels).len() == samples.frames(channels),
        forall|f: int|
            0 <= f < samples.frames(channels) ==> (#[trigger] samples.mono_frames(channels)[f]) == samples.mono(
                channels,
                f,
            ),
        samples matches Samples::F32(planes) ==> samples.frames(channels) == planes@[0]@.len(),
        samples matches Samples::S16(planes) ==> samples.frames(channels) == planes@[0]@.len(),
        samples matches Samples::S32(planes) ==> samples.frames(channels) == planes@[0]@.len(),
        samples matches Samples::U8(planes) ==> samples.frames(channels) == planes@[0]@.len(),
{
}

/// Equal channels have equal sums.
proof fn lemma_same_mixed(a: Samples, b: Samples, channels: nat, frame: int, n: int)
    requires
        n <= channels,
        forall|c: int| 0 <= c < channels ==> a.sample(channels, c, frame) == #[trigger] b.sample(channels, c, frame),
    ensures
        a.mixed(channels, frame, n) == b.mixed(channels, frame, n),
    decreases n,
{
    if n > 0 {
        lemma_same_mixed(a, b, channels, frame, n - 1);
        assert(a.sample(channels, n - 1, frame) == b.sample(channels, n - 1, frame));
    }
}

/// A short signed integer divided by a positive one.
proof fn lemma_scaled(v: int, d: nat)
    requires
        -(SINGLE_TOP as int) < v < SINGLE_TOP,
        0 < d < TOP,
    ensures
        whole(v).single() == whole(v),
        whole(v).single_quotient(ratio(d, 1)) == round_single(
            v < 0,
            (if v < 0 {
                -v
            } else {
                v
            }) as nat * one_units(),
            d,
        ),
{
    broadcast use lemma_build;

    let n = (if v < 0 {
        -v
    } else {
        v
    }) as nat;
    crate::convert::lemma_exact(v < 0, n, 1074);
    lemma_whole_single(v < 0, n);
    lemma_single_quotient(v < 0, n, d);
    lemma_pow2_pos(1074);
}

/// Signed 16-bit samples are parts of 32767, and unsigned 8-bit ones parts of 128 around 128.
/// Signed 32-bit ones are parts of two to the 31 where they are short. Each is rounded once.
pub proof fn lemma_scaled_samples(samples: Samples, channels: nat, channel: int, frame: int)
    ensures
        samples matches Samples::S16(planes) ==> {
            let v = planes@[channel]@[frame] as int;
            samples.sample(channels, channel, frame) == round_single(
                v < 0,
                (if v < 0 {
                    -v
                } else {
                    v
                }) as nat * one_units(),
                32767,
            )
        },
        samples matches Samples::S32(planes) ==> {
            let v = planes@[channel]@[frame] as int;
            -(SINGLE_TOP as int) < v < SINGLE_TOP ==> samples.sample(channels, channel, frame) == round_single(
                v < 0,
                (if v < 0 {
                    -v
                } else {
                    v
                }) as nat * one_units(),
                2147483648,
            )
        },
        samples matches Samples::U8(planes) ==> {
            let v = planes@[channel]@[frame] as int - 128;
            samples.sample(channels, channel, frame) == round_single(
                v < 0,
                (if v < 0 {
                    -v
                } else {
                    v
                }) as nat * one_units(),
                128,
            )
        },
{
    broadcast use lemma_build;

    match samples {
        Samples::S16(planes) => {
            lemma_scaled(planes@[channel]@[frame] as int, 32767);
        },
        Samples::S32(planes) => {
            let v = planes@[channel]@[frame] as int;
            if -(SINGLE_TOP as int) < v < SINGLE_TOP {
                lemma_scaled(v, 2147483648);
            }
        },
        Samples::U8(planes) => {
            let x = planes@[channel]@[frame] as int;
            let v = x - 128;
            lemma_scaled(x, 128);
            lemma_scaled(v, 128);
            assert(whole(x).single_sum(whole(-128)) == whole(v)) by {
                reveal(sum_to);
                let one = one_units();
                lemma_pow2_pos(1074);
                crate::convert::lemma_exact(false, x as nat, 1074);
                crate::convert::lemma_exact(true, 128, 1074);
                lemma_encode_zero(TOP as nat, 1);
                assert(0 * one == 0);
                if v < 0 {
                    lemma_whole_single(true, (-v) as nat);
                    assert(x as nat * one - 128 * one == -((-v) as nat * one)) by (nonlinear_arith)
                        requires
                            v == x - 128,
                            x >= 0,
                            v < 0,
                    ;
                    assert((-v) as nat * one > 0) by (nonlinear_arith)
                        requires
                            v < 0,
                            one > 0,
                    ;
                } else {
                    lemma_whole_single(false, v as nat);
                    assert(x as nat * one - 128 * one == v as nat * one) by (nonlinear_arith)
                        requires
                            v == x - 128,
                            v >= 0,
                    ;
                    assert(v as nat * one == 0 <==> v == 0) by (nonlinear_arith)
                        requires
                            v >= 0,
                            one > 0,
                    ;
                }
            }
        },
        _ => {},
    }
}

} // verus!

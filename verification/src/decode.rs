//! From the packets of an audio file to mono samples.
//!
//! Reading the file and decoding its packets happens outside; what to do with a packet,
//! and how its channels become one, is decided here.

use crate::convert::whole;
use crate::double::{ratio, Double, SIGN};
use crate::order::no_sum;
use vstd::prelude::*;

verus! {

/// The samples of a decoded packet, channel by channel where not interleaved.
#[derive(Debug)]
pub enum Samples {
    /// Single-precision numbers.
    F32(Vec<Vec<Double>>),
    /// Signed 16-bit integers.
    S16(Vec<Vec<i16>>),
    /// Signed 32-bit integers.
    S32(Vec<Vec<i32>>),
    /// Unsigned 8-bit integers.
    U8(Vec<Vec<u8>>),
    /// Single-precision numbers, the channels of a frame side by side.
    Interleaved(Vec<Double>),
}

/// Whether there are planes for the channels, as long as the first.
pub open spec fn planes_fit<T>(planes: Seq<Vec<T>>, channels: nat) -> bool {
    &&& channels <= planes.len()
    &&& forall|i: int| 0 <= i < channels ==> (#[trigger] planes[i])@.len() == planes[0]@.len()
}

impl Samples {
    /// Whether there are samples for the channels.
    pub open spec fn fit(self, channels: nat) -> bool {
        &&& channels > 0
        &&& match self {
            Samples::F32(planes) => planes_fit(planes@, channels),
            Samples::S16(planes) => planes_fit(planes@, channels),
            Samples::S32(planes) => planes_fit(planes@, channels),
            Samples::U8(planes) => planes_fit(planes@, channels),
            Samples::Interleaved(_) => true,
        }
    }

    /// The number of frames.
    pub open spec fn frames(self, channels: nat) -> nat {
        match self {
            Samples::F32(planes) => planes@[0]@.len(),
            Samples::S16(planes) => planes@[0]@.len(),
            Samples::S32(planes) => planes@[0]@.len(),
            Samples::U8(planes) => planes@[0]@.len(),
            Samples::Interleaved(all) => all@.len() / channels,
        }
    }

    /// The sample of a channel in a frame, between minus one and one for integers. All
    /// arithmetic is in single precision.
    pub open spec fn sample(self, channels: nat, channel: int, frame: int) -> Double {
        match self {
            Samples::F32(planes) => planes@[channel]@[frame],
            Samples::S16(planes) => whole(planes@[channel]@[frame] as int).single().single_quotient(ratio(32767, 1)),
            Samples::S32(planes) => whole(planes@[channel]@[frame] as int).single().single_quotient(
                ratio(2147483648, 1),
            ),
            Samples::U8(planes) => whole(planes@[channel]@[frame] as int).single().single_sum(
                whole(-128),
            ).single_quotient(ratio(128, 1)),
            Samples::Interleaved(all) => all@[frame * channels + channel],
        }
    }

    /// The sum of the first `n` channels of a frame.
    pub open spec fn mixed(self, channels: nat, frame: int, n: int) -> Double
        decreases n,
    {
        if n <= 0 {
            no_sum()
        } else {
            self.mixed(channels, frame, n - 1).single_sum(self.sample(channels, n - 1, frame))
        }
    }

    /// The mean of the channels of a frame.
    pub open spec fn mono(self, channels: nat, frame: int) -> Double {
        self.mixed(channels, frame, channels as int).single_quotient(ratio(channels, 1).single())
    }

    /// The mean of the channels in every frame.
    pub open spec fn mono_frames(self, channels: nat) -> Seq<Double> {
        Seq::new(self.frames(channels), |f: int| self.mono(channels, f))
    }

    fn frame_count(&self, channels: usize) -> (r: usize)
        requires
            self.fit(channels as nat),
        ensures
            r == self.frames(channels as nat),
    {
        match self {
            Samples::F32(planes) => planes[0].len(),
            Samples::S16(planes) => planes[0].len(),
            Samples::S32(planes) => planes[0].len(),
            Samples::U8(planes) => planes[0].len(),
            Samples::Interleaved(all) => all.len() / channels,
        }
    }

    fn get(&self, channels: usize, channel: usize, frame: usize) -> (r: Double)
        requires
            self.fit(channels as nat),
            channel < channels,
            frame < self.frames(channels as nat),
        ensures
            r == self.sample(channels as nat, channel as int, frame as int),
    {
        match self {
            Samples::F32(planes) => planes[channel][frame],
            Samples::S16(planes) => {
                let s = Double::from_i32(planes[channel][frame] as i32).single();
                s.single_quotient(Double::from_ratio(32767, 1))
            },
            Samples::S32(planes) => {
                let s = Double::from_i32(planes[channel][frame]).single();
                s.single_quotient(Double::from_ratio(2147483648, 1))
            },
            Samples::U8(planes) => {
                let s = Double::from_i32(planes[channel][frame] as i32).single();
                s.single_sum(Double::from_i32(-128)).single_quotient(Double::from_ratio(128, 1))
            },
            Samples::Interleaved(all) => {
                let n = all.len();
                proof {
                    let c = channels as int;
                    let q = n as int / c;
                    vstd::arithmetic::div_mod::lemma_fundamental_div_mod(n as int, c);
                    assert(frame * c + channel < n) by (nonlinear_arith)
                        requires
                            frame < q,
                            channel < c,
                            c * q <= n,
                            c > 0,
                    ;
                    assert(0 <= frame * c) by (nonlinear_arith)
                        requires
                            0 <= frame,
                            0 < c,
                    ;
                }
                all[frame * channels + channel]
            },
        }
    }
}

/// Adds the channel means of a decoded packet to some samples.
pub fn append_mono(decoded: &Samples, channels: usize, out: &mut Vec<Double>)
    requires
        decoded.fit(channels as nat),
    ensures
        final(out)@ == old(out)@ + decoded.mono_frames(channels as nat),
{
    let ghost before = out@;
    let ghost all = decoded.mono_frames(channels as nat);
    let frames = decoded.frame_count(channels);
    let divisor = Double::from_index(channels).single();
    let mut f: usize = 0;
    assert(out@ =~= before + all.take(0));
    while f < frames
        invariant
            f <= frames,
            frames == decoded.frames(channels as nat),
            decoded.fit(channels as nat),
            divisor == ratio(channels as nat, 1).single(),
            all == decoded.mono_frames(channels as nat),
            out@ == before + all.take(f as int),
        decreases frames - f,
    {
        let mut sum = Double::from_bits(SIGN);
        let mut c: usize = 0;
        while c < channels
            invariant
                c <= channels,
                f < frames,
                frames == decoded.frames(channels as nat),
                decoded.fit(channels as nat),
                sum == decoded.mixed(channels as nat, f as int, c as int),
            decreases channels - c,
        {
            sum = sum.single_sum(decoded.get(channels, c, f));
            c = c + 1;
        }
        let x = sum.single_quotient(divisor);
        assert(all[f as int] == x);
        assert(before + all.take(f + 1) =~= (before + all.take(f as int)).push(x));
        out.push(x);
        f = f + 1;
    }
    assert(all.take(frames as int) =~= all);
}

/// The first track from `i` on that has a codec.
pub open spec fn first_track(has_codec: Seq<bool>, i: int) -> Option<nat>
    decreases has_codec.len() - i,
{
    if i < 0 || i >= has_codec.len() {
        None
    } else if has_codec[i] {
        Some(i as nat)
    } else {
        first_track(has_codec, i + 1)
    }
}

/// The track that is found has a codec, and none before it has; where none is found, no track
/// has.
pub proof fn lemma_first_track(has_codec: Seq<bool>, i: int)
    requires
        0 <= i,
    ensures
        match first_track(has_codec, i) {
            Some(k) => i <= k < has_codec.len() && has_codec[k as int] && forall|j: int|
                i <= j < k ==> !#[trigger] has_codec[j],
            None => forall|j: int| i <= j < has_codec.len() ==> !#[trigger] has_codec[j],
        },
    decreases has_codec.len() - i,
{
    if i < has_codec.len() && !has_codec[i] {
        lemma_first_track(has_codec, i + 1);
    }
}

/// Chooses the track to decode: the first that has a codec.
pub fn choose_track(has_codec: &[bool]) -> (r: Result<usize, String>)
    ensures
        match first_track(has_codec@, 0) {
            Some(i) => r == Ok::<usize, String>(i as usize) && i < has_codec@.len(),
            None => r matches Err(message) && message@ == "no supported audio track found"@,
        },
{
    let mut i: usize = 0;
    while i < has_codec.len()
        invariant
            i <= has_codec@.len(),
            first_track(has_codec@, 0) == first_track(has_codec@, i as int),
        decreases has_codec@.len() - i,
    {
        if has_codec[i] {
            return Ok(i);
        }
        i = i + 1;
    }
    Err("no supported audio track found".to_string())
}

/// What came of the request for a packet.
#[derive(Debug, Clone, Copy)]
pub enum Packet {
    /// A packet of a track.
    Of(u32),
    /// The end of the file.
    End,
    /// A demand to start anew.
    Reset,
    /// Another failure.
    Failed,
}

/// What to do next.
#[derive(Debug, Clone, Copy, PartialEq, Eq, Structural)]
pub enum Step {
    /// Decode the packet.
    Decode,
    /// Ask for the next packet.
    Next,
    /// Stop with the samples so far.
    Finish,
    /// Give up with the error.
    Fail,
}

/// What came of the decoding of a packet.
#[derive(Debug)]
pub enum Decoded {
    /// Samples, their rate and the number of their channels.
    Buffer(u32, usize, Samples),
    /// The packet is malformed.
    Malformed,
    /// Another failure.
    Failed,
}

/// The mono audio so far.
#[derive(Debug)]
pub struct Audio {
    /// The track that is decoded.
    pub track: u32,
    pub sample_rate: u32,
    pub samples: Vec<Double>,
}

impl Audio {
    /// The state before the first packet.
    pub fn new(track: u32) -> (r: Audio)
        ensures
            r.track == track,
            r.sample_rate == 0,
            r.samples@.len() == 0,
    {
        Audio { track, sample_rate: 0, samples: Vec::new() }
    }

    /// Decides what to do with a packet. Those of other tracks are passed over; the end of
    /// the file and the demand to start anew end the audio.
    pub fn after_packet(&self, packet: Packet) -> (r: Step)
        ensures
            r == match packet {
                Packet::Of(track) => if track == self.track {
                    Step::Decode
                } else {
                    Step::Next
                },
                Packet::End => Step::Finish,
                Packet::Reset => Step::Finish,
                Packet::Failed => Step::Fail,
            },
    {
        match packet {
            Packet::Of(track) => if track == self.track {
                Step::Decode
            } else {
                Step::Next
            },
            Packet::End => Step::Finish,
            Packet::Reset => Step::Finish,
            Packet::Failed => Step::Fail,
        }
    }

    /// Takes in what came of the decoding of a packet. Malformed packets are passed over.
    pub fn after_decoding(&mut self, decoded: Decoded) -> (r: Step)
        requires
            decoded matches Decoded::Buffer(_, channels, samples) ==> samples.fit(
                if channels > 1 {
                    channels as nat
                } else {
                    1
                },
            ),
        ensures
            final(self).track == old(self).track,
            match decoded {
                Decoded::Buffer(rate, channels, samples) => {
                    &&& r == Step::Next
                    &&& final(self).sample_rate == rate
                    &&& final(self).samples@ == old(self).samples@ + samples.mono_frames(
                        if channels > 1 {
                            channels as nat
                        } else {
                            1
                        },
                    )
                },
                Decoded::Malformed => r == Step::Next && *final(self) == *old(self),
                Decoded::Failed => r == Step::Fail && *final(self) == *old(self),
            },
    {
        match decoded {
            Decoded::Buffer(rate, channels, samples) => {
                let channels: usize = if channels > 1 {
                    channels
                } else {
                    1
                };
                self.sample_rate = rate;
                append_mono(&samples, channels, &mut self.samples);
                Step::Next
            },
            Decoded::Malformed => Step::Next,
            Decoded::Failed => Step::Fail,
        }
    }
}

} // verus!

//! Track length from a RIFF/WAVE header: the `fmt ` chunk gives the byte rate and the
//! `data` chunk gives the size of the audio payload.
use vstd::prelude::*;

use crate::duration::{Duration, NANOS_PER_SEC, ratio_nanos};

verus! {

/// Little-endian 16-bit value at `i`.
pub open spec fn le_u16(b: Seq<u8>, i: int) -> nat {
    (b[i] as nat) + 256 * (b[i + 1] as nat)
}

/// Little-endian 32-bit value at `i`.
pub open spec fn le_u32(b: Seq<u8>, i: int) -> nat {
    (b[i] as nat) + 256 * (b[i + 1] as nat) + 65536 * (b[i + 2] as nat) + 16777216 * (b[i + 3] as nat)
}

/// Whether the four bytes at `i` spell the ASCII tag `t0 t1 t2 t3`.
pub open spec fn tag_at(b: Seq<u8>, i: int, t0: u8, t1: u8, t2: u8, t3: u8) -> bool {
    b[i] == t0 && b[i + 1] == t1 && b[i + 2] == t2 && b[i + 3] == t3
}

/// Bytes per second given by a `fmt ` chunk body starting at `i`:
/// sample rate times channels times whole bytes per sample.
pub open spec fn fmt_byte_rate(b: Seq<u8>, i: int) -> nat {
    le_u32(b, i + 4) * le_u16(b, i + 2) * (le_u16(b, i + 14) / 8)
}

/// Walks the chunks from `pos`, carrying the byte rate found so far. `None` when a `fmt `
/// chunk runs past the end; otherwise the byte rate and the `data` size (0 when no `data`
/// chunk header is complete). A chunk header that does not fit ends the walk, and so does
/// a chunk that extends past the end.
pub open spec fn wav_walk(b: Seq<u8>, pos: nat, byte_rate: nat) -> Option<(nat, nat)>
    decreases b.len() - pos,
{
    if pos + 8 > b.len() {
        Some((byte_rate, 0))
    } else {
        let size = le_u32(b, (pos + 4) as int);
        let body = pos + 8;
        if tag_at(b, pos as int, 0x66, 0x6d, 0x74, 0x20) {
            if body + size > b.len() {
                None
            } else {
                let rate = if size >= 16 {
                    fmt_byte_rate(b, body as int)
                } else {
                    byte_rate
                };
                wav_walk(b, body + size, rate)
            }
        } else if tag_at(b, pos as int, 0x64, 0x61, 0x74, 0x61) {
            Some((byte_rate, size))
        } else if body + size > b.len() {
            Some((byte_rate, 0))
        } else {
            wav_walk(b, body + size, byte_rate)
        }
    }
}

/// Length in nanoseconds of the audio a WAVE file holds, when its header gives both a
/// positive byte rate and a positive payload size.
pub open spec fn spec_wav_duration(b: Seq<u8>) -> Option<nat> {
    if b.len() < 12 || !tag_at(b, 0, 0x52, 0x49, 0x46, 0x46) || !tag_at(b, 8, 0x57, 0x41, 0x56, 0x45) {
        None
    } else {
        match wav_walk(b, 12, 0) {
            None => None,
            Some((rate, size)) => if rate > 0 && size > 0 {
                Some(ratio_nanos(size, rate))
            } else {
                None
            },
        }
    }
}

fn read_le_u16(b: &[u8], i: usize) -> (v: u64)
    requires
        i + 2 <= b@.len(),
    ensures
        v == le_u16(b@, i as int),
{
    (b[i] as u64) + 256 * (b[i + 1] as u64)
}

fn read_le_u32(b: &[u8], i: usize) -> (v: u64)
    requires
        i + 4 <= b@.len(),
    ensures
        v == le_u32(b@, i as int),
{
    (b[i] as u64) + 256 * (b[i + 1] as u64) + 65536 * (b[i + 2] as u64) + 16777216 * (b[i + 3] as u64)
}

fn is_tag(b: &[u8], i: usize, t0: u8, t1: u8, t2: u8, t3: u8) -> (r: bool)
    requires
        i + 4 <= b@.len(),
    ensures
        r == tag_at(b@, i as int, t0, t1, t2, t3),
{
    b[i] == t0 && b[i + 1] == t1 && b[i + 2] == t2 && b[i + 3] == t3
}

/// Reads the length of a WAVE file from its bytes.
/// The quotient is taken exactly, in integers, and rounded to the nearest nanosecond; a
/// floating-point division of the same values can land one nanosecond away.
pub fn wav_duration(bytes: &[u8]) -> (r: Option<Duration>)
    ensures
        r is Some <==> spec_wav_duration(bytes@) is Some,
        r matches Some(d) ==> d@ == spec_wav_duration(bytes@)->0,
{
    let len = bytes.len();
    if len < 12 || !is_tag(bytes, 0, 0x52, 0x49, 0x46, 0x46) || !is_tag(bytes, 8, 0x57, 0x41, 0x56, 0x45) {
        return None;
    }
    let mut pos: usize = 12;
    let mut byte_rate: u64 = 0;
    while len - pos >= 8
        invariant
            len == bytes@.len(),
            12 <= pos <= len,
            tag_at(bytes@, 0, 0x52, 0x49, 0x46, 0x46),
            tag_at(bytes@, 8, 0x57, 0x41, 0x56, 0x45),
            wav_walk(bytes@, 12, 0) == wav_walk(bytes@, pos as nat, byte_rate as nat),
        decreases len - pos,
    {
        let size: u64 = read_le_u32(bytes, pos + 4);
        let body: usize = pos + 8;
        if is_tag(bytes, pos, 0x66, 0x6d, 0x74, 0x20) {
            if size > (len - body) as u64 {
                return None;
            }
            if size >= 16 {
                let channels = read_le_u16(bytes, body + 2);
                let rate = read_le_u32(bytes, body + 4);
                let bits = read_le_u16(bytes, body + 14);
                assert(rate * channels <= 0xffff_ffff_ffff) by (nonlinear_arith)
                    requires
                        rate <= 0xffff_ffff,
                        channels <= 0xffff,
                ;
                assert(rate * channels * (bits / 8) <= 0x1fff_ffff_ffff_ffff) by (nonlinear_arith)
                    requires
                        rate * channels <= 0xffff_ffff_ffff,
                        bits <= 0xffff,
                ;
                byte_rate = rate * channels * (bits / 8);
            }
            pos = body + (size as usize);
        } else if is_tag(bytes, pos, 0x64, 0x61, 0x74, 0x61) {
            assert(wav_walk(bytes@, pos as nat, byte_rate as nat) == Some(
                (byte_rate as nat, size as nat),
            ));
            if byte_rate > 0 && size > 0 {
                return Some(Duration::from_ratio(size, byte_rate));
            }
            return None;
        } else {
            if size > (len - body) as u64 {
                return None;
            }
            pos = body + (size as usize);
        }
    }
    None
}

/// Bytes of payload in a 16-bit stereo PCM file of `seconds` seconds at `sample_rate`.
pub open spec fn synth_data_len(sample_rate: nat, seconds: nat) -> nat {
    sample_rate * seconds * 4
}

/// `h` is the 44-byte header of a 16-bit stereo PCM WAVE file holding `seconds` seconds at
/// `sample_rate`: the RIFF size, a 16-byte `fmt ` chunk (format 1, 2 channels, the rate,
/// the byte rate, block align 4, 16 bits) and the `data` chunk header.
pub open spec fn is_synth_header(h: Seq<u8>, sample_rate: nat, seconds: nat) -> bool {
    &&& h.len() == 44
    &&& tag_at(h, 0, 0x52, 0x49, 0x46, 0x46)
    &&& le_u32(h, 4) == 36 + synth_data_len(sample_rate, seconds)
    &&& tag_at(h, 8, 0x57, 0x41, 0x56, 0x45)
    &&& tag_at(h, 12, 0x66, 0x6d, 0x74, 0x20)
    &&& le_u32(h, 16) == 16
    &&& le_u16(h, 20) == 1
    &&& le_u16(h, 22) == 2
    &&& le_u32(h, 24) == sample_rate
    &&& le_u32(h, 28) == sample_rate * 4
    &&& le_u16(h, 32) == 4
    &&& le_u16(h, 34) == 16
    &&& tag_at(h, 36, 0x64, 0x61, 0x74, 0x61)
    &&& le_u32(h, 40) == synth_data_len(sample_rate, seconds)
}

fn push_le32(v: &mut Vec<u8>, x: u32)
    ensures
        final(v)@.len() == old(v)@.len() + 4,
        forall|i: int| 0 <= i < old(v)@.len() ==> #[trigger] final(v)@[i] == old(v)@[i],
        le_u32(final(v)@, old(v)@.len() as int) == x,
{
    let b0: u8 = (x & 0xff) as u8;
    let b1: u8 = ((x >> 8) & 0xff) as u8;
    let b2: u8 = ((x >> 16) & 0xff) as u8;
    let b3: u8 = ((x >> 24) & 0xff) as u8;
    assert(b0 as u32 + 256 * (b1 as u32) + 65536 * (b2 as u32) + 16777216 * (b3 as u32) == x) by (bit_vector)
        requires
            b0 == (x & 0xff) as u8,
            b1 == ((x >> 8) & 0xff) as u8,
            b2 == ((x >> 16) & 0xff) as u8,
            b3 == ((x >> 24) & 0xff) as u8,
    ;
    let ghost n = v@.len() as int;
    v.push(b0);
    v.push(b1);
    v.push(b2);
    v.push(b3);
    assert(v@[n] == b0 && v@[n + 1] == b1 && v@[n + 2] == b2 && v@[n + 3] == b3);
}

fn push_le16(v: &mut Vec<u8>, x: u16)
    ensures
        final(v)@.len() == old(v)@.len() + 2,
        forall|i: int| 0 <= i < old(v)@.len() ==> #[trigger] final(v)@[i] == old(v)@[i],
        le_u16(final(v)@, old(v)@.len() as int) == x,
{
    let b0: u8 = (x & 0xff) as u8;
    let b1: u8 = ((x >> 8) & 0xff) as u8;
    assert(b0 as u16 + 256 * (b1 as u16) == x) by (bit_vector)
        requires
            b0 == (x & 0xff) as u8,
            b1 == ((x >> 8) & 0xff) as u8,
    ;
    let ghost n = v@.len() as int;
    v.push(b0);
    v.push(b1);
    assert(v@[n] == b0 && v@[n + 1] == b1);
}

fn push_tag(v: &mut Vec<u8>, t0: u8, t1: u8, t2: u8, t3: u8)
    ensures
        final(v)@.len() == old(v)@.len() + 4,
        forall|i: int| 0 <= i < old(v)@.len() ==> #[trigger] final(v)@[i] == old(v)@[i],
        tag_at(final(v)@, old(v)@.len() as int, t0, t1, t2, t3),
{
    let ghost n = v@.len() as int;
    v.push(t0);
    v.push(t1);
    v.push(t2);
    v.push(t3);
    assert(v@[n] == t0 && v@[n + 1] == t1 && v@[n + 2] == t2 && v@[n + 3] == t3);
}

/// The header of a 16-bit stereo PCM WAVE file of `seconds` seconds at `sample_rate`, as
/// the demo track writer puts it before the samples.
pub fn synth_wav_header(sample_rate: u32, seconds: u32) -> (h: Vec<u8>)
    requires
        synth_data_len(sample_rate as nat, seconds as nat) + 36 <= u32::MAX,
        sample_rate * 4 <= u32::MAX,
    ensures
        is_synth_header(h@, sample_rate as nat, seconds as nat),
{
    assert(sample_rate * seconds * 4 <= u32::MAX);
    assert(sample_rate * seconds <= u32::MAX) by (nonlinear_arith)
        requires
            sample_rate * seconds * 4 <= u32::MAX,
    ;
    let total: u32 = sample_rate * seconds;
    let data_len: u32 = total * 4;
    let mut h: Vec<u8> = Vec::new();
    push_tag(&mut h, 0x52, 0x49, 0x46, 0x46);
    push_le32(&mut h, 36 + data_len);
    push_tag(&mut h, 0x57, 0x41, 0x56, 0x45);
    push_tag(&mut h, 0x66, 0x6d, 0x74, 0x20);
    push_le32(&mut h, 16);
    push_le16(&mut h, 1);
    push_le16(&mut h, 2);
    push_le32(&mut h, sample_rate);
    push_le32(&mut h, sample_rate * 4);
    push_le16(&mut h, 4);
    push_le16(&mut h, 16);
    push_tag(&mut h, 0x64, 0x61, 0x74, 0x61);
    push_le32(&mut h, data_len);
    h
}

/// A header written for `seconds` seconds at `sample_rate` reads back as exactly that
/// length, whatever samples follow it; without samples or without a rate it gives none.
pub proof fn lemma_synth_header_reads_back(h: Seq<u8>, sample_rate: nat, seconds: nat, samples: Seq<u8>)
    requires
        is_synth_header(h, sample_rate, seconds),
    ensures
        spec_wav_duration(h + samples) == if sample_rate > 0 && seconds > 0 {
            Some(seconds * (NANOS_PER_SEC as nat))
        } else {
            None::<nat>
        },
{
    let b = h + samples;
    assert forall|i: int| 0 <= i < 44 implies b[i] == h[i] by {}
    assert(tag_at(b, 0, 0x52, 0x49, 0x46, 0x46));
    assert(tag_at(b, 8, 0x57, 0x41, 0x56, 0x45));
    assert(tag_at(b, 12, 0x66, 0x6d, 0x74, 0x20));
    assert(le_u32(b, 16) == 16);
    assert(le_u16(b, 22) == 2);
    assert(le_u32(b, 24) == sample_rate);
    assert(le_u16(b, 34) == 16);
    assert(tag_at(b, 36, 0x64, 0x61, 0x74, 0x61));
    assert(!tag_at(b, 36, 0x66, 0x6d, 0x74, 0x20));
    assert(le_u32(b, 40) == synth_data_len(sample_rate, seconds));
    let rate = fmt_byte_rate(b, 20);
    assert(rate == sample_rate * 4) by {
        assert(fmt_byte_rate(b, 20) == le_u32(b, 24) * le_u16(b, 22) * (le_u16(b, 34) / 8));
        assert(le_u16(b, 34) / 8 == 2);
        assert(sample_rate * 2 * 2 == sample_rate * 4) by (nonlinear_arith);
    }
    let size = synth_data_len(sample_rate, seconds);
    assert(wav_walk(b, 36, rate) == Some((rate, size)));
    assert(wav_walk(b, 12, 0) == wav_walk(b, 36, rate));
    if sample_rate > 0 && seconds > 0 {
        let n = NANOS_PER_SEC as nat;
        let x = 2 * size * n + rate;
        let d = 2 * rate;
        assert(size > 0) by (nonlinear_arith)
            requires
                size == sample_rate * seconds * 4,
                sample_rate > 0,
                seconds > 0,
        ;
        assert(x == (seconds * n) * d + sample_rate * 4) by (nonlinear_arith)
            requires
                x == 2 * size * n + rate,
                d == 2 * rate,
                size == sample_rate * seconds * 4,
                rate == sample_rate * 4,
        ;
        vstd::arithmetic::div_mod::lemma_fundamental_div_mod_converse(
            x as int,
            d as int,
            (seconds * n) as int,
            (sample_rate * 4) as int,
        );
        assert(ratio_nanos(size, rate) == seconds * n);
    } else {
        assert(sample_rate == 0 ==> rate == 0);
        assert(seconds == 0 ==> size == 0) by (nonlinear_arith)
            requires
                size == sample_rate * seconds * 4,
        ;
    }
}

} // verus!

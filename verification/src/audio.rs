//! Byte-level audio container rules: the Opus identification header and the
//! canonical 44-byte header of a mono 16-bit PCM WAV file.
use vstd::prelude::*;

verus! {

/// Default of the on/off switches of the audio processing settings.
pub fn d_true() -> (b: bool)
    ensures
        b,
{
    true
}

/// What playback needs from an Opus identification header.
#[derive(Debug, PartialEq, Eq, Structural)]
pub struct OpusHeader {
    pub channels: usize,
    pub pre_skip: u16,
    pub output_gain: i16,
}

/// The magic bytes `OpusHead`.
pub open spec fn opus_magic() -> Seq<u8> {
    seq![0x4fu8, 0x70u8, 0x75u8, 0x73u8, 0x48u8, 0x65u8, 0x61u8, 0x64u8]
}

/// A 16-bit two's-complement value from its unsigned bits.
pub open spec fn signed16(u: int) -> int {
    if u < 32768 { u } else { u - 65536 }
}

/// The header in `data`, when it is one. The ISO BMFF `dOps` box (version byte 0) is
/// big-endian; the Ogg and Matroska `OpusHead` (version 1) is little-endian.
pub open spec fn parse_opus_header(data: Seq<u8>) -> Option<(int, int, int)> {
    if data.len() < 19 || data.take(8) != opus_magic() {
        None
    } else if data[8] == 0 {
        Some((data[9] as int, data[10] * 256 + data[11], signed16(data[16] * 256 + data[17])))
    } else {
        Some((data[9] as int, data[11] * 256 + data[10], signed16(data[17] * 256 + data[16])))
    }
}

fn to_signed16(u: u16) -> (r: i16)
    ensures
        r == signed16(u as int),
{
    if u < 32768 {
        u as i16
    } else {
        let low = (u - 32768) as i16;
        low + i16::MIN
    }
}

fn has_opus_magic(data: &[u8]) -> (b: bool)
    requires
        data@.len() >= 8,
    ensures
        b == (data@.take(8) == opus_magic()),
{
    let b = data[0] == 0x4f && data[1] == 0x70 && data[2] == 0x75 && data[3] == 0x73 && data[4] == 0x48
        && data[5] == 0x65 && data[6] == 0x61 && data[7] == 0x64;
    if b {
        assert(data@.take(8) =~= opus_magic());
    } else {
        assert(data@.take(8) != opus_magic() || !b) by {
            if data@.take(8) == opus_magic() {
                assert(data@.take(8)[0] == data@[0]);
                assert(data@.take(8)[1] == data@[1]);
                assert(data@.take(8)[2] == data@[2]);
                assert(data@.take(8)[3] == data@[3]);
                assert(data@.take(8)[4] == data@[4]);
                assert(data@.take(8)[5] == data@[5]);
                assert(data@.take(8)[6] == data@[6]);
                assert(data@.take(8)[7] == data@[7]);
            }
        }
    }
    b
}

/// Reads the channel count, pre-skip and output gain of an Opus stream's codec data.
pub fn opus_header(extra_data: Option<&[u8]>) -> (r: Option<OpusHeader>)
    ensures
        match extra_data {
            None => r is None,
            Some(d) => match parse_opus_header(d@) {
                None => r is None,
                Some(h) => r matches Some(o) && o.channels == h.0 && o.pre_skip == h.1 && o.output_gain == h.2,
            },
        },
{
    let data = match extra_data {
        Some(d) => d,
        None => return None,
    };
    if data.len() < 19 || !has_opus_magic(data) {
        return None;
    }
    let (pre_skip, gain_bits) = if data[8] == 0 {
        (data[10] as u16 * 256 + data[11] as u16, data[16] as u16 * 256 + data[17] as u16)
    } else {
        (data[11] as u16 * 256 + data[10] as u16, data[17] as u16 * 256 + data[16] as u16)
    };
    Some(OpusHeader { channels: data[9] as usize, pre_skip, output_gain: to_signed16(gain_bits) })
}

/// The `n` little-endian bytes of `x`.
pub open spec fn le_bytes(x: nat, n: nat) -> Seq<u8>
    decreases n,
{
    if n == 0 { Seq::empty() } else { seq![(x % 256) as u8] + le_bytes(x / 256, (n - 1) as nat) }
}

pub open spec fn ascii4(a: u8, b: u8, c: u8, d: u8) -> Seq<u8> {
    seq![a, b, c, d]
}

/// Why a WAV header cannot be written.
pub open spec fn wav_header_error() -> Seq<char> {
    "采样率无效或音频超过 WAV 格式上限"@
}

/// Whether a mono 16-bit file of `samples` samples at `rate` Hz fits the WAV format:
/// the data and RIFF lengths fit 32 bits and the byte rate is non-zero and fits too.
pub open spec fn wav_fits(samples: nat, rate: nat) -> bool {
    2 * samples + 36 <= u32::MAX && 0 < 2 * rate <= u32::MAX
}

/// The 44-byte header of a mono 16-bit PCM WAV file.
pub open spec fn wav_header(samples: nat, rate: nat) -> Seq<u8> {
    ascii4(0x52, 0x49, 0x46, 0x46) + le_bytes(2 * samples + 36, 4) + ascii4(0x57, 0x41, 0x56, 0x45)
        + ascii4(0x66, 0x6d, 0x74, 0x20) + le_bytes(16, 4) + le_bytes(1, 2) + le_bytes(1, 2) + le_bytes(rate, 4)
        + le_bytes(2 * rate, 4) + le_bytes(2, 2) + le_bytes(16, 2) + ascii4(0x64, 0x61, 0x74, 0x61) + le_bytes(
        2 * samples,
        4,
    )
}

fn push_le(out: &mut Vec<u8>, x: u32, n: usize)
    requires
        n <= 4,
    ensures
        final(out)@ == old(out)@ + le_bytes(x as nat, n as nat),
    decreases n,
{
    if n > 0 {
        out.push((x % 256) as u8);
        let ghost mid = out@;
        push_le(out, x / 256, n - 1);
        assert(old(out)@ + le_bytes(x as nat, n as nat) =~= mid + le_bytes((x / 256) as nat, (n - 1) as nat));
    } else {
        assert(out@ =~= old(out)@ + le_bytes(x as nat, 0));
    }
}

fn push4(out: &mut Vec<u8>, a: u8, b: u8, c: u8, d: u8)
    ensures
        final(out)@ == old(out)@ + ascii4(a, b, c, d),
{
    out.push(a);
    out.push(b);
    out.push(c);
    out.push(d);
    assert(out@ =~= old(out)@ + ascii4(a, b, c, d));
}

/// The header of a mono 16-bit PCM WAV file of `samples` samples at `rate` Hz, checked
/// before anything is written.
pub fn header(samples: usize, rate: u32) -> (r: Result<Vec<u8>, String>)
    ensures
        match r {
            Ok(bytes) => wav_fits(samples as nat, rate as nat) && bytes@ == wav_header(samples as nat, rate as nat),
            Err(e) => !wav_fits(samples as nat, rate as nat) && e@ == wav_header_error(),
        },
{
    if samples > 2147483629 || rate == 0 || rate > 2147483647 {
        return Err(String::from_str("采样率无效或音频超过 WAV 格式上限"));
    }
    let data_len: u32 = (samples * 2) as u32;
    let riff_len: u32 = data_len + 36;
    let byte_rate: u32 = rate * 2;
    let mut out: Vec<u8> = Vec::new();
    push4(&mut out, 0x52, 0x49, 0x46, 0x46);
    push_le(&mut out, riff_len, 4);
    push4(&mut out, 0x57, 0x41, 0x56, 0x45);
    push4(&mut out, 0x66, 0x6d, 0x74, 0x20);
    push_le(&mut out, 16, 4);
    push_le(&mut out, 1, 2);
    push_le(&mut out, 1, 2);
    push_le(&mut out, rate, 4);
    push_le(&mut out, byte_rate, 4);
    push_le(&mut out, 2, 2);
    push_le(&mut out, 16, 2);
    push4(&mut out, 0x64, 0x61, 0x74, 0x61);
    push_le(&mut out, data_len, 4);
    assert(out@ =~= wav_header(samples as nat, rate as nat));
    Ok(out)
}

} // verus!

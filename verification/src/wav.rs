//! The 16-bit PCM WAV header: the native render and export format, read
//! back by any player (and by the decoder).
use vstd::prelude::*;

verus! {

/// The two little-endian bytes of `v`.
pub open spec fn le16(v: int) -> Seq<u8> {
    seq![(v % 256) as u8, ((v / 256) % 256) as u8]
}

/// The four little-endian bytes of `v`.
pub open spec fn le32(v: int) -> Seq<u8> {
    seq![
        (v % 256) as u8,
        ((v / 256) % 256) as u8,
        ((v / 65536) % 256) as u8,
        ((v / 16777216) % 256) as u8,
    ]
}

/// Bits per sample written.
pub const BITS_PER_SAMPLE: u16 = 16;

/// The header of a 16-bit PCM WAV file holding `samples` interleaved
/// samples of `channels` channels (at least 1) at `rate` Hz: the RIFF
/// chunk, the 16-byte `fmt ` chunk, then the `data` chunk's header.
pub open spec fn wav_header_bytes(samples: nat, rate: nat, channels: nat) -> Seq<u8> {
    let ch: int = if channels >= 1 {
        channels as int
    } else {
        1
    };
    let block_align = ch * 2;
    let data_len = samples * 2;
    seq![82u8, 73, 70, 70] + le32(36 + data_len as int) + seq![87u8, 65, 86, 69] + seq![102u8, 109, 116, 32]
        + le32(16) + le16(1) + le16(ch) + le32(rate as int) + le32(rate * block_align) + le16(
        block_align,
    ) + le16(16) + seq![100u8, 97, 116, 97] + le32(data_len as int)
}

fn push_le16(out: &mut Vec<u8>, v: u16)
    ensures
        final(out)@ == old(out)@ + le16(v as int),
{
    out.push((v % 256) as u8);
    out.push(((v / 256) % 256) as u8);
    proof {
        assert(final(out)@ =~= old(out)@ + le16(v as int));
    }
}

fn push_le32(out: &mut Vec<u8>, v: u32)
    ensures
        final(out)@ == old(out)@ + le32(v as int),
{
    out.push((v % 256) as u8);
    out.push(((v / 256) % 256) as u8);
    out.push(((v / 65536) % 256) as u8);
    out.push(((v / 16777216) % 256) as u8);
    proof {
        assert(final(out)@ =~= old(out)@ + le32(v as int));
    }
}

fn push_tag(out: &mut Vec<u8>, a: u8, b: u8, c: u8, d: u8)
    ensures
        final(out)@ == old(out)@ + seq![a, b, c, d],
{
    out.push(a);
    out.push(b);
    out.push(c);
    out.push(d);
    proof {
        assert(final(out)@ =~= old(out)@ + seq![a, b, c, d]);
    }
}

/// The 44-byte header of a 16-bit PCM WAV file holding `samples`
/// interleaved samples of `channels` channels (0 taken as 1) at
/// `sample_rate` Hz. The sizes must fit the format's 32-bit fields.
pub fn wav_header(samples: usize, sample_rate: u32, channels: u16) -> (r: Vec<u8>)
    requires
        36 + 2 * samples <= u32::MAX,
        2 * channels <= u16::MAX,
        sample_rate * 2 * (if channels >= 1 {
            channels as int
        } else {
            1
        }) <= u32::MAX,
    ensures
        r@ == wav_header_bytes(samples as nat, sample_rate as nat, channels as nat),
        r.len() == 44,
{
    let ch: u16 = if channels >= 1 {
        channels
    } else {
        1
    };
    let block_align: u16 = ch * 2;
    assert(sample_rate * (block_align as int) == sample_rate * 2 * (ch as int)) by (nonlinear_arith)
        requires
            block_align == ch * 2,
    ;
    let byte_rate: u32 = sample_rate * (block_align as u32);
    let data_len: u32 = (samples * 2) as u32;
    let mut out: Vec<u8> = Vec::new();
    push_tag(&mut out, 82, 73, 70, 70);
    push_le32(&mut out, 36 + data_len);
    push_tag(&mut out, 87, 65, 86, 69);
    push_tag(&mut out, 102, 109, 116, 32);
    push_le32(&mut out, 16);
    push_le16(&mut out, 1);
    push_le16(&mut out, ch);
    push_le32(&mut out, sample_rate);
    push_le32(&mut out, byte_rate);
    push_le16(&mut out, block_align);
    push_le16(&mut out, BITS_PER_SAMPLE);
    push_tag(&mut out, 100, 97, 116, 97);
    push_le32(&mut out, data_len);
    proof {
        assert(out@ =~= wav_header_bytes(samples as nat, sample_rate as nat, channels as nat));
    }
    out
}

} // verus!

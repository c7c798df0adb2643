//! The audio signal a tape loads from, and its RIFF/WAVE container.
//!
//! Block bytes become a frequency-shift-keyed stream of 8-bit unsigned
//! PCM samples at 43200 Hz and 1200 baud: a bit is one cycle at 1200 Hz
//! for 0 or two cycles at 2400 Hz for 1, each byte framed by a start
//! cycle and four stop cycles, each block introduced by a silence and a
//! pilot tone.  The cycle waveforms are one period of a sine, quantized
//! to signed 8 bits and offset to mid-scale 0x80: 36 samples at 1200 Hz,
//! 18 at 2400 Hz.

use vstd::prelude::*;

use crate::tape::is_header;
use crate::tape::Tape;

verus! {

/// One 2400 Hz cycle: 18 samples of a quantized sine.
pub open spec fn short_wave() -> Seq<u8> {
    seq![
        0x80u8,
        0xabu8,
        0xd1u8,
        0xedu8,
        0xfdu8,
        0xfdu8,
        0xedu8,
        0xd1u8,
        0xabu8,
        0x80u8,
        0x55u8,
        0x2fu8,
        0x13u8,
        0x03u8,
        0x03u8,
        0x13u8,
        0x2fu8,
        0x55u8,
    ]
}

/// One 1200 Hz cycle: 36 samples of a quantized sine.
pub open spec fn long_wave() -> Seq<u8> {
    seq![
        0x80u8,
        0x96u8,
        0xabu8,
        0xbfu8,
        0xd1u8,
        0xe1u8,
        0xedu8,
        0xf7u8,
        0xfdu8,
        0xffu8,
        0xfdu8,
        0xf7u8,
        0xedu8,
        0xe1u8,
        0xd1u8,
        0xbfu8,
        0xabu8,
        0x96u8,
        0x80u8,
        0x6au8,
        0x55u8,
        0x41u8,
        0x2fu8,
        0x1fu8,
        0x13u8,
        0x09u8,
        0x03u8,
        0x01u8,
        0x03u8,
        0x09u8,
        0x13u8,
        0x1fu8,
        0x2fu8,
        0x41u8,
        0x55u8,
        0x6au8,
    ]
}

/// The cycle a pulse frequency stands for.
pub open spec fn pulse_wave(freq: u32) -> Seq<u8> {
    if freq == 2400 {
        short_wave()
    } else {
        long_wave()
    }
}

/// `n` flat samples at mid-scale: silence.
pub open spec fn silence(n: int) -> Seq<u8> {
    Seq::new(n as nat, |i: int| 0x80u8)
}

/// `n` copies of `w`, one after another.
pub open spec fn rep(w: Seq<u8>, n: int) -> Seq<u8>
    decreases n,
{
    if n <= 0 {
        Seq::empty()
    } else {
        w + rep(w, n - 1)
    }
}

/// Repetition grows one copy at a time, at either end.
pub proof fn lemma_rep_snoc(w: Seq<u8>, n: int)
    requires
        n >= 0,
    ensures
        rep(w, n + 1) == rep(w, n) + w,
    decreases n,
{
    if n == 0 {
        assert(rep(w, 1) =~= rep(w, 0) + w);
    } else {
        lemma_rep_snoc(w, n - 1);
        assert(w + (rep(w, n - 1) + w) =~= (w + rep(w, n - 1)) + w);
    }
}

/// The samples for the data bits of `b` from bit `from` on, least
/// significant bit first: a set bit is two short cycles, a clear bit
/// one long cycle.
pub open spec fn bits_wave(b: u8, from: u8) -> Seq<u8>
    decreases 8 - from,
{
    if from >= 8 {
        Seq::empty()
    } else {
        (if (b >> from) & 1 == 1 {
            short_wave() + short_wave()
        } else {
            long_wave()
        }) + bits_wave(b, (from + 1) as u8)
    }
}

/// The full frame for one byte: a long start cycle, the eight data
/// bits, and four short stop cycles.
pub open spec fn byte_wave(b: u8) -> Seq<u8> {
    long_wave() + bits_wave(b, 0) + short_wave() + short_wave() + short_wave() + short_wave()
}

/// Every byte frame spans 396 samples: each bit contributes 36.
pub proof fn lemma_bits_wave_len(b: u8, from: u8)
    requires
        from <= 8,
    ensures
        bits_wave(b, from).len() == 36 * (8 - from),
    decreases 8 - from,
{
    if from < 8 {
        lemma_bits_wave_len(b, (from + 1) as u8);
    }
}

/// The samples for a run of data bytes.
pub open spec fn data_wave(d: Seq<u8>) -> Seq<u8>
    decreases d.len(),
{
    if d.len() == 0 {
        Seq::empty()
    } else {
        byte_wave(d[0]) + data_wave(d.skip(1))
    }
}

/// Data samples accumulate byte by byte.
pub proof fn lemma_data_wave_snoc(d: Seq<u8>, b: u8)
    ensures
        data_wave(d.push(b)) == data_wave(d) + byte_wave(b),
    decreases d.len(),
{
    if d.len() == 0 {
        assert(d.push(b).skip(1) =~= Seq::<u8>::empty());
        assert(d.push(b)[0] == b);
        assert(byte_wave(b) + data_wave(Seq::<u8>::empty()) =~= data_wave(d) + byte_wave(b));
    } else {
        assert(d.push(b)[0] == d[0]);
        assert(d.push(b).skip(1) =~= d.skip(1).push(b));
        lemma_data_wave_snoc(d.skip(1), b);
        assert(byte_wave(d[0]) + (data_wave(d.skip(1)) + byte_wave(b)) =~= (byte_wave(d[0])
            + data_wave(d.skip(1))) + byte_wave(b));
    }
}

/// The samples for one block: a long silence and long pilot before a
/// header block, a short silence and short pilot before any other, then
/// every payload byte.
pub open spec fn block_wave(b: Seq<u8>) -> Seq<u8> {
    (if is_header(b) {
        silence(86400) + rep(short_wave(), 16000)
    } else {
        silence(43200) + rep(short_wave(), 4000)
    }) + data_wave(b)
}

/// The samples for a whole tape, block after block.
pub open spec fn tape_wave(blocks: Seq<Seq<u8>>) -> Seq<u8>
    decreases blocks.len(),
{
    if blocks.len() == 0 {
        Seq::empty()
    } else {
        block_wave(blocks[0]) + tape_wave(blocks.skip(1))
    }
}

/// A 32-bit value as its four little-endian bytes.
pub open spec fn le32_bytes(v: u32) -> Seq<u8> {
    seq![
        (v & 0xff) as u8,
        ((v >> 8) & 0xff) as u8,
        ((v >> 16) & 0xff) as u8,
        ((v >> 24) & 0xff) as u8,
    ]
}

/// A 16-bit value as its two little-endian bytes.
pub open spec fn le16_bytes(v: u16) -> Seq<u8> {
    seq![(v & 0xff) as u8, ((v >> 8) & 0xff) as u8]
}

/// The 44-byte RIFF/WAVE header for `data_len` bytes of mono 8-bit
/// unsigned PCM at 43200 Hz: the RIFF length is the file length minus
/// the 8 bytes already written, the format chunk declares PCM, one
/// channel, equal sample and byte rates, block alignment 1 and 8 bits
/// per sample, and the data chunk declares the sample count.
pub open spec fn wave_header(data_len: int) -> Seq<u8> {
    seq![0x52u8, 0x49u8, 0x46u8, 0x46u8]  // "RIFF"
     + le32_bytes((data_len + 36) as u32) + seq![0x57u8, 0x41u8, 0x56u8, 0x45u8]  // "WAVE"
     + seq![0x66u8, 0x6du8, 0x74u8, 0x20u8]  // "fmt "
     + le32_bytes(16) + le16_bytes(1) + le16_bytes(1) + le32_bytes(43200) + le32_bytes(43200)
        + le16_bytes(1) + le16_bytes(8) + seq![0x64u8, 0x61u8, 0x74u8, 0x61u8]  // "data"
     + le32_bytes(data_len as u32)
}

/// A complete audio file: the header, then the samples.
pub open spec fn wave_bytes(data: Seq<u8>) -> Seq<u8> {
    wave_header(data.len() as int) + data
}

/// Append the four little-endian bytes of `v`.
fn push_u32_le(out: &mut Vec<u8>, v: u32)
    ensures
        final(out)@ == old(out)@ + le32_bytes(v),
{
    proof {
        assert((v & 0xff) < 256 && ((v >> 8) & 0xff) < 256 && ((v >> 16) & 0xff) < 256 && ((v
            >> 24) & 0xff) < 256) by (bit_vector);
    }
    out.push((v & 0xff) as u8);
    out.push(((v >> 8) & 0xff) as u8);
    out.push(((v >> 16) & 0xff) as u8);
    out.push(((v >> 24) & 0xff) as u8);
    proof {
        assert(final(out)@ =~= old(out)@ + le32_bytes(v));
    }
}

/// Append the two little-endian bytes of `v`.
fn push_u16_le(out: &mut Vec<u8>, v: u16)
    ensures
        final(out)@ == old(out)@ + le16_bytes(v),
{
    proof {
        assert((v & 0xff) < 256 && ((v >> 8) & 0xff) < 256) by (bit_vector);
    }
    out.push((v & 0xff) as u8);
    out.push(((v >> 8) & 0xff) as u8);
    proof {
        assert(final(out)@ =~= old(out)@ + le16_bytes(v));
    }
}

/// Encodes tape data as the cassette audio signal, sample by sample,
/// and wraps the accumulated samples in a RIFF/WAVE container.
pub struct Exporter {
    bauds: u32,
    sample_rate: u32,
    buffer: Vec<u8>,
}

impl Exporter {
    /// The samples encoded so far.
    pub closed spec fn samples(&self) -> Seq<u8> {
        self.buffer@
    }

    /// The fixed encoding parameters: 1200 baud at 43200 Hz.
    pub closed spec fn wf(&self) -> bool {
        self.bauds == 1200 && self.sample_rate == 43200
    }

    /// A fresh exporter at 1200 baud and 43200 samples per second, with
    /// nothing encoded.
    pub fn new() -> (e: Exporter)
        ensures
            e.wf(),
            e.samples() == Seq::<u8>::empty(),
    {
        Exporter { bauds: 1200, sample_rate: 43200, buffer: Vec::new() }
    }

    /// Append one cycle at the given pulse frequency.
    fn write_pulse(&mut self, freq: u32) -> (n: usize)
        requires
            old(self).wf(),
            freq == 1200 || freq == 2400,
        ensures
            final(self).wf(),
            final(self).samples() == old(self).samples() + pulse_wave(freq),
            n == pulse_wave(freq).len(),
    {
        proof {
            assert(self.bauds == 1200 && self.sample_rate == 43200);
        }
        let samples_per_pulse = self.sample_rate / (self.bauds * (freq / 1200));
        proof {
            assert(freq == 1200 || freq == 2400);
            if freq == 2400 {
                assert(freq / 1200 == 2);
                assert(1200u32 * 2 == 2400);
                assert(samples_per_pulse == 43200u32 / 2400);
                assert(samples_per_pulse == 18);
                assert(short_wave().len() == 18);
            } else {
                assert(freq / 1200 == 1);
                assert(1200u32 * 1 == 1200);
                assert(samples_per_pulse == 43200u32 / 1200);
                assert(samples_per_pulse == 36);
                assert(long_wave().len() == 36);
            }
        }
        if freq == 2400 {
            let ghost before = self.buffer@;
            self.buffer.push(0x80);
            self.buffer.push(0xab);
            self.buffer.push(0xd1);
            self.buffer.push(0xed);
            self.buffer.push(0xfd);
            self.buffer.push(0xfd);
            self.buffer.push(0xed);
            self.buffer.push(0xd1);
            self.buffer.push(0xab);
            self.buffer.push(0x80);
            self.buffer.push(0x55);
            self.buffer.push(0x2f);
            self.buffer.push(0x13);
            self.buffer.push(0x03);
            self.buffer.push(0x03);
            self.buffer.push(0x13);
            self.buffer.push(0x2f);
            self.buffer.push(0x55);
            proof {
                assert(self.buffer@ =~= before + short_wave());
            }
            samples_per_pulse as usize
        } else {
            let ghost before = self.buffer@;
            self.buffer.push(0x80);
            self.buffer.push(0x96);
            self.buffer.push(0xab);
            self.buffer.push(0xbf);
            self.buffer.push(0xd1);
            self.buffer.push(0xe1);
            self.buffer.push(0xed);
            self.buffer.push(0xf7);
            self.buffer.push(0xfd);
            self.buffer.push(0xff);
            self.buffer.push(0xfd);
            self.buffer.push(0xf7);
            self.buffer.push(0xed);
            self.buffer.push(0xe1);
            self.buffer.push(0xd1);
            self.buffer.push(0xbf);
            self.buffer.push(0xab);
            self.buffer.push(0x96);
            self.buffer.push(0x80);
            self.buffer.push(0x6a);
            self.buffer.push(0x55);
            self.buffer.push(0x41);
            self.buffer.push(0x2f);
            self.buffer.push(0x1f);
            self.buffer.push(0x13);
            self.buffer.push(0x09);
            self.buffer.push(0x03);
            self.buffer.push(0x01);
            self.buffer.push(0x03);
            self.buffer.push(0x09);
            self.buffer.push(0x13);
            self.buffer.push(0x1f);
            self.buffer.push(0x2f);
            self.buffer.push(0x41);
            self.buffer.push(0x55);
            self.buffer.push(0x6a);
            proof {
                assert(self.buffer@ =~= before + long_wave());
            }
            samples_per_pulse as usize
        }
    }

    /// Append `pulses` flat samples of silence.
    pub fn write_silence(&mut self, pulses: u32) -> (n: usize)
        requires
            old(self).wf(),
        ensures
            final(self).wf(),
            final(self).samples() == old(self).samples() + silence(pulses as int),
            n == pulses,
    {
        let mut k: u32 = 0;
        while k < pulses
            invariant
                self.wf(),
                k <= pulses,
                self.samples() == old(self).samples() + silence(k as int),
            decreases pulses - k,
        {
            self.buffer.push(0x80);
            proof {
                assert(self.samples() =~= old(self).samples() + silence(k + 1));
            }
            k = k + 1;
        }
        pulses as usize
    }

    /// Append one second of silence.
    pub fn write_short_silence(&mut self) -> (n: usize)
        requires
            old(self).wf(),
        ensures
            final(self).wf(),
            final(self).samples() == old(self).samples() + silence(43200),
            n == 43200,
    {
        let pulses = self.sample_rate;
        self.write_silence(pulses)
    }

    /// Append two seconds of silence.
    pub fn write_long_silence(&mut self) -> (n: usize)
        requires
            old(self).wf(),
        ensures
            final(self).wf(),
            final(self).samples() == old(self).samples() + silence(86400),
            n == 86400,
    {
        let pulses = self.sample_rate * 2;
        self.write_silence(pulses)
    }

    /// Append a pilot tone of `pulses` short cycles.
    pub fn write_header(&mut self, pulses: u32) -> (n: usize)
        requires
            old(self).wf(),
            pulses <= 3_579_139,
        ensures
            final(self).wf(),
            final(self).samples() == old(self).samples() + rep(short_wave(), pulses as int),
            n == 18 * pulses,
    {
        let to = pulses * self.bauds / 1200;
        let mut nbytes: usize = 0;
        let mut k: u32 = 0;
        while k < to
            invariant
                self.wf(),
                to == pulses,
                pulses <= 3_579_139,
                k <= to,
                nbytes == 18 * k,
                self.samples() == old(self).samples() + rep(short_wave(), k as int),
            decreases to - k,
        {
            nbytes = nbytes + self.write_pulse(2400);
            proof {
                lemma_rep_snoc(short_wave(), k as int);
            }
            k = k + 1;
        }
        nbytes
    }

    /// Append the short pilot tone that introduces a data block.
    pub fn write_short_header(&mut self) -> (n: usize)
        requires
            old(self).wf(),
        ensures
            final(self).wf(),
            final(self).samples() == old(self).samples() + rep(short_wave(), 4000),
            n == 72000,
    {
        self.write_header(4000)
    }

    /// Append the long pilot tone that introduces a header block.
    pub fn write_long_header(&mut self) -> (n: usize)
        requires
            old(self).wf(),
        ensures
            final(self).wf(),
            final(self).samples() == old(self).samples() + rep(short_wave(), 16000),
            n == 288000,
    {
        self.write_header(16000)
    }

    /// Append one byte frame: start cycle, eight data bits least
    /// significant first, four stop cycles.
    fn write_byte(&mut self, byte: u8) -> (n: usize)
        requires
            old(self).wf(),
        ensures
            final(self).wf(),
            final(self).samples() == old(self).samples() + byte_wave(byte),
            n == 396,
            n == byte_wave(byte).len(),
    {
        proof {
            lemma_bits_wave_len(byte, 0);
        }
        let mut nbytes: usize = 0;
        nbytes = nbytes + self.write_pulse(1200);
        let mut bits = byte;
        let mut i: u8 = 0;
        proof {
            assert(byte >> 0u8 == byte) by (bit_vector);
        }
        while i < 8
            invariant
                self.wf(),
                i <= 8,
                bits == byte >> i,
                nbytes == 36 + 36 * i,
                self.samples() + bits_wave(byte, i) == old(self).samples() + long_wave()
                    + bits_wave(byte, 0),
            decreases 8 - i,
        {
            let ghost pre = self.samples();
            if bits & 0x01 > 0 {
                proof {
                    assert((byte >> i) & 1 == 1) by (bit_vector)
                        requires
                            bits == byte >> i && bits & 0x01 > 0,
                    ;
                }
                nbytes = nbytes + self.write_pulse(2400);
                nbytes = nbytes + self.write_pulse(2400);
                proof {
                    assert(self.samples() =~= pre + (short_wave() + short_wave()));
                }
            } else {
                proof {
                    assert((byte >> i) & 1 != 1) by (bit_vector)
                        requires
                            bits == byte >> i && !(bits & 0x01 > 0),
                    ;
                }
                nbytes = nbytes + self.write_pulse(1200);
            }
            proof {
                let step = if (byte >> i) & 1 == 1 {
                    short_wave() + short_wave()
                } else {
                    long_wave()
                };
                assert(bits_wave(byte, i) == step + bits_wave(byte, (i + 1) as u8));
                assert(self.samples() == pre + step);
                assert(self.samples() + bits_wave(byte, (i + 1) as u8) =~= pre + bits_wave(
                    byte,
                    i,
                ));
                assert((byte >> i) >> 1 == byte >> (i + 1)) by (bit_vector)
                    requires
                        i < 8,
                ;
            }
            bits = bits >> 1;
            i = i + 1;
        }
        proof {
            assert(bits_wave(byte, 8) == Seq::<u8>::empty());
            assert(self.samples() =~= old(self).samples() + long_wave() + bits_wave(byte, 0));
        }
        let ghost mid = self.samples();
        nbytes = nbytes + self.write_pulse(2400);
        nbytes = nbytes + self.write_pulse(2400);
        nbytes = nbytes + self.write_pulse(2400);
        nbytes = nbytes + self.write_pulse(2400);
        proof {
            assert(self.samples() =~= mid + short_wave() + short_wave() + short_wave()
                + short_wave());
            assert(self.samples() =~= old(self).samples() + byte_wave(byte));
        }
        nbytes
    }

    /// Append the frames for a run of data bytes.
    pub fn write_data(&mut self, data: &[u8]) -> (n: usize)
        requires
            old(self).wf(),
            data@.len() * 396 <= usize::MAX,
        ensures
            final(self).wf(),
            final(self).samples() == old(self).samples() + data_wave(data@),
            n == data@.len() * 396,
    {
        let mut nbytes: usize = 0;
        let len = data.len();
        let mut i: usize = 0;
        proof {
            assert(data_wave(data@.take(0)) == Seq::<u8>::empty());
            assert(data@.take(0) =~= Seq::<u8>::empty());
            assert(self.samples() =~= old(self).samples() + data_wave(data@.take(0)));
        }
        while i < len
            invariant
                self.wf(),
                len == data@.len(),
                data@.len() * 396 <= usize::MAX,
                i <= len,
                nbytes == i * 396,
                self.samples() == old(self).samples() + data_wave(data@.take(i as int)),
            decreases len - i,
        {
            proof {
                assert((i + 1) * 396 <= len * 396) by (nonlinear_arith)
                    requires
                        i + 1 <= len,
                ;
                assert(i * 396 + 396 == (i + 1) * 396) by (nonlinear_arith);
            }
            nbytes = nbytes + self.write_byte(data[i]);
            proof {
                lemma_data_wave_snoc(data@.take(i as int), data@[i as int]);
                assert(data@.take(i + 1) =~= data@.take(i as int).push(data@[i as int]));
            }
            i = i + 1;
        }
        proof {
            assert(data@.take(len as int) =~= data@);
        }
        nbytes
    }

    /// Encode every block of a tape: each header block after a long
    /// silence and long pilot, each other block after a short silence
    /// and short pilot, then the block's payload bytes.
    pub fn write_tape(&mut self, tape: &Tape)
        requires
            old(self).wf(),
            forall|k: int|
                0 <= k < tape@.len() ==> (#[trigger] tape@[k].len()) * 396 <= usize::MAX,
        ensures
            final(self).wf(),
            final(self).samples() == old(self).samples() + tape_wave(tape@),
    {
        let blocks = tape.blocks();
        let n = blocks.len();
        let ghost bv = tape@;
        let mut i: usize = 0;
        proof {
            assert(bv.skip(0) =~= bv);
        }
        while i < n
            invariant
                self.wf(),
                n == blocks@.len(),
                bv == blocks@.map_values(|b: crate::tape::Block| b@),
                forall|k: int| 0 <= k < bv.len() ==> (#[trigger] bv[k].len()) * 396 <= usize::MAX,
                i <= n,
                self.samples() + tape_wave(bv.skip(i as int)) == old(self).samples() + tape_wave(
                    bv,
                ),
            decreases n - i,
        {
            proof {
                assert(bv[i as int] == blocks@[i as int]@);
                assert(bv.skip(i as int)[0] == bv[i as int]);
                assert(bv.skip(i as int).skip(1) =~= bv.skip(i + 1));
            }
            let ghost pre = self.samples();
            if blocks[i].is_bin_header() {
                self.write_long_silence();
                self.write_long_header();
            } else {
                self.write_short_silence();
                self.write_short_header();
            }
            self.write_data(blocks[i].data().as_slice());
            proof {
                assert(self.samples() =~= pre + block_wave(bv[i as int]));
                assert(tape_wave(bv.skip(i as int)) == block_wave(bv[i as int]) + tape_wave(
                    bv.skip(i + 1),
                ));
                assert(self.samples() + tape_wave(bv.skip(i + 1)) =~= pre + tape_wave(
                    bv.skip(i as int),
                ));
            }
            i = i + 1;
        }
        proof {
            assert(bv.skip(n as int) =~= Seq::<Seq<u8>>::empty());
            assert(final(self).samples() =~= old(self).samples() + tape_wave(bv));
        }
    }

    /// The number of samples encoded so far.
    pub fn sample_count(&self) -> (n: usize)
        ensures
            n == self.samples().len(),
    {
        self.buffer.len()
    }

    /// Wrap the encoded samples in a RIFF/WAVE container.
    pub fn export(&self) -> (out: Vec<u8>)
        requires
            self.samples().len() + 36 <= u32::MAX,
        ensures
            out@ == wave_bytes(self.samples()),
    {
        let data_len = self.buffer.len() as u32;
        let mut out: Vec<u8> = Vec::new();
        out.push(0x52);
        out.push(0x49);
        out.push(0x46);
        out.push(0x46);
        push_u32_le(&mut out, data_len + 36);
        out.push(0x57);
        out.push(0x41);
        out.push(0x56);
        out.push(0x45);
        out.push(0x66);
        out.push(0x6d);
        out.push(0x74);
        out.push(0x20);
        push_u32_le(&mut out, 16);
        push_u16_le(&mut out, 1);
        push_u16_le(&mut out, 1);
        push_u32_le(&mut out, 43200);
        push_u32_le(&mut out, 43200);
        push_u16_le(&mut out, 1);
        push_u16_le(&mut out, 8);
        out.push(0x64);
        out.push(0x61);
        out.push(0x74);
        out.push(0x61);
        push_u32_le(&mut out, data_len);
        proof {
            assert(out@ =~= wave_header(self.samples().len() as int));
        }
        out.extend_from_slice(self.buffer.as_slice());
        proof {
            assert(out@ =~= wave_bytes(self.samples()));
        }
        out
    }
}

} // verus!

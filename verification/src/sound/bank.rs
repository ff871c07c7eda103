//! The rendered bank, in a form a player takes: one file of samples per sound.

use vstd::prelude::*;

use crate::number::Number;
use crate::sound::sample::{level, level_of};
use crate::sound::synth::SAMPLE_RATE;

verus! {

/// A 32-bit number, least significant byte first.
pub open spec fn le32(x: u32) -> Seq<u8> {
    seq![
        (x % 256) as u8,
        (x / 256 % 256) as u8,
        (x / 65536 % 256) as u8,
        (x / 16777216) as u8,
    ]
}

/// A 16-bit number, least significant byte first.
pub open spec fn le16(x: u16) -> Seq<u8> {
    seq![(x % 256) as u8, (x / 256) as u8]
}

/// A signed sample as the 16 bits that stand for it.
pub open spec fn sample_bits(s: i16) -> u16 {
    if s < 0 {
        (s + 65536) as u16
    } else {
        s as u16
    }
}

/// The samples' bytes, two to a sample.
pub open spec fn sample_data(samples: Seq<i16>) -> Seq<u8>
    decreases samples.len(),
{
    if samples.len() == 0 {
        Seq::empty()
    } else {
        sample_data(samples.drop_last()) + le16(sample_bits(samples.last()))
    }
}

/// The 44 bytes in front of the samples: what kind of file it is, how long it is, and how its
/// samples are to be read.
pub open spec fn wav_header(data_len: u32) -> Seq<u8> {
    // "RIFF", the length of what follows, "WAVEfmt ".
    seq![82u8, 73, 70, 70] + le32((36 + data_len) as u32) + seq![
        87u8,
        65,
        86,
        69,
        102,
        109,
        116,
        32,
    ]
    // The format: 16 bytes of it, uncompressed, mono.
    + le32(16) + le16(1) + le16(1)
    // Samples and bytes to a second, bytes to a sample, bits to a sample.
    + le32(SAMPLE_RATE) + le32((SAMPLE_RATE * 2) as u32) + le16(2) + le16(16)
    // "data", and how much of it.
    + seq![100u8, 97, 116, 97] + le32(data_len)
}

fn push32(out: &mut Vec<u8>, x: u32)
    ensures
        final(out)@ == old(out)@ + le32(x),
{
    out.push((x % 256) as u8);
    out.push((x / 256 % 256) as u8);
    out.push((x / 65536 % 256) as u8);
    out.push((x / 16777216) as u8);
    assert(out@ =~= old(out)@ + le32(x));
}

fn push16(out: &mut Vec<u8>, x: u16)
    ensures
        final(out)@ == old(out)@ + le16(x),
{
    out.push((x % 256) as u8);
    out.push((x / 256) as u8);
    assert(out@ =~= old(out)@ + le16(x));
}

fn push4(out: &mut Vec<u8>, a: u8, b: u8, c: u8, d: u8)
    ensures
        final(out)@ == old(out)@ + seq![a, b, c, d],
{
    out.push(a);
    out.push(b);
    out.push(c);
    out.push(d);
    assert(out@ =~= old(out)@ + seq![a, b, c, d]);
}

fn push_header(out: &mut Vec<u8>, data_len: u32)
    requires
        36 + data_len <= u32::MAX,
    ensures
        final(out)@ == old(out)@ + wav_header(data_len),
{
    push4(out, 82, 73, 70, 70);
    push32(out, 36 + data_len);
    push4(out, 87, 65, 86, 69);
    push4(out, 102, 109, 116, 32);
    push32(out, 16);
    push16(out, 1);
    push16(out, 1);
    push32(out, SAMPLE_RATE);
    push32(out, SAMPLE_RATE * 2);
    push16(out, 2);
    push16(out, 16);
    push4(out, 100, 97, 116, 97);
    push32(out, data_len);
    assert(out@ =~= old(out)@ + wav_header(data_len));
}

/// The levels of some samples.
pub open spec fn levels(samples: Seq<Number>) -> Seq<i16> {
    Seq::new(samples.len(), |i: int| level_of(samples[i]) as i16)
}

/// Wrap mono samples as a 16-bit PCM file.
pub fn wav(samples: &[Number]) -> (out: Vec<u8>)
    requires
        36 + 2 * samples@.len() <= u32::MAX,
    ensures
        out@ == wav_header((2 * samples@.len()) as u32) + sample_data(levels(samples@)),
{
    let data_len: u32 = samples.len() as u32 * 2;
    let mut out: Vec<u8> = Vec::new();
    push_header(&mut out, data_len);
    let ghost head = out@;
    let ghost all = levels(samples@);
    assert(head =~= wav_header(data_len));
    let mut i: usize = 0;
    assert(head =~= head + sample_data(all.take(0)));
    while i < samples.len()
        invariant
            i <= samples@.len(),
            all == levels(samples@),
            out@ == head + sample_data(all.take(i as int)),
        decreases samples@.len() - i,
    {
        let s: i16 = level(samples[i]);
        let bits: u16 = if s < 0 {
            (s as i32 + 65536) as u16
        } else {
            s as u16
        };
        push16(&mut out, bits);
        proof {
            let now = all.take(i as int + 1);
            assert(now.drop_last() =~= all.take(i as int));
            assert(now.last() == s);
            assert(out@ =~= head + sample_data(now));
        }
        i = i + 1;
    }
    assert(all.take(i as int) =~= all);
    out
}

proof fn lemma_sample_data(samples: Seq<i16>)
    ensures
        sample_data(samples).len() == 2 * samples.len(),
        forall|i: int|
            0 <= i < samples.len() ==> sample_data(samples)[2 * i] + 256 * sample_data(samples)[2 * i
                + 1] == sample_bits(#[trigger] samples[i]),
    decreases samples.len(),
{
    if samples.len() > 0 {
        let less = samples.drop_last();
        lemma_sample_data(less);
        assert forall|i: int| 0 <= i < samples.len() implies sample_data(samples)[2 * i] + 256
            * sample_data(samples)[2 * i + 1] == sample_bits(#[trigger] samples[i]) by {
            if i < less.len() {
                assert(less[i] == samples[i]);
            }
        }
    }
}

/// A little-endian number at a place in a file.
pub open spec fn read32(bytes: Seq<u8>, at: int) -> int {
    bytes[at] + 256 * bytes[at + 1] + 65536 * bytes[at + 2] + 16777216 * bytes[at + 3]
}

proof fn lemma_read32(before: Seq<u8>, x: u32, after: Seq<u8>)
    ensures
        read32(before + le32(x) + after, before.len() as int) == x,
{
    let bytes = before + le32(x) + after;
    let at = before.len() as int;
    assert(bytes[at] == le32(x)[0]);
    assert(bytes[at + 1] == le32(x)[1]);
    assert(bytes[at + 2] == le32(x)[2]);
    assert(bytes[at + 3] == le32(x)[3]);
}

proof fn lemma_header(n: u32)
    requires
        36 + n <= u32::MAX,
    ensures
        wav_header(n).len() == 44,
        read32(wav_header(n), 4) == 36 + n,
        read32(wav_header(n), 40) == n,
        read32(wav_header(n), 24) == SAMPLE_RATE,
        read32(wav_header(n), 28) == 2 * SAMPLE_RATE,
{
    let riff = seq![82u8, 73, 70, 70];
    let size = le32((36 + n) as u32);
    let rest = wav_header(n).skip(8);
    let front = wav_header(n).take(40);
    lemma_read32(riff, (36 + n) as u32, rest);
    lemma_read32(front, n, Seq::empty());
    assert(wav_header(n) =~= riff + size + rest);
    assert(wav_header(n) =~= front + le32(n) + Seq::<u8>::empty());
    let (before, after) = (wav_header(n).take(24), wav_header(n).skip(28));
    lemma_read32(before, SAMPLE_RATE, after);
    assert(wav_header(n) =~= before + le32(SAMPLE_RATE) + after);
    let (before, after) = (wav_header(n).take(28), wav_header(n).skip(32));
    lemma_read32(before, (SAMPLE_RATE * 2) as u32, after);
    assert(wav_header(n) =~= before + le32((SAMPLE_RATE * 2) as u32) + after);
}

/// The header says what the data is: the file is 44 bytes and two to a sample, the first length
/// is the file without its eight-byte prefix, the second is the data, there are as many bytes to a
/// second as two to each sample of it, and each sample reads back as itself, a negative one as what
/// it is short of all that sixteen bits can hold.
pub proof fn law_header_says_what_the_data_is(samples: Seq<i16>)
    requires
        36 + 2 * samples.len() <= u32::MAX,
    ensures
        ({
            let file = wav_header((2 * samples.len()) as u32) + sample_data(samples);
            &&& file.len() == 44 + 2 * samples.len()
            &&& read32(file, 4) == file.len() - 8
            &&& read32(file, 40) == 2 * samples.len()
            &&& read32(file, 24) == SAMPLE_RATE
            &&& read32(file, 28) == 2 * read32(file, 24)
            &&& forall|i: int|
                0 <= i < samples.len() ==> file[44 + 2 * i] + 256 * file[45 + 2 * i] == (if (
                #[trigger] samples[i]) < 0 {
                    samples[i] + 65536
                } else {
                    samples[i] as int
                })
            &&& forall|i: int|
                0 <= i < samples.len() ==> file[44 + 2 * i] + 256 * file[45 + 2 * i] == sample_bits(
                    #[trigger] samples[i],
                )
        }),
{
    let n = (2 * samples.len()) as u32;
    let head = wav_header(n);
    let data = sample_data(samples);
    let file = head + data;
    lemma_sample_data(samples);
    lemma_header(n);
    assert forall|i: int| 0 <= i < 44 implies file[i] == head[i] by {}
    assert forall|i: int| 0 <= i < samples.len() implies file[44 + 2 * i] + 256 * file[45 + 2 * i]
        == sample_bits(#[trigger] samples[i]) by {
        assert(file[44 + 2 * i] == data[2 * i]);
        assert(file[45 + 2 * i] == data[2 * i + 1]);
    }
}

/// Every sound, ready to play, indexed by code.
#[derive(Clone, Debug)]
pub struct SoundBank<H> {
    handles: Vec<H>,
}

impl<H> SoundBank<H> {
    /// The sounds, in code order.
    pub closed spec fn sounds(&self) -> Seq<H> {
        self.handles@
    }

    /// A bank of these sounds, in code order.
    pub fn new(handles: Vec<H>) -> (bank: SoundBank<H>)
        ensures
            bank.sounds() == handles@,
    {
        SoundBank { handles }
    }

    /// The sound for a code, or `None` for a code this bank lacks.
    pub fn get(&self, code: u16) -> (handle: Option<&H>)
        ensures
            match handle {
                Some(h) => code < self.sounds().len() && *h == self.sounds()[code as int],
                None => code >= self.sounds().len(),
            },
    {
        if (code as usize) < self.handles.len() {
            Some(&self.handles[code as usize])
        } else {
            None
        }
    }

    /// How many sounds are loaded.
    pub fn len(&self) -> (n: usize)
        ensures
            n == self.sounds().len(),
    {
        self.handles.len()
    }

    /// Whether the bank is empty.
    pub fn is_empty(&self) -> (empty: bool)
        ensures
            empty == (self.sounds().len() == 0),
    {
        self.handles.len() == 0
    }
}

} // verus!

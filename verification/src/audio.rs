//! Audio byte assembly for the local text-to-speech engine: the
//! phoneme-to-sound table, the conversion of text to sample bytes, and
//! the WAV header, all with exact byte contracts. Writing the file is
//! the caller's concern.

use vstd::prelude::*;

use crate::kvmap::lemma_views_insert;
use crate::kvmap::views_of;
use crate::kvmap::StrMap;
use crate::strutil::is_blank;
use crate::strutil::is_blank_char;

verus! {

/// The four little-endian bytes of `n`.
pub open spec fn u32_le_bytes(n: u32) -> Seq<u8> {
    seq![
        (n % 0x100) as u8,
        ((n / 0x100) % 0x100) as u8,
        ((n / 0x10000) % 0x100) as u8,
        ((n / 0x1000000) % 0x100) as u8,
    ]
}

/// The 44-byte PCM WAV header for a mono, 44100 Hz, 16-bit stream of
/// `data_len` sample bytes: the RIFF chunk, the format chunk, and the
/// data chunk's opening.
pub open spec fn wav_header_of(data_len: u32) -> Seq<u8>
    recommends
        data_len <= u32::MAX - 36,
{
    seq!['R' as u8, 'I' as u8, 'F' as u8, 'F' as u8] + u32_le_bytes((36 + data_len) as u32) + seq![
        'W' as u8,
        'A' as u8,
        'V' as u8,
        'E' as u8,
        'f' as u8,
        'm' as u8,
        't' as u8,
        ' ' as u8,
    ] + u32_le_bytes(16) + seq![1u8, 0u8, 1u8, 0u8] + u32_le_bytes(44100) + u32_le_bytes(88200)
        + seq![2u8, 0u8, 16u8, 0u8] + seq!['d' as u8, 'a' as u8, 't' as u8, 'a' as u8]
        + u32_le_bytes(data_len)
}

/// Builds the WAV header for `data_len` bytes of PCM samples.
pub fn write_wav_header(data_len: u32) -> (r: Vec<u8>)
    requires
        data_len <= u32::MAX - 36,
    ensures
        r@ == wav_header_of(data_len),
        r@.len() == 44,
{
    let mut out: Vec<u8> = Vec::new();
    out.push('R' as u8);
    out.push('I' as u8);
    out.push('F' as u8);
    out.push('F' as u8);
    let chunk_size = 36 + data_len;
    out.push((chunk_size % 0x100) as u8);
    out.push(((chunk_size / 0x100) % 0x100) as u8);
    out.push(((chunk_size / 0x10000) % 0x100) as u8);
    out.push(((chunk_size / 0x1000000) % 0x100) as u8);
    out.push('W' as u8);
    out.push('A' as u8);
    out.push('V' as u8);
    out.push('E' as u8);
    out.push('f' as u8);
    out.push('m' as u8);
    out.push('t' as u8);
    out.push(' ' as u8);
    out.push(16);
    out.push(0);
    out.push(0);
    out.push(0);
    out.push(1);
    out.push(0);
    out.push(1);
    out.push(0);
    let sample_rate: u32 = 44100;
    out.push((sample_rate % 0x100) as u8);
    out.push(((sample_rate / 0x100) % 0x100) as u8);
    out.push(((sample_rate / 0x10000) % 0x100) as u8);
    out.push(((sample_rate / 0x1000000) % 0x100) as u8);
    let byte_rate: u32 = 88200;
    out.push((byte_rate % 0x100) as u8);
    out.push(((byte_rate / 0x100) % 0x100) as u8);
    out.push(((byte_rate / 0x10000) % 0x100) as u8);
    out.push(((byte_rate / 0x1000000) % 0x100) as u8);
    out.push(2);
    out.push(0);
    out.push(16);
    out.push(0);
    out.push('d' as u8);
    out.push('a' as u8);
    out.push('t' as u8);
    out.push('a' as u8);
    out.push((data_len % 0x100) as u8);
    out.push(((data_len / 0x100) % 0x100) as u8);
    out.push(((data_len / 0x10000) % 0x100) as u8);
    out.push(((data_len / 0x1000000) % 0x100) as u8);
    proof {
        let h = wav_header_of(data_len);
        assert(h.len() == 44);
        assert(h[0] == out@[0]);
        assert(h[1] == out@[1]);
        assert(h[2] == out@[2]);
        assert(h[3] == out@[3]);
        assert(h[4] == out@[4]);
        assert(h[5] == out@[5]);
        assert(h[6] == out@[6]);
        assert(h[7] == out@[7]);
        assert(h[8] == out@[8]);
        assert(h[9] == out@[9]);
        assert(h[10] == out@[10]);
        assert(h[11] == out@[11]);
        assert(h[12] == out@[12]);
        assert(h[13] == out@[13]);
        assert(h[14] == out@[14]);
        assert(h[15] == out@[15]);
        assert(h[16] == out@[16]);
        assert(h[17] == out@[17]);
        assert(h[18] == out@[18]);
        assert(h[19] == out@[19]);
        assert(h[20] == out@[20]);
        assert(h[21] == out@[21]);
        assert(h[22] == out@[22]);
        assert(h[23] == out@[23]);
        assert(h[24] == out@[24]);
        assert(h[25] == out@[25]);
        assert(h[26] == out@[26]);
        assert(h[27] == out@[27]);
        assert(h[28] == out@[28]);
        assert(h[29] == out@[29]);
        assert(h[30] == out@[30]);
        assert(h[31] == out@[31]);
        assert(h[32] == out@[32]);
        assert(h[33] == out@[33]);
        assert(h[34] == out@[34]);
        assert(h[35] == out@[35]);
        assert(h[36] == out@[36]);
        assert(h[37] == out@[37]);
        assert(h[38] == out@[38]);
        assert(h[39] == out@[39]);
        assert(h[40] == out@[40]);
        assert(h[41] == out@[41]);
        assert(h[42] == out@[42]);
        assert(h[43] == out@[43]);
        assert(out@ =~= h);
    }
    out
}

/// The phoneme-to-sound table: each known word maps to its PCM bytes.
/// The stock table carries the two seed words with silent placeholders,
/// to be extended with recorded audio.
pub fn phoneme_library() -> (r: StrMap<Vec<u8>>)
    ensures
        views_of(r@) == Map::<Seq<char>, Seq<u8>>::empty().insert("hello"@, Seq::empty()).insert(
            "world"@,
            Seq::empty(),
        ),
{
    let mut phonemes: StrMap<Vec<u8>> = StrMap::new();
    proof {
        assert(views_of(phonemes@) =~= Map::<Seq<char>, Seq<u8>>::empty());
    }
    let ghost m0 = phonemes@;
    phonemes.insert("hello", Vec::new());
    proof {
        lemma_views_insert(m0, "hello"@, phonemes@["hello"@]);
    }
    let ghost m1 = phonemes@;
    phonemes.insert("world", Vec::new());
    proof {
        lemma_views_insert(m1, "world"@, phonemes@["world"@]);
    }
    phonemes
}

/// How far the word at the front of `s` runs: zero at a blank or at
/// the end.
pub open spec fn word_len(s: Seq<char>) -> nat
    decreases s.len(),
{
    if s.len() == 0 || is_blank(s[0]) {
        0
    } else {
        1 + word_len(s.skip(1))
    }
}

/// A word never runs past the end of the text.
pub proof fn lemma_word_len_bound(s: Seq<char>)
    ensures
        word_len(s) <= s.len(),
    decreases s.len(),
{
    if s.len() > 0 && !is_blank(s[0]) {
        lemma_word_len_bound(s.skip(1));
    }
}

/// A blank-free window that ends at a blank or at the end is exactly
/// the word at its start.
proof fn lemma_word_len_window(s: Seq<char>, i: int, e: int)
    requires
        0 <= i <= e <= s.len(),
        forall|j: int| i <= j < e ==> !is_blank(#[trigger] s[j]),
        e < s.len() ==> is_blank(s[e]),
    ensures
        word_len(s.skip(i)) == e - i,
    decreases e - i,
{
    let rest = s.skip(i);
    if i == e {
        if rest.len() > 0 {
            assert(rest[0] == s[e]);
        }
    } else {
        assert(!is_blank(rest[0]));
        assert(rest.skip(1) =~= s.skip(i + 1));
        lemma_word_len_window(s, i + 1, e);
    }
}

/// The sound of `s` under the phoneme table `m`: each
/// whitespace-separated word contributes its mapped sample bytes, and
/// an unmapped word contributes silence.
pub open spec fn audio_of(s: Seq<char>, m: Map<Seq<char>, Seq<u8>>) -> Seq<u8>
    decreases s.len(),
{
    if s.len() == 0 {
        Seq::empty()
    } else if is_blank(s[0]) {
        audio_of(s.skip(1), m)
    } else {
        let e = if 1 + word_len(s.skip(1)) <= s.len() {
            1 + word_len(s.skip(1)) as int
        } else {
            s.len() as int
        };
        let w = s.subrange(0, e);
        (if m.contains_key(w) {
            m[w]
        } else {
            Seq::<u8>::empty()
        }) + audio_of(s.skip(e), m)
    }
}

/// Converts `text` to sample bytes by looking each whitespace-separated
/// word up in the phoneme table and concatenating the hits.
pub fn text_to_audio(text: &str, library: &StrMap<Vec<u8>>) -> (r: Vec<u8>)
    ensures
        r@ == audio_of(text@, views_of(library@)),
{
    let ghost m = views_of(library@);
    let n = text.unicode_len();
    let mut out: Vec<u8> = Vec::new();
    let mut i: usize = 0;
    proof {
        assert(text@.skip(0) =~= text@);
        assert(out@ + audio_of(text@.skip(0), m) =~= audio_of(text@, m));
    }
    while i < n
        invariant
            i <= n == text@.len(),
            m == views_of(library@),
            audio_of(text@, m) == out@ + audio_of(text@.skip(i as int), m),
        decreases n - i,
    {
        if is_blank_char(text.get_char(i)) {
            proof {
                let rest = text@.skip(i as int);
                assert(rest[0] == text@[i as int]);
                assert(rest.skip(1) =~= text@.skip(i + 1));
                assert(audio_of(rest, m) == audio_of(text@.skip(i + 1), m));
            }
            i += 1;
        } else {
            let mut e: usize = i + 1;
            while e < n && !is_blank_char(text.get_char(e))
                invariant
                    i < e <= n == text@.len(),
                    forall|j: int| i <= j < e ==> !is_blank(#[trigger] text@[j]),
                decreases n - e,
            {
                e += 1;
            }
            let word = text.substring_char(i, e);
            proof {
                let rest = text@.skip(i as int);
                lemma_word_len_window(text@, i as int, e as int);
                assert(!is_blank(rest[0]));
                assert(rest.skip(1) =~= text@.skip(i + 1));
                lemma_word_len_window(text@, i + 1, e as int);
                lemma_word_len_bound(rest.skip(1));
                let ei = e - i;
                assert(rest.subrange(0, ei as int) =~= text@.subrange(i as int, e as int));
                assert(word@ == rest.subrange(0, ei as int));
                assert(rest.skip(ei as int) =~= text@.skip(e as int));
                assert(audio_of(rest, m) == (if m.contains_key(word@) {
                    m[word@]
                } else {
                    Seq::<u8>::empty()
                }) + audio_of(text@.skip(e as int), m));
            }
            match library.get(word) {
                Some(sound) => {
                    let len = sound.len();
                    let ghost pre = out@;
                    let mut k: usize = 0;
                    while k < len
                        invariant
                            k <= len == sound@.len(),
                            out@ == pre + sound@.subrange(0, k as int),
                        decreases len - k,
                    {
                        out.push(sound[k]);
                        proof {
                            assert(out@ =~= pre + sound@.subrange(0, k + 1));
                        }
                        k += 1;
                    }
                    proof {
                        assert(sound@.subrange(0, len as int) =~= sound@);
                    }
                },
                None => {},
            }
            i = e;
        }
    }
    proof {
        assert(text@.skip(n as int) =~= Seq::<char>::empty());
        assert(audio_of(Seq::<char>::empty(), m) == Seq::<u8>::empty());
        assert(out@ =~= out@ + Seq::<u8>::empty());
    }
    out
}

} // verus!

//! Binary framing for the token container: a fixed 256-slot little-endian
//! 32-bit header (magic, version, token count, derived metadata) followed by
//! a body of little-endian 16-bit token IDs.

use vstd::prelude::*;

verus! {

pub const HEADER_MAGIC: u32 = 20240520;

pub const HEADER_VERSION: u32 = 1;

pub const HEADER_WORDS: usize = 256;

/// The 32-bit value little-endian bytes spell.
pub open spec fn word_of_bytes(b0: u8, b1: u8, b2: u8, b3: u8) -> u32 {
    (b0 + b1 * 0x100 + b2 * 0x10000 + b3 * 0x1000000) as u32
}

/// Byte `t` (little-endian) of a 32-bit word.
pub open spec fn word_byte(w: u32, t: int) -> u8 {
    if t == 0 {
        (w % 0x100) as u8
    } else if t == 1 {
        ((w / 0x100) % 0x100) as u8
    } else if t == 2 {
        (((w / 0x100) / 0x100) % 0x100) as u8
    } else {
        (((w / 0x100) / 0x100) / 0x100) as u8
    }
}

/// The header words a byte stream holds, one per full 4-byte group.
pub open spec fn words_of_le_bytes(bytes: Seq<u8>) -> Seq<u32> {
    Seq::new(
        (bytes.len() / 4) as nat,
        |k: int| word_of_bytes(bytes[4 * k], bytes[4 * k + 1], bytes[4 * k + 2], bytes[4 * k + 3]),
    )
}

/// The byte stream that spells the given header words, little-endian.
pub open spec fn le_bytes_of_words(words: Seq<u32>) -> Seq<u8> {
    Seq::new((words.len() * 4) as nat, |j: int| word_byte(words[j / 4], j % 4))
}

/// The 16-bit value little-endian bytes spell, as a token ID.
pub open spec fn id_of_bytes(b0: u8, b1: u8) -> usize {
    (b0 + b1 * 0x100) as usize
}

/// Byte `t` (little-endian) of a token ID truncated to 16 bits.
pub open spec fn id_byte(v: usize, t: int) -> u8 {
    if t == 0 {
        (v % 0x100) as u8
    } else {
        ((v / 0x100) % 0x100) as u8
    }
}

/// The token IDs a byte stream holds, one per full 2-byte group.
pub open spec fn ids_of_le_bytes(bytes: Seq<u8>) -> Seq<usize> {
    Seq::new((bytes.len() / 2) as nat, |k: int| id_of_bytes(bytes[2 * k], bytes[2 * k + 1]))
}

/// The byte stream that spells the given token IDs as 16-bit little-endian
/// values.
pub open spec fn le_bytes_of_ids(ids: Seq<usize>) -> Seq<u8> {
    Seq::new((ids.len() * 2) as nat, |j: int| id_byte(ids[j / 2], j % 2))
}

pub proof fn lemma_word_bytes_round_trip(w: u32)
    ensures
        word_of_bytes(word_byte(w, 0), word_byte(w, 1), word_byte(w, 2), word_byte(w, 3)) == w,
{
    assert(((w / 0x100) / 0x100) / 0x100 < 0x100);
}

/// Law: header round trip — reading back the bytes written for a header
/// yields exactly the header words that were written.
pub proof fn lemma_header_round_trip(words: Seq<u32>)
    ensures
        words_of_le_bytes(le_bytes_of_words(words)) == words,
{
    let bytes = le_bytes_of_words(words);
    assert(bytes.len() / 4 == words.len());
    assert forall|k: int| 0 <= k < words.len() implies words_of_le_bytes(bytes)[k] == words[k] by {
        assert(bytes[4 * k] == word_byte(words[k], 0));
        assert(bytes[4 * k + 1] == word_byte(words[k], 1));
        assert(bytes[4 * k + 2] == word_byte(words[k], 2));
        assert(bytes[4 * k + 3] == word_byte(words[k], 3));
        lemma_word_bytes_round_trip(words[k]);
    };
    assert(words_of_le_bytes(bytes) =~= words);
}

/// Law: token-ID round trip — reading back the bytes written for in-range
/// token IDs yields exactly the IDs that were written.
pub proof fn lemma_ids_round_trip(ids: Seq<usize>)
    requires
        forall|k: int| 0 <= k < ids.len() ==> (#[trigger] ids[k]) < 0x10000,
    ensures
        ids_of_le_bytes(le_bytes_of_ids(ids)) == ids,
{
    let bytes = le_bytes_of_ids(ids);
    assert(bytes.len() / 2 == ids.len());
    assert forall|k: int| 0 <= k < ids.len() implies ids_of_le_bytes(bytes)[k] == ids[k] by {
        assert(bytes[2 * k] == id_byte(ids[k], 0));
        assert(bytes[2 * k + 1] == id_byte(ids[k], 1));
        assert(ids[k] / 0x100 < 0x100);
    };
    assert(ids_of_le_bytes(bytes) =~= ids);
}

/// Decodes a header byte block into its 32-bit little-endian words.
#[verifier::loop_isolation(false)]
pub fn decode_header_words(bytes: &Vec<u8>) -> (words: Vec<u32>)
    ensures
        words@ == words_of_le_bytes(bytes@),
{
    let n = bytes.len() / 4;
    let mut words: Vec<u32> = Vec::new();
    let mut k: usize = 0;
    while k < n
        invariant
            k <= n,
            n == bytes@.len() / 4,
            words@.len() == k,
            forall|j: int| 0 <= j < k ==> words@[j] == words_of_le_bytes(bytes@)[j],
        decreases n - k,
    {
        let b0 = bytes[4 * k] as u32;
        let b1 = bytes[4 * k + 1] as u32;
        let b2 = bytes[4 * k + 2] as u32;
        let b3 = bytes[4 * k + 3] as u32;
        let w = b0 + b1 * 0x100 + b2 * 0x10000 + b3 * 0x1000000;
        words.push(w);
        k += 1;
    }
    proof {
        assert(words@ =~= words_of_le_bytes(bytes@));
    }
    words
}

/// Encodes header words as their little-endian byte block.
#[verifier::loop_isolation(false)]
pub fn encode_header_words(words: &Vec<u32>) -> (bytes: Vec<u8>)
    requires
        words@.len() * 4 <= usize::MAX,
    ensures
        bytes@ == le_bytes_of_words(words@),
{
    let mut bytes: Vec<u8> = Vec::new();
    let mut k: usize = 0;
    while k < words.len()
        invariant
            k <= words@.len(),
            bytes@.len() == 4 * k,
            forall|j: int| 0 <= j < 4 * k ==> bytes@[j] == le_bytes_of_words(words@)[j],
        decreases words@.len() - k,
    {
        let w = words[k];
        bytes.push((w % 0x100) as u8);
        bytes.push(((w / 0x100) % 0x100) as u8);
        bytes.push((((w / 0x100) / 0x100) % 0x100) as u8);
        bytes.push((((w / 0x100) / 0x100) / 0x100) as u8);
        proof {
            assert((((words@[k as int] / 0x100) / 0x100) / 0x100) % 0x100 == ((words@[k as int]
                / 0x100) / 0x100) / 0x100);
        }
        k += 1;
    }
    proof {
        assert(bytes@ =~= le_bytes_of_words(words@));
    }
    bytes
}

/// Decodes a body byte stream into its 16-bit little-endian token IDs.
#[verifier::loop_isolation(false)]
pub fn decode_token_ids(bytes: &Vec<u8>) -> (ids: Vec<usize>)
    ensures
        ids@ == ids_of_le_bytes(bytes@),
        forall|k: int| 0 <= k < ids@.len() ==> (#[trigger] ids@[k]) < 0x10000,
{
    let n = bytes.len() / 2;
    let mut ids: Vec<usize> = Vec::new();
    let mut k: usize = 0;
    while k < n
        invariant
            k <= n,
            n == bytes@.len() / 2,
            ids@.len() == k,
            forall|j: int| 0 <= j < k ==> ids@[j] == ids_of_le_bytes(bytes@)[j],
            forall|j: int| 0 <= j < k ==> (#[trigger] ids@[j]) < 0x10000,
        decreases n - k,
    {
        let b0 = bytes[2 * k] as usize;
        let b1 = bytes[2 * k + 1] as usize;
        ids.push(b0 + b1 * 0x100);
        k += 1;
    }
    proof {
        assert(ids@ =~= ids_of_le_bytes(bytes@));
    }
    ids
}

/// Encodes token IDs as 16-bit little-endian bytes, truncating each to its
/// low 16 bits as the container's fixed-width body requires.
#[verifier::loop_isolation(false)]
pub fn encode_token_ids(ids: &Vec<usize>) -> (bytes: Vec<u8>)
    requires
        ids@.len() * 2 <= usize::MAX,
    ensures
        bytes@ == le_bytes_of_ids(ids@),
{
    let mut bytes: Vec<u8> = Vec::new();
    let mut k: usize = 0;
    while k < ids.len()
        invariant
            k <= ids@.len(),
            bytes@.len() == 2 * k,
            forall|j: int| 0 <= j < 2 * k ==> bytes@[j] == le_bytes_of_ids(ids@)[j],
        decreases ids@.len() - k,
    {
        let v = ids[k];
        bytes.push((v % 0x100) as u8);
        bytes.push(((v / 0x100) % 0x100) as u8);
        k += 1;
    }
    proof {
        assert(bytes@ =~= le_bytes_of_ids(ids@));
    }
    bytes
}

/// Why a container header was rejected.
#[derive(PartialEq, Eq, Structural, Clone, Copy, Debug)]
pub enum HeaderError {
    TooShort,
    BadMagic,
    BadVersion,
}

/// Validates a decoded header: exactly when it has the full 256 words, the
/// exact magic value and the supported version, returns the token count held
/// in slot 2.
pub fn validate_header(words: &Vec<u32>) -> (r: Result<u32, HeaderError>)
    ensures
        r == Ok::<u32, HeaderError>(words@[2]) <==> words@.len() >= HEADER_WORDS && words@[0]
            == HEADER_MAGIC && words@[1] == HEADER_VERSION,
        r == Err::<u32, HeaderError>(HeaderError::TooShort) <==> words@.len() < HEADER_WORDS,
        r == Err::<u32, HeaderError>(HeaderError::BadMagic) <==> words@.len() >= HEADER_WORDS
            && words@[0] != HEADER_MAGIC,
        r == Err::<u32, HeaderError>(HeaderError::BadVersion) <==> words@.len() >= HEADER_WORDS
            && words@[0] == HEADER_MAGIC && words@[1] != HEADER_VERSION,
        r is Ok ==> r == Ok::<u32, HeaderError>(words@[2]),
{
    if words.len() < HEADER_WORDS {
        Err(HeaderError::TooShort)
    } else if words[0] != HEADER_MAGIC {
        Err(HeaderError::BadMagic)
    } else if words[1] != HEADER_VERSION {
        Err(HeaderError::BadVersion)
    } else {
        Ok(words[2])
    }
}

/// The output header: the input header with slot 2 replaced by the emitted
/// compressed-ID count, slot 3 by the window count, and slots 4 and 5 by the
/// codebook capacity and phrase-length bound used, so a decoder needs no
/// out-of-band configuration.
#[verifier::loop_isolation(false)]
pub fn build_output_header(
    header: &Vec<u32>,
    compressed_len: u32,
    num_windows: u32,
    max_codebook_size: u32,
    max_subtokens: u32,
) -> (out: Vec<u32>)
    requires
        header@.len() >= 6,
    ensures
        out@.len() == header@.len(),
        out@[2] == compressed_len,
        out@[3] == num_windows,
        out@[4] == max_codebook_size,
        out@[5] == max_subtokens,
        forall|k: int| 0 <= k < header@.len() && !(2 <= k <= 5) ==> out@[k] == header@[k],
{
    let mut out: Vec<u32> = Vec::new();
    let mut k: usize = 0;
    while k < header.len()
        invariant
            k <= header@.len(),
            out@.len() == k,
            forall|j: int| 0 <= j < k && !(2 <= j <= 5) ==> out@[j] == header@[j],
            k >= 3 ==> out@[2] == compressed_len,
            k >= 4 ==> out@[3] == num_windows,
            k >= 5 ==> out@[4] == max_codebook_size,
            k >= 6 ==> out@[5] == max_subtokens,
        decreases header@.len() - k,
    {
        if k == 2 {
            out.push(compressed_len);
        } else if k == 3 {
            out.push(num_windows);
        } else if k == 4 {
            out.push(max_codebook_size);
        } else if k == 5 {
            out.push(max_subtokens);
        } else {
            out.push(header[k]);
        }
        k += 1;
    }
    out
}

} // verus!

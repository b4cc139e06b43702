//! Words as bytes, and bytes as words, in the order of the machine.

use vstd::arithmetic::power2::pow2;
use vstd::prelude::*;

verus! {

/// Byte `k` of a word, the lowest first.
pub open spec fn byte_of(word: int, k: int) -> u8 {
    ((word / pow2((8 * k) as nat) as int) % 256) as u8
}

/// The bytes of words whose lowest byte comes first.
pub open spec fn little_endian(words: Seq<u64>) -> Seq<u8> {
    Seq::new(8 * words.len(), |i: int| byte_of(words[i / 8] as int, i % 8))
}

/// The bytes of words whose highest byte comes first.
pub open spec fn big_endian(words: Seq<u64>) -> Seq<u8> {
    Seq::new(8 * words.len(), |i: int| byte_of(words[i / 8] as int, 7 - i % 8))
}

/// Whether bytes are those of words, in one order or the other.
pub open spec fn bytes_of(bytes: Seq<u8>, words: Seq<u64>) -> bool {
    bytes == little_endian(words) || bytes == big_endian(words)
}

/// The word whose lowest byte comes first, at a place of bytes.
pub open spec fn word_le(bytes: Seq<u8>, i: int) -> int {
    bytes[4 * i] + 0x100 * bytes[4 * i + 1] + 0x1_0000 * bytes[4 * i + 2] + 0x100_0000 * bytes[4
        * i + 3]
}

/// The word whose highest byte comes first, at a place of bytes.
pub open spec fn word_be(bytes: Seq<u8>, i: int) -> int {
    bytes[4 * i + 3] + 0x100 * bytes[4 * i + 2] + 0x1_0000 * bytes[4 * i + 1] + 0x100_0000
        * bytes[4 * i]
}

/// Whether words are those of bytes, in one order or the other.
pub open spec fn words_of(words: Seq<u32>, bytes: Seq<u8>) -> bool {
    &&& 4 * words.len() == bytes.len()
    &&& (forall|i: int| 0 <= i < words.len() ==> (#[trigger] words[i]) == word_le(bytes, i)) || (
    forall|i: int| 0 <= i < words.len() ==> (#[trigger] words[i]) == word_be(bytes, i))
}

/// The error of a cast between slices.
#[verifier::external_type_specification]
#[verifier::external_body]
pub struct ExPodCastError(bytemuck::PodCastError);

/// The bytes of words, by [`bytemuck::cast_slice`]: it views the same memory as bytes, so
/// there are eight for each word, in the order in which the machine keeps them. Which of the
/// two orders that is is not stated. From words to bytes the cast never fails.
#[verifier::external_body]
pub(crate) fn word_bytes(words: &[u64]) -> (bytes: Vec<u8>)
    ensures
        bytes_of(bytes@, words@),
{
    bytemuck::cast_slice::<u64, u8>(words).to_vec()
}

/// The words in bytes, by [`bytemuck::try_cast_slice`]: it views the same memory as words,
/// each of four bytes, in the order in which the machine keeps them. It fails where the
/// bytes make no whole number of words, and where they do not start at a multiple of four in
/// memory; whether they do is not stated.
#[verifier::external_body]
fn bytes_as_words(bytes: &[u8]) -> (words: Result<Vec<u32>, bytemuck::PodCastError>)
    ensures
        words matches Ok(words) ==> words_of(words@, bytes@),
        bytes@.len() % 4 != 0 ==> words is Err,
{
    bytemuck::try_cast_slice::<u8, u32>(bytes).map(|words| words.to_vec())
}

/// Why bytes are no number of cubes.
#[derive(Clone, Copy, Debug, PartialEq, Eq)]
pub enum CubeCountError {
    /// The bytes cannot be read as words where they are.
    Unaligned,
    /// There are not three words.
    Length { words: usize },
}

/// The number of cubes in three words, in the dimensions x, y and z.
pub fn cube_count_of(words: &Vec<u32>) -> (r: Result<(u32, u32, u32), CubeCountError>)
    ensures
        words@.len() == 3 ==> r == Ok::<(u32, u32, u32), CubeCountError>(
            (words@[0], words@[1], words@[2]),
        ),
        words@.len() != 3 ==> r == Err::<(u32, u32, u32), CubeCountError>(
            CubeCountError::Length { words: words@.len() as usize },
        ),
{
    if words.len() == 3 {
        Ok((words[0], words[1], words[2]))
    } else {
        Err(CubeCountError::Length { words: words.len() })
    }
}

/// The number of cubes that was read from a buffer.
pub fn dynamic_cube_count(bytes: &[u8]) -> (r: Result<(u32, u32, u32), CubeCountError>)
    ensures
        bytes@.len() != 12 ==> r is Err,
        r matches Ok(count) ==> bytes@.len() == 12 && words_of(
            seq![count.0, count.1, count.2],
            bytes@,
        ),
        r matches Err(error) ==> bytes@.len() == 12 ==> error == CubeCountError::Unaligned,
{
    match bytes_as_words(bytes) {
        Ok(words) => {
            let r = cube_count_of(&words);
            proof {
                if words@.len() == 3 {
                    assert(words@ =~= seq![words@[0], words@[1], words@[2]]);
                }
            }
            r
        },
        Err(_) => Err(CubeCountError::Unaligned),
    }
}

} // verus!

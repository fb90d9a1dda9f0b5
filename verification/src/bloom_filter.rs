//! Bloom filters of words: building them from lines of text, checking words
//! against them, and saving and loading them as bytes.

use vstd::prelude::*;

use bloomfilter::Bloom;

use crate::text::{CharClass, chars_of, string_from, trim, trimmed};

verus! {

broadcast use vstd::string::group_string_axioms;

/// The outside filter type.
#[verifier::external_type_specification]
#[verifier::external_body]
#[verifier::reject_recursive_types(T)]
pub struct ExBloom<T: ?Sized>(Bloom<T>);

/// Size of the header that a filter's bytes begin with: version (1 byte),
/// bitmap length (8 bytes), number of hash functions (4 bytes), seed (32 bytes).
pub open spec fn header_size() -> nat {
    45
}

/// The little-endian value of `n` bytes of `b` starting at `at`.
pub open spec fn le_value(b: Seq<u8>, at: int, n: nat) -> nat
    decreases n,
{
    if n == 0 {
        0
    } else {
        b[at] as nat + 256 * le_value(b, at + 1, (n - 1) as nat)
    }
}

/// Bytes that `Bloom::from_slice` accepts: a full header of version 1, a
/// non-zero number of hash functions, and a bitmap length that matches
/// the bytes that follow the header.
pub open spec fn valid_filter_bytes(b: Seq<u8>) -> bool {
    &&& b.len() >= header_size()
    &&& b[0] == 1
    &&& le_value(b, 9, 4) != 0
    &&& le_value(b, 1, 8) == b.len() - header_size()
}

/// The bytes that make up a filter (what `Bloom::as_slice` shows):
/// its header, then its bitmap.
pub uninterp spec fn bloom_bytes(filter: Bloom<str>) -> Seq<u8>;

/// The words that a filter with these bytes reports as present. A filter's
/// hash keys, number of hash functions and bitmap are all read from its
/// bytes, so what it reports is a function of them.
pub uninterp spec fn bloom_accepts(bytes: Seq<u8>) -> Set<Seq<char>>;

/// `Bloom::check`: whether `word` is reported present. It divides by the
/// number of bits, so the bitmap must not be empty.
#[verifier::external_body]
fn bloom_check(filter: &Bloom<str>, word: &str) -> (r: bool)
    requires
        bloom_bytes(*filter).len() > header_size(),
    ensures
        r == bloom_accepts(bloom_bytes(*filter)).contains(word@),
{
    filter.check(word)
}

/// The bytes of a filter with bytes `bytes` once `word` is set in it. The
/// bits set are the word's hashes, keyed by the seed and counted by the
/// number of hash functions in the header, so they follow from the bytes
/// and the word alone.
pub uninterp spec fn bloom_after_set(bytes: Seq<u8>, word: Seq<char>) -> Seq<u8>;

/// `Bloom::set`: sets the bits of `word`. The new bytes are named as a
/// function of the old bytes and the word. The header and the length stay;
/// bits are only ever set, so every word reported before is still
/// reported, and so is `word`. Which other words become reported is not
/// stated.
#[verifier::external_body]
fn bloom_set(filter: &mut Bloom<str>, word: &str)
    requires
        bloom_bytes(*old(filter)).len() > header_size(),
    ensures
        bloom_bytes(*final(filter)) == bloom_after_set(bloom_bytes(*old(filter)), word@),
        bloom_bytes(*final(filter)).len() == bloom_bytes(*old(filter)).len(),
        bloom_bytes(*final(filter)).take(header_size() as int) == bloom_bytes(*old(filter)).take(
            header_size() as int,
        ),
        bloom_accepts(bloom_bytes(*old(filter))).insert(word@).subset_of(
            bloom_accepts(bloom_bytes(*final(filter))),
        ),
{
    filter.set(word)
}

/// `Bloom::as_slice`, copied out.
#[verifier::external_body]
fn bloom_to_bytes(filter: &Bloom<str>) -> (r: Vec<u8>)
    ensures
        r@ == bloom_bytes(*filter),
{
    filter.as_slice().to_vec()
}

/// `Bloom::from_slice`: a filter holding exactly `bytes`, when their header
/// is valid. It counts the bitmap's bits in a `u64`, so the bitmap must
/// have fewer than 2^61 bytes.
#[verifier::external_body]
fn bloom_from_bytes(bytes: &[u8]) -> (r: Result<Bloom<str>, &'static str>)
    requires
        bytes@.len() < header_size() + 0x2000_0000_0000_0000,
    ensures
        r is Ok <==> valid_filter_bytes(bytes@),
        r matches Ok(f) ==> bloom_bytes(f) == bytes@,
{
    Bloom::from_slice(bytes)
}

/// Why a filter could not be built or loaded.
#[derive(Debug, Clone, PartialEq, Eq)]
pub enum BloomError {
    /// There are no lines to build a filter from.
    EmptyInput,
    /// The bytes are not a filter.
    InvalidFilter(String),
}

/// A Bloom filter of words.
pub struct BloomFilterManager {
    bloom: Bloom<str>,
}

impl View for BloomFilterManager {
    type V = Seq<u8>;

    /// The filter's bytes.
    closed spec fn view(&self) -> Seq<u8> {
        bloom_bytes(self.bloom)
    }
}

/// The words that a filter with bytes `b` reports as present.
pub open spec fn filter_words(b: Seq<u8>) -> Set<Seq<char>> {
    bloom_accepts(b)
}

/// The non-empty trimmed lines of `lines`.
pub open spec fn filter_entries(lines: Seq<Seq<char>>) -> Seq<Seq<char>>
    decreases lines.len(),
{
    if lines.len() == 0 {
        seq![]
    } else {
        let rest = filter_entries(lines.drop_last());
        let t = trimmed(lines.last(), CharClass::White);
        if t.len() > 0 {
            rest.push(t)
        } else {
            rest
        }
    }
}

/// The bytes of a filter with bytes `start` once each of `words` is set in
/// it, in order.
pub open spec fn bytes_after_adding(start: Seq<u8>, words: Seq<Seq<char>>) -> Seq<u8>
    decreases words.len(),
{
    if words.len() == 0 {
        start
    } else {
        bloom_after_set(bytes_after_adding(start, words.drop_last()), words.last())
    }
}

impl BloomFilterManager {
    #[verifier::type_invariant]
    spec fn holds_valid_bytes(self) -> bool {
        valid_filter_bytes(bloom_bytes(self.bloom))
    }

    /// The capacity to size a filter for these lines: one entry per line.
    /// There must be at least one line.
    pub fn line_capacity(lines: &Vec<String>) -> (r: Result<usize, BloomError>)
        ensures
            lines@.len() == 0 ==> r == Err::<usize, BloomError>(BloomError::EmptyInput),
            lines@.len() > 0 ==> r == Ok::<usize, BloomError>(lines@.len() as usize),
    {
        if lines.len() == 0 {
            Err(BloomError::EmptyInput)
        } else {
            Ok(lines.len())
        }
    }

    /// Builds a filter from the non-empty trimmed lines of `lines`, into the
    /// empty filter whose bytes are `empty_filter`; also answers how many
    /// lines were added. Every added line is reported present afterwards.
    pub fn build_from_lines(empty_filter: &[u8], lines: &Vec<String>) -> (r: Result<
        (Self, usize),
        BloomError,
    >)
        requires
            empty_filter@.len() > header_size(),
            empty_filter@.len() < header_size() + 0x2000_0000_0000_0000,
        ensures
            r is Ok <==> valid_filter_bytes(empty_filter@),
            r matches Ok((m, added)) ==> {
                let entries = filter_entries(lines.deep_view());
                &&& added == entries.len()
                &&& m@ == bytes_after_adding(empty_filter@, entries)
                &&& m@.len() == empty_filter@.len()
                &&& m@.take(header_size() as int) == empty_filter@.take(header_size() as int)
                &&& filter_words(empty_filter@).subset_of(filter_words(m@))
                &&& forall|i: int| 0 <= i < entries.len() ==> filter_words(m@).contains(
                    #[trigger] entries[i],
                )
            },
    {
        let mut bloom = match bloom_from_bytes(empty_filter) {
            Ok(b) => b,
            Err(e) => {
                return Err(BloomError::InvalidFilter(e.to_owned()));
            },
        };
        let ghost start = bloom_bytes(bloom);
        let mut added: usize = 0;
        let mut i: usize = 0;
        while i < lines.len()
            invariant
                i <= lines@.len(),
                start == empty_filter@,
                start.len() > header_size(),
                valid_filter_bytes(start),
                added <= i,
                bloom_bytes(bloom).len() == start.len(),
                bloom_bytes(bloom).take(header_size() as int) == start.take(header_size() as int),
                bloom_accepts(start).subset_of(bloom_accepts(bloom_bytes(bloom))),
                added == filter_entries(lines.deep_view().take(i as int)).len(),
                bloom_bytes(bloom) == bytes_after_adding(
                    start,
                    filter_entries(lines.deep_view().take(i as int)),
                ),
                forall|k: int|
                    0 <= k < filter_entries(lines.deep_view().take(i as int)).len()
                        ==> bloom_accepts(bloom_bytes(bloom)).contains(
                        #[trigger] filter_entries(lines.deep_view().take(i as int))[k],
                    ),
            decreases lines.len() - i,
        {
            let ghost before = bloom_bytes(bloom);
            let ghost prev = filter_entries(lines.deep_view().take(i as int));
            proof {
                lemma_filter_entries_len(lines.deep_view().take(i as int));
                let next = lines.deep_view().take(i + 1);
                assert(next.drop_last() =~= lines.deep_view().take(i as int));
                assert(next.last() == lines[i as int]@);
            }
            let v = chars_of(lines[i].as_str());
            let t = trim(v.as_slice(), CharClass::White);
            if t.len() > 0 {
                let word = string_from(t.as_slice());
                bloom_set(&mut bloom, word.as_str());
                added = added + 1;
                proof {
                    let now = filter_entries(lines.deep_view().take(i + 1));
                    assert(now == prev.push(t@));
                    assert(now.drop_last() =~= prev);
                    assert(bytes_after_adding(start, now) == bloom_after_set(
                        bytes_after_adding(start, prev),
                        t@,
                    ));
                    assert forall|k: int| 0 <= k < now.len() implies bloom_accepts(
                        bloom_bytes(bloom),
                    ).contains(#[trigger] now[k]) by {
                        if k < prev.len() {
                            assert(now[k] == prev[k]);
                            assert(bloom_accepts(before).contains(prev[k]));
                        }
                    }
                    assert(bloom_bytes(bloom).take(header_size() as int) =~= start.take(
                        header_size() as int,
                    ));
                }
            } else {
                proof {
                    assert(filter_entries(lines.deep_view().take(i + 1)) == prev);
                }
            }
            i += 1;
        }
        proof {
            assert(lines.deep_view().take(lines@.len() as int) =~= lines.deep_view());
            let b = bloom_bytes(bloom);
            assert forall|k: int| 0 <= k < header_size() implies b[k] == start[k] by {
                assert(b.take(header_size() as int)[k] == start.take(header_size() as int)[k]);
            }
            lemma_le_value_same(b, start, 1, 8);
            lemma_le_value_same(b, start, 9, 4);
        }
        Ok((BloomFilterManager { bloom }, added))
    }

    /// A filter from its saved bytes.
    pub fn from_bytes(bytes: &[u8]) -> (r: Result<Self, BloomError>)
        requires
            bytes@.len() < header_size() + 0x2000_0000_0000_0000,
        ensures
            r is Ok <==> valid_filter_bytes(bytes@),
            r matches Ok(m) ==> m@ == bytes@,
    {
        match bloom_from_bytes(bytes) {
            Ok(bloom) => Ok(BloomFilterManager { bloom }),
            Err(e) => Err(BloomError::InvalidFilter(e.to_owned())),
        }
    }

    /// The bytes to save the filter as.
    pub fn to_bytes(&self) -> (r: Vec<u8>)
        ensures
            r@ == self@,
            valid_filter_bytes(r@),
    {
        proof {
            use_type_invariant(self);
        }
        bloom_to_bytes(&self.bloom)
    }

    /// Whether the filter has any bits to check words against.
    pub fn has_bits(&self) -> (r: bool)
        ensures
            r == (self@.len() > header_size()),
    {
        let b = bloom_to_bytes(&self.bloom);
        b.len() > 45
    }

    /// Whether `word` is probably in the filter: `false` means it is
    /// definitely not.
    pub fn check_word(&self, word: &str) -> (r: bool)
        requires
            self@.len() > header_size(),
        ensures
            r == filter_words(self@).contains(word@),
    {
        bloom_check(&self.bloom, word)
    }
}

proof fn lemma_filter_entries_len(lines: Seq<Seq<char>>)
    ensures
        filter_entries(lines).len() <= lines.len(),
    decreases lines.len(),
{
    if lines.len() > 0 {
        lemma_filter_entries_len(lines.drop_last());
    }
}

proof fn lemma_le_value_same(a: Seq<u8>, b: Seq<u8>, at: int, n: nat)
    requires
        0 <= at,
        at + n <= 45,
        a.len() >= 45,
        b.len() >= 45,
        forall|k: int| 0 <= k < 45 ==> a[k] == b[k],
    ensures
        le_value(a, at, n) == le_value(b, at, n),
    decreases n,
{
    if n > 0 {
        lemma_le_value_same(a, b, at + 1, (n - 1) as nat);
    }
}

} // verus!

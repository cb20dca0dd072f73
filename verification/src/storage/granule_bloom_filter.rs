//! Bloom filters of granules: which keys a granule may hold, kept in a file
//! beside the column.
use vstd::arithmetic::power2::{lemma2_to64, lemma_pow2_unfold, pow2};
use vstd::prelude::*;
use crate::error::RockDuckError;
use crate::ratio::Ratio;
use crate::segment::meta::GranuleId;

verus! {

/// Bits for each expected key, about right for one false positive in a hundred.
pub const BITS_PER_ENTRY: usize = 10;

/// The largest stored filter that is read, in bytes.
pub const MAX_STORED_BYTES: usize = 10485760;

/// How many bits a filter has for some keys.
pub open spec fn bits_for(entries: nat) -> nat {
    if entries * 10 < 64 {
        64
    } else {
        entries * 10
    }
}

/// How many bits a filter has for some keys.
pub fn optimal_bits(entries: usize) -> (r: usize)
    requires
        entries * BITS_PER_ENTRY <= usize::MAX,
    ensures
        r == bits_for(entries as nat),
{
    let bits: usize = entries * BITS_PER_ENTRY;
    if bits < 64 {
        64
    } else {
        bits
    }
}

/// A `fastbloom::BloomFilter`.
#[verifier::external_body]
pub struct BloomBits {
    filter: fastbloom::BloomFilter,
}

/// The bits of a filter, in words of 64.
pub uninterp spec fn bloom_words(f: BloomBits) -> Seq<u64>;

/// The keys for which a filter answers that it may hold them.
pub uninterp spec fn bloom_keys(f: BloomBits) -> Set<Seq<u8>>;

/// How many bytes the hasher of a filter starts with, and how many of them it has
/// yet to take in. Those of a filter that was made here are none.
pub uninterp spec fn bloom_taken(f: BloomBits) -> (u64, u64);

/// `fastbloom::BloomFilter::with_num_bits` and `expected_items`: an empty filter
/// of the bits, rounded up to words. Its hasher is seeded at random.
#[verifier::external_body]
fn bloom_new(num_bits: usize, expected_items: usize) -> (r: BloomBits)
    requires
        0 < num_bits <= usize::MAX - 64,
    ensures
        bloom_words(r) == Seq::new(((num_bits + 63) / 64) as nat, |i: int| 0u64),
        bloom_keys(r) == Set::<Seq<u8>>::empty(),
        bloom_taken(r) == (0u64, 0u64),
{
    BloomBits { filter: fastbloom::BloomFilter::with_num_bits(num_bits).expected_items(expected_items) }
}

/// `fastbloom::BloomFilter::insert`: sets bits, so that the key and every key
/// before it are answered for. The hasher has to start with nothing: it counts on
/// fewer than eight bytes to be left over.
#[verifier::external_body]
fn bloom_insert(f: &mut BloomBits, key: &[u8])
    requires
        bloom_words(*old(f)).len() > 0,
        bloom_taken(*old(f)) == (0u64, 0u64),
    ensures
        bloom_taken(*final(f)) == bloom_taken(*old(f)),
        bloom_words(*final(f)).len() == bloom_words(*old(f)).len(),
        bloom_keys(*old(f)).insert(key@).subset_of(bloom_keys(*final(f))),
        bloom_keys(*old(f)).contains(key@) ==> bloom_words(*final(f)) == bloom_words(*old(f))
            && bloom_keys(*final(f)) == bloom_keys(*old(f)),
{
    f.filter.insert(&key);
}

/// `fastbloom::BloomFilter::contains`. The hasher has to start with nothing.
#[verifier::external_body]
fn bloom_contains(f: &BloomBits, key: &[u8]) -> (r: bool)
    requires
        bloom_words(*f).len() > 0,
        bloom_taken(*f) == (0u64, 0u64),
    ensures
        r == bloom_keys(*f).contains(key@),
{
    f.filter.contains(&key)
}

/// `fastbloom::BloomFilter::iter`, collected.
#[verifier::external_body]
fn bloom_list(f: &BloomBits) -> (r: Vec<u64>)
    ensures
        r@ == bloom_words(*f),
{
    f.filter.iter().collect()
}

/// `bincode::ErrorKind`.
#[verifier::external_type_specification]
#[verifier::external_body]
pub struct ExBincodeErrorKind(bincode::ErrorKind);

/// The words and the keys of the filter that `bincode` reads from bytes, and what
/// its hasher starts with, if it reads one.
pub uninterp spec fn bincode_filter(bytes: Seq<u8>) -> Option<(Seq<u64>, Set<Seq<u8>>, (u64, u64))>;

/// `bincode::serialize` on a filter: bytes from which the same filter, with its
/// hasher, is read back. Writing to memory does not fail.
#[verifier::external_body]
fn bloom_write(f: &BloomBits) -> (r: Result<Vec<u8>, Box<bincode::ErrorKind>>)
    ensures
        r is Ok,
        r matches Ok(bytes) ==> bincode_filter(bytes@) == Some(
            (bloom_words(*f), bloom_keys(*f), bloom_taken(*f)),
        ),
{
    bincode::serialize(&f.filter)
}

/// The numbers of a stored filter: its words, how many hashes it takes, and of
/// its hasher the two keys, the bytes taken in, the state, the bytes left over
/// and how many they are.
type FilterNumbers = (Vec<u64>, u32, (u64, u64, u64, (u64, u64, u64, u64), u64, u64));

/// `bincode::deserialize` for a filter, and once more for its numbers: the filter,
/// how many bytes its hasher starts with, and how many of them are left over.
#[verifier::external_body]
fn bloom_read(bytes: &[u8]) -> (r: Result<(BloomBits, u64, u64), Box<bincode::ErrorKind>>)
    ensures
        match r {
            Ok((f, length, pending)) => bincode_filter(bytes@) == Some(
                (bloom_words(f), bloom_keys(f), bloom_taken(f)),
            ) && bloom_taken(f) == (length, pending),
            Err(_) => bincode_filter(bytes@) is None,
        },
{
    let (_, _, (_, _, length, _, _, pending)): FilterNumbers = bincode::deserialize(bytes)?;
    bincode::deserialize(bytes).map(|filter| (BloomBits { filter }, length, pending))
}

/// How many bits of a word are set.
pub open spec fn word_ones(w: nat) -> nat
    decreases w,
{
    if w == 0 {
        0
    } else {
        w % 2 + word_ones(w / 2)
    }
}

/// How many bits of some words are set.
pub open spec fn ones_in(words: Seq<u64>) -> nat
    decreases words.len(),
{
    if words.len() == 0 {
        0
    } else {
        ones_in(words.drop_last()) + word_ones(words.last() as nat)
    }
}

proof fn lemma_word_ones(w: nat, n: nat)
    requires
        w < pow2(n),
    ensures
        word_ones(w) <= n,
    decreases n,
{
    lemma2_to64();
    if n > 0 && w > 0 {
        lemma_pow2_unfold(n);
        lemma_word_ones(w / 2, (n - 1) as nat);
    }
}

fn count_ones(w: u64) -> (r: u64)
    ensures
        r == word_ones(w as nat),
        r <= 64,
{
    proof {
        lemma2_to64();
        lemma_word_ones(w as nat, 64);
    }
    let mut rest: u64 = w;
    let mut count: u64 = 0;
    while rest > 0
        invariant
            count + word_ones(rest as nat) == word_ones(w as nat),
            word_ones(w as nat) <= 64,
        decreases rest,
    {
        count = count + rest % 2;
        rest = rest / 2;
    }
    count
}

/// The filter of a granule.
pub struct FastbloomGranuleFilter {
    pub filter: BloomBits,
    pub seg_id: String,
    pub granule_id: GranuleId,
    /// The file that it is kept in.
    pub path: String,
    /// Whether it holds what the file does not.
    pub dirty: bool,
    /// How many keys were inserted.
    pub entries: u32,
}

/// What the bytes of a stored filter hold, if they are a filter of some bits, with
/// a hasher that starts with nothing, and not too many bytes.
pub open spec fn stored_filter(bytes: Seq<u8>) -> Option<(Seq<u64>, Set<Seq<u8>>)> {
    if bytes.len() > MAX_STORED_BYTES {
        None
    } else {
        match bincode_filter(bytes) {
            Some((words, keys, taken)) => if words.len() > 0 && taken == (0u64, 0u64) {
                Some((words, keys))
            } else {
                None
            },
            None => None,
        }
    }
}

impl FastbloomGranuleFilter {
    /// The bits of the filter, in words of 64.
    pub open spec fn words(&self) -> Seq<u64> {
        bloom_words(self.filter)
    }

    /// The keys that it may hold.
    pub open spec fn keys(&self) -> Set<Seq<u8>> {
        bloom_keys(self.filter)
    }

    /// A filter has bits, and its hasher starts with nothing.
    pub open spec fn wf(&self) -> bool {
        self.words().len() > 0 && bloom_taken(self.filter) == (0u64, 0u64)
    }

    /// An empty filter, not yet in its file.
    pub fn create(seg_id: String, granule_id: GranuleId, expected_entries: u32, path: String) -> (r:
        Result<Self, RockDuckError>)
        requires
            expected_entries * BITS_PER_ENTRY <= usize::MAX - 64,
        ensures
            match r {
                Ok(f) => {
                    &&& f.wf()
                    &&& f.words() == Seq::new(
                        (bits_for(expected_entries as nat) + 63) / 64,
                        |i: int| 0u64,
                    )
                    &&& f.keys() == Set::<Seq<u8>>::empty()
                    &&& f.seg_id == seg_id
                    &&& f.granule_id == granule_id
                    &&& f.path == path
                    &&& f.dirty
                    &&& f.entries == 0
                },
                Err(_) => false,
            },
    {
        let num_bits: usize = optimal_bits(expected_entries as usize);
        let filter = bloom_new(num_bits, expected_entries as usize);
        Ok(
            FastbloomGranuleFilter {
                filter,
                seg_id,
                granule_id,
                path,
                dirty: true,
                entries: 0,
            },
        )
    }

    /// The filter that the bytes of a file hold. Of a loaded filter the segment,
    /// the granule and the number of keys are not known.
    pub fn load(bytes: &[u8], path: String) -> (r: Result<Self, RockDuckError>)
        ensures
            match r {
                Ok(f) => {
                    &&& f.wf()
                    &&& stored_filter(bytes@) == Some((f.words(), f.keys()))
                    &&& f.seg_id@.len() == 0
                    &&& f.granule_id == GranuleId(0)
                    &&& f.path == path
                    &&& !f.dirty
                    &&& f.entries == 0
                },
                Err(e) => stored_filter(bytes@) is None && e == RockDuckError::Codec,
            },
    {
        if bytes.len() > MAX_STORED_BYTES {
            return Err(RockDuckError::Codec);
        }
        let (filter, length, pending) = match bloom_read(bytes) {
            Ok(parts) => parts,
            Err(_) => {
                return Err(RockDuckError::Codec);
            },
        };
        let words = bloom_list(&filter);
        if words.len() == 0 || length != 0 || pending != 0 {
            return Err(RockDuckError::Codec);
        }
        proof {
            reveal_strlit("");
        }
        Ok(
            FastbloomGranuleFilter {
                filter,
                seg_id: String::from_str(""),
                granule_id: GranuleId(0),
                path,
                dirty: false,
                entries: 0,
            },
        )
    }

    /// The filter of a file if there is one, otherwise an empty filter.
    pub fn load_or_create(
        seg_id: String,
        granule_id: GranuleId,
        expected_entries: u32,
        path: String,
        stored: Option<&[u8]>,
    ) -> (r: Result<Self, RockDuckError>)
        requires
            expected_entries * BITS_PER_ENTRY <= usize::MAX - 64,
        ensures
            match (stored, r) {
                (Some(bytes), Ok(f)) => f.wf() && stored_filter(bytes@) == Some(
                    (f.words(), f.keys()),
                ) && f.path == path && !f.dirty && f.entries == 0,
                (Some(bytes), Err(e)) => stored_filter(bytes@) is None && e
                    == RockDuckError::Codec,
                (None, Ok(f)) => f.wf() && f.words() == Seq::new(
                    (bits_for(expected_entries as nat) + 63) / 64,
                    |i: int| 0u64,
                ) && f.keys() == Set::<Seq<u8>>::empty() && f.seg_id == seg_id && f.granule_id
                    == granule_id && f.path == path && f.dirty && f.entries == 0,
                (None, Err(_)) => false,
            },
    {
        match stored {
            Some(bytes) => Self::load(bytes, path),
            None => Self::create(seg_id, granule_id, expected_entries, path),
        }
    }

    /// Adds a key.
    pub fn insert(&mut self, key: &[u8])
        requires
            old(self).wf(),
            old(self).entries < u32::MAX,
        ensures
            final(self).wf(),
            final(self).words().len() == old(self).words().len(),
            old(self).keys().insert(key@).subset_of(final(self).keys()),
            old(self).keys().contains(key@) ==> final(self).words() == old(self).words() && final(self).keys() == old(self).keys(),
            final(self).dirty,
            final(self).entries == old(self).entries + 1,
            final(self).seg_id == old(self).seg_id,
            final(self).granule_id == old(self).granule_id,
            final(self).path == old(self).path,
    {
        bloom_insert(&mut self.filter, key);
        self.dirty = true;
        self.entries = self.entries + 1;
    }

    /// A key cannot be taken out again: its bits may be those of others.
    pub fn remove(&mut self, _key: &[u8]) -> (r: Result<(), RockDuckError>)
        ensures
            r == Err::<(), RockDuckError>(RockDuckError::Unimplemented),
            *final(self) == *old(self),
    {
        Err(RockDuckError::Unimplemented)
    }

    /// Whether the granule may hold a key.
    pub fn might_contain(&self, key: &[u8]) -> (r: bool)
        requires
            self.wf(),
        ensures
            r == self.keys().contains(key@),
    {
        bloom_contains(&self.filter, key)
    }

    /// The part of the bits that are set.
    pub fn fill_ratio(&self) -> (r: Ratio)
        requires
            self.wf(),
            self.words().len() * 64 <= u64::MAX,
        ensures
            r == (Ratio { num: ones_in(self.words()) as u64, den: (self.words().len() * 64) as u64 }),
            ones_in(self.words()) <= self.words().len() * 64,
    {
        let words = bloom_list(&self.filter);
        let n: usize = words.len();
        let mut ones: u64 = 0;
        let mut i: usize = 0;
        assert(words@.take(0) =~= Seq::<u64>::empty());
        while i < n
            invariant
                n == words@.len(),
                i <= n,
                n * 64 <= u64::MAX,
                ones == ones_in(words@.take(i as int)),
                ones <= i * 64,
            decreases n - i,
        {
            assert(words@.take(i + 1).drop_last() =~= words@.take(i as int));
            let more: u64 = count_ones(words[i]);
            ones = ones + more;
            i = i + 1;
        }
        assert(words@.take(n as int) =~= words@);
        Ratio { num: ones, den: n as u64 * 64 }
    }

    /// The file that the filter is kept in.
    pub fn path(&self) -> (r: &str)
        ensures
            r@ == self.path@,
    {
        self.path.as_str()
    }

    /// How many keys were inserted.
    pub fn item_count(&self) -> (r: usize)
        ensures
            r == self.entries,
    {
        self.entries as usize
    }

    /// The bytes to write into the file, or none when the file holds the filter
    /// already.
    pub fn begin_save(&self) -> (r: Result<Option<Vec<u8>>, RockDuckError>)
        requires
            self.wf(),
        ensures
            match r {
                Ok(Some(bytes)) => self.dirty && bincode_filter(bytes@) == Some(
                    (self.words(), self.keys(), (0u64, 0u64)),
                ),
                Ok(None) => !self.dirty,
                Err(_) => false,
            },
    {
        if !self.dirty {
            return Ok(None);
        }
        match bloom_write(&self.filter) {
            Ok(bytes) => Ok(Some(bytes)),
            Err(_) => Err(RockDuckError::Codec),
        }
    }

    /// Notes that the file holds the filter.
    pub fn finish_save(&mut self)
        ensures
            *final(self) == (FastbloomGranuleFilter { dirty: false, ..*old(self) }),
    {
        self.dirty = false;
    }
}

/// A `fastbloom::AtomicBloomFilter`.
#[verifier::external_body]
pub struct AtomicBloomBits {
    filter: fastbloom::AtomicBloomFilter,
}

/// The keys for which a filter answers that it may hold them.
pub uninterp spec fn atomic_bloom_keys(f: AtomicBloomBits) -> Set<Seq<u8>>;

/// `fastbloom::AtomicBloomFilter::with_num_bits` and `expected_items`: an empty
/// filter.
#[verifier::external_body]
fn atomic_bloom_new(num_bits: usize, expected_items: usize) -> (r: AtomicBloomBits)
    requires
        0 < num_bits <= usize::MAX - 64,
    ensures
        atomic_bloom_keys(r) == Set::<Seq<u8>>::empty(),
{
    AtomicBloomBits {
        filter: fastbloom::AtomicBloomFilter::with_num_bits(num_bits).expected_items(expected_items),
    }
}

/// `fastbloom::AtomicBloomFilter::insert`: the key and every key before it are
/// answered for.
#[verifier::external_body]
fn atomic_bloom_insert(f: &mut AtomicBloomBits, key: &[u8])
    ensures
        atomic_bloom_keys(*old(f)).insert(key@).subset_of(atomic_bloom_keys(*final(f))),
        atomic_bloom_keys(*old(f)).contains(key@) ==> atomic_bloom_keys(*final(f))
            == atomic_bloom_keys(*old(f)),
{
    f.filter.insert(&key);
}

/// `fastbloom::AtomicBloomFilter::contains`.
#[verifier::external_body]
fn atomic_bloom_contains(f: &AtomicBloomBits, key: &[u8]) -> (r: bool)
    ensures
        r == atomic_bloom_keys(*f).contains(key@),
{
    f.filter.contains(&key)
}

/// A filter that is not kept in its file by itself.
pub struct AtomicGranuleBloomFilter {
    pub filter: AtomicBloomBits,
    pub path: String,
}

impl AtomicGranuleBloomFilter {
    /// The keys that it may hold.
    pub open spec fn keys(&self) -> Set<Seq<u8>> {
        atomic_bloom_keys(self.filter)
    }

    /// An empty filter.
    pub fn create(_granule_id: u32, expected_entries: u32, path: String) -> (r: Result<
        Self,
        RockDuckError,
    >)
        requires
            expected_entries * BITS_PER_ENTRY <= usize::MAX - 64,
        ensures
            match r {
                Ok(f) => f.keys() == Set::<Seq<u8>>::empty() && f.path == path,
                Err(_) => false,
            },
    {
        let num_bits: usize = optimal_bits(expected_entries as usize);
        let filter = atomic_bloom_new(num_bits, expected_entries as usize);
        Ok(AtomicGranuleBloomFilter { filter, path })
    }

    /// Adds a key.
    pub fn insert(&mut self, key: &[u8])
        ensures
            old(self).keys().insert(key@).subset_of(final(self).keys()),
            old(self).keys().contains(key@) ==> final(self).keys() == old(self).keys(),
            final(self).path == old(self).path,
    {
        atomic_bloom_insert(&mut self.filter, key);
    }

    /// Whether the granule may hold a key.
    pub fn might_contain(&self, key: &[u8]) -> (r: bool)
        ensures
            r == self.keys().contains(key@),
    {
        atomic_bloom_contains(&self.filter, key)
    }
}

/// A filter that is saved and loaded again may hold the keys that it did before,
/// if it is not too large to be read.
pub proof fn law_saved_filter_is_read_back(bytes: Seq<u8>, words: Seq<u64>, keys: Set<Seq<u8>>)
    requires
        bytes.len() <= MAX_STORED_BYTES,
        words.len() > 0,
        bincode_filter(bytes) == Some((words, keys, (0u64, 0u64))),
    ensures
        stored_filter(bytes) == Some((words, keys)),
{
}

} // verus!

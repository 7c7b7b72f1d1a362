//! The tag vocabulary: each distinct tag word gets the next free dense
//! identifier when it is first seen.

use std::collections::HashMap;
use vstd::prelude::*;
use vstd::slice::slice_to_vec;

verus! {

/// The fingerprint under which a word is filed.
pub open spec fn word_hash(word: Seq<u8>) -> u64
    decreases word.len(),
{
    if word.len() == 0 {
        0
    } else {
        ((word_hash(word.drop_last()) * 31 + word.last()) % 4294967291) as u64
    }
}

/// The vocabulary after one more word: a word that it holds changes
/// nothing, a new word goes to the end.
pub open spec fn with_word(words: Seq<Seq<u8>>, word: Seq<u8>) -> Seq<Seq<u8>> {
    if words.contains(word) {
        words
    } else {
        words.push(word)
    }
}

/// The distinct words of a sequence, in the order of their first occurrence.
pub open spec fn vocabulary(words: Seq<Seq<u8>>) -> Seq<Seq<u8>>
    decreases words.len(),
{
    if words.len() == 0 {
        Seq::empty()
    } else {
        with_word(vocabulary(words.drop_last()), words.last())
    }
}

/// The vocabulary after some more words, taken up one after the other.
pub open spec fn with_words(words: Seq<Seq<u8>>, more: Seq<Seq<u8>>) -> Seq<Seq<u8>>
    decreases more.len(),
{
    if more.len() == 0 {
        words
    } else {
        with_word(with_words(words, more.drop_last()), more.last())
    }
}

/// The identifier of a word of the vocabulary: its position.
pub open spec fn tag_of(words: Seq<Seq<u8>>, word: Seq<u8>) -> int {
    words.index_of(word)
}

/// In a vocabulary without repetition, a word's identifier is the one
/// position at which it stands.
pub proof fn lemma_tag_of(words: Seq<Seq<u8>>, word: Seq<u8>, at: int)
    requires
        words.no_duplicates(),
        0 <= at < words.len(),
        words[at] == word,
    ensures
        tag_of(words, word) == at,
{
    let found = words.index_of(word);
    assert(0 <= found < words.len() && words[found] == word);
}

/// Taking up a word keeps what was there, in place, and repeats nothing.
pub proof fn lemma_with_word(words: Seq<Seq<u8>>, word: Seq<u8>)
    requires
        words.no_duplicates(),
    ensures
        with_word(words, word).no_duplicates(),
        with_word(words, word).contains(word),
        words.is_prefix_of(with_word(words, word)),
        with_word(words, word).len() <= words.len() + 1,
{
    let grown = with_word(words, word);
    if !words.contains(word) {
        assert(grown[words.len() as int] == word);
        assert forall|i: int, j: int|
            0 <= i < grown.len() && 0 <= j < grown.len() && i != j implies grown[i]
            != grown[j] by {
            if i == words.len() {
                assert(words.contains(words[j]));
            } else if j == words.len() {
                assert(words.contains(words[i]));
            }
        }
    }
    assert(words =~= grown.subrange(0, words.len() as int));
}

/// Taking up several words keeps what was there, in place, repeats nothing,
/// and holds each of the words afterwards.
pub proof fn lemma_with_words(words: Seq<Seq<u8>>, more: Seq<Seq<u8>>)
    requires
        words.no_duplicates(),
    ensures
        with_words(words, more).no_duplicates(),
        words.is_prefix_of(with_words(words, more)),
        forall|k: int| 0 <= k < more.len() ==> with_words(words, more).contains(#[trigger] more[k]),
    decreases more.len(),
{
    if more.len() > 0 {
        let front = more.drop_last();
        let before = with_words(words, front);
        let grown = with_words(words, more);
        lemma_with_words(words, front);
        lemma_with_word(before, more.last());
        assert(words =~= grown.subrange(0, words.len() as int));
        assert forall|k: int| 0 <= k < more.len() implies grown.contains(#[trigger] more[k]) by {
            if k < front.len() {
                assert(before.contains(front[k]));
                let at = choose|at: int| 0 <= at < before.len() && before[at] == front[k];
                assert(grown[at] == more[k]);
            }
        }
    } else {
        assert(words =~= words.subrange(0, words.len() as int));
    }
}

/// A word keeps its identifier when the vocabulary grows.
pub proof fn lemma_tag_is_stable(words: Seq<Seq<u8>>, grown: Seq<Seq<u8>>, word: Seq<u8>)
    requires
        words.is_prefix_of(grown),
        grown.no_duplicates(),
        words.contains(word),
    ensures
        tag_of(grown, word) == tag_of(words, word),
        0 <= tag_of(words, word) < words.len(),
        grown.contains(word),
{
    let at = words.index_of(word);
    assert(grown.subrange(0, words.len() as int)[at] == word);
    lemma_tag_of(grown, word, at);
}

/// The vocabulary of a sequence of words holds no word twice.
pub proof fn lemma_vocabulary_distinct(words: Seq<Seq<u8>>)
    ensures
        vocabulary(words).no_duplicates(),
    decreases words.len(),
{
    if words.len() > 0 {
        lemma_vocabulary_distinct(words.drop_last());
        lemma_with_word(vocabulary(words.drop_last()), words.last());
    }
}

/// The vocabulary of a sequence of words holds each of them.
pub proof fn lemma_vocabulary_holds(words: Seq<Seq<u8>>, k: int)
    requires
        0 <= k < words.len(),
    ensures
        vocabulary(words).contains(words[k]),
    decreases words.len(),
{
    let front = words.drop_last();
    lemma_vocabulary_distinct(front);
    lemma_with_word(vocabulary(front), words.last());
    if k < front.len() {
        lemma_vocabulary_holds(front, k);
        let at = choose|at: int|
            0 <= at < vocabulary(front).len() && vocabulary(front)[at] == front[k];
        assert(vocabulary(words)[at] == words[k]);
    }
}

/// The vocabulary of two sequences of words, one after the other, is that
/// of the first with the words of the second taken up.
pub proof fn lemma_vocabulary_add(first: Seq<Seq<u8>>, second: Seq<Seq<u8>>)
    ensures
        vocabulary(first + second) == with_words(vocabulary(first), second),
    decreases second.len(),
{
    if second.len() == 0 {
        assert(first + second =~= first);
    } else {
        lemma_vocabulary_add(first, second.drop_last());
        assert((first + second).drop_last() =~= first + second.drop_last());
    }
}

/// The words seen so far, each once, with an index from fingerprint to the
/// identifiers of the words that have it.
pub struct Vocabulary {
    words: Vec<Vec<u8>>,
    index: HashMap<u64, Vec<u32>>,
}

/// Every identifier filed under `hash` is that of a word with that
/// fingerprint.
spec fn bucket_fits(words: Seq<Seq<u8>>, hash: u64, bucket: Seq<u32>) -> bool {
    forall|k: int|
        0 <= k < bucket.len() ==> (#[trigger] bucket[k]) < words.len() && word_hash(
            words[bucket[k] as int],
        ) == hash
}

/// The word with identifier `id` is filed under its fingerprint.
spec fn is_filed(words: Seq<Seq<u8>>, index: Map<u64, Vec<u32>>, id: int) -> bool {
    &&& index.contains_key(word_hash(words[id]))
    &&& index[word_hash(words[id])]@.contains(id as u32)
}

impl View for Vocabulary {
    type V = Seq<Seq<u8>>;

    closed spec fn view(&self) -> Seq<Seq<u8>> {
        self.words@.map_values(|w: Vec<u8>| w@)
    }
}

impl Vocabulary {
    /// No word is held twice, every identifier fits in 32 bits, and the
    /// index files every word under its fingerprint and nothing else.
    pub closed spec fn wf(&self) -> bool {
        &&& self@.no_duplicates()
        &&& self@.len() <= u32::MAX
        &&& forall|hash: u64| #[trigger]
            self.index@.contains_key(hash) ==> bucket_fits(self@, hash, self.index@[hash]@)
        &&& forall|id: int| 0 <= id < self@.len() ==> #[trigger] is_filed(self@, self.index@, id)
    }

    /// A vocabulary without words.
    pub fn new() -> (vocabulary: Vocabulary)
        ensures
            vocabulary.wf(),
            vocabulary@ == Seq::<Seq<u8>>::empty(),
    {
        let vocabulary = Vocabulary { words: Vec::new(), index: HashMap::new() };
        assert(vocabulary@ =~= Seq::<Seq<u8>>::empty());
        vocabulary
    }

    /// A well-formed vocabulary holds no word twice.
    pub proof fn lemma_distinct(&self)
        requires
            self.wf(),
        ensures
            self@.no_duplicates(),
    {
    }

    /// The number of words held.
    pub fn len(&self) -> (n: usize)
        ensures
            n == self@.len(),
    {
        self.words.len()
    }

    /// Gives the identifier of `word`, taking the word up if it is new.
    pub fn intern(&mut self, word: &[u8]) -> (id: u32)
        requires
            old(self).wf(),
            old(self)@.len() < u32::MAX,
        ensures
            final(self).wf(),
            final(self)@ == with_word(old(self)@, word@),
            id < final(self)@.len(),
            final(self)@[id as int] == word@,
    {
        let hash = hash_word(word);
        let ghost held = self@;
        let found = match self.index.get(&hash) {
            Some(bucket) => {
                assert(bucket_fits(held, hash, bucket@));
                find_in_bucket(&self.words, bucket, word)
            },
            None => None,
        };
        match found {
            Some(id) => {
                assert(held[id as int] == word@);
                assert(held.contains(word@));
                id
            },
            None => {
                proof {
                    if held.contains(word@) {
                        let at = choose|at: int| 0 <= at < held.len() && held[at] == word@;
                        assert(is_filed(held, self.index@, at));
                        let bucket = self.index@[hash]@;
                        let k = choose|k: int| 0 <= k < bucket.len() && bucket[k] == at as u32;
                        assert(held[bucket[k] as int] == word@);
                        assert(false);
                    }
                }
                let id = self.words.len() as u32;
                let ghost filed = self.index@;
                self.words.push(slice_to_vec(word));
                let mut bucket = match self.index.remove(&hash) {
                    Some(bucket) => bucket,
                    None => Vec::new(),
                };
                let ghost earlier = bucket@;
                bucket.push(id);
                self.index.insert(hash, bucket);
                proof {
                    let grown = held.push(word@);
                    assert(self@ =~= grown);
                    assert(filed.contains_key(hash) ==> earlier == filed[hash]@);
                    assert(!filed.contains_key(hash) ==> earlier.len() == 0);
                    assert(bucket_fits(held, hash, earlier)) by {
                        if filed.contains_key(hash) {
                            assert(bucket_fits(held, hash, filed[hash]@));
                        }
                    }
                    assert forall|other: u64| #[trigger]
                        self.index@.contains_key(other) implies bucket_fits(
                        grown,
                        other,
                        self.index@[other]@,
                    ) by {
                        if other == hash {
                            let now = self.index@[other]@;
                            assert forall|k: int| 0 <= k < now.len() implies (#[trigger] now[k])
                                < grown.len() && word_hash(grown[now[k] as int]) == other by {
                                if k < earlier.len() {
                                    assert(now[k] == earlier[k]);
                                }
                            }
                        } else {
                            assert(filed.contains_key(other));
                            assert(bucket_fits(held, other, filed[other]@));
                        }
                    }
                    assert forall|at: int| 0 <= at < grown.len() implies #[trigger] is_filed(
                        grown,
                        self.index@,
                        at,
                    ) by {
                        let now = self.index@[hash]@;
                        if at == held.len() {
                            assert(now[earlier.len() as int] == id);
                        } else {
                            assert(is_filed(held, filed, at));
                            if word_hash(held[at]) == hash {
                                let k = choose|k: int|
                                    0 <= k < earlier.len() && earlier[k] == at as u32;
                                assert(now[k] == at as u32);
                            }
                        }
                    }
                    assert forall|i: int, j: int|
                        0 <= i < grown.len() && 0 <= j < grown.len() && i != j implies grown[i]
                        != grown[j] by {
                        if i == held.len() {
                            assert(held.contains(held[j]));
                        } else if j == held.len() {
                            assert(held.contains(held[i]));
                        }
                    }
                }
                id
            },
        }
    }
}

/// Computes the fingerprint of a word.
fn hash_word(word: &[u8]) -> (hash: u64)
    ensures
        hash == word_hash(word@),
{
    let mut hash: u64 = 0;
    let mut i: usize = 0;
    while i < word.len()
        invariant
            i <= word@.len(),
            hash == word_hash(word@.take(i as int)),
            hash < 4294967291,
        decreases word@.len() - i,
    {
        proof {
            assert(word@.take(i + 1).drop_last() =~= word@.take(i as int));
        }
        hash = (hash * 31 + word[i] as u64) % 4294967291;
        i += 1;
    }
    proof {
        assert(word@.take(word@.len() as int) =~= word@);
    }
    hash
}

/// Tells whether two byte strings are the same.
fn same_bytes(a: &[u8], b: &[u8]) -> (same: bool)
    ensures
        same == (a@ == b@),
{
    if a.len() != b.len() {
        return false;
    }
    let mut i: usize = 0;
    while i < a.len()
        invariant
            i <= a@.len(),
            a@.len() == b@.len(),
            forall|k: int| 0 <= k < i ==> a@[k] == b@[k],
        decreases a@.len() - i,
    {
        if a[i] != b[i] {
            return false;
        }
        i += 1;
    }
    proof {
        assert(a@ =~= b@);
    }
    true
}

/// Looks among the identifiers of a bucket for the one of `word`.
fn find_in_bucket(words: &Vec<Vec<u8>>, bucket: &Vec<u32>, word: &[u8]) -> (found: Option<u32>)
    requires
        forall|k: int| 0 <= k < bucket@.len() ==> (#[trigger] bucket@[k]) < words@.len(),
    ensures
        match found {
            Some(id) => id < words@.len() && words@[id as int]@ == word@,
            None => forall|k: int|
                0 <= k < bucket@.len() ==> words@[(#[trigger] bucket@[k]) as int]@ != word@,
        },
{
    let mut k: usize = 0;
    while k < bucket.len()
        invariant
            k <= bucket@.len(),
            forall|j: int| 0 <= j < bucket@.len() ==> (#[trigger] bucket@[j]) < words@.len(),
            forall|j: int| 0 <= j < k ==> words@[(#[trigger] bucket@[j]) as int]@ != word@,
        decreases bucket@.len() - k,
    {
        let id = bucket[k];
        if same_bytes(words[id as usize].as_slice(), word) {
            return Some(id);
        }
        k += 1;
    }
    None
}

} // verus!

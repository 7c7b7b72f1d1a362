//! Reading pictures from their text form: a first line that is passed over,
//! then one record per line, made of an orientation, a tag count and the
//! tag words.

use vstd::prelude::*;
use vstd::slice::slice_subrange;
use crate::model::{Orientation, Picture, PictureModel, all_pictures_wf, picture_views};
use crate::tagset::{insert_tag, is_tag_set, lemma_tag_set_exists, lemma_tag_set_unique};
use crate::vocabulary::{
    Vocabulary, lemma_tag_is_stable, lemma_tag_of, lemma_vocabulary_add,
    lemma_vocabulary_distinct, lemma_vocabulary_holds, lemma_with_word, lemma_with_words, tag_of,
    vocabulary, with_words,
};

verus! {

/// The length of the space character that `text` begins with, or zero if it
/// begins with none. The space characters are those of Unicode, in UTF-8:
/// tab to carriage return, blank, next line, no-break space, ogham space
/// mark, en quad to hair space, line and paragraph separator, narrow
/// no-break space, medium mathematical space, ideographic space.
pub open spec fn space_len(text: Seq<u8>) -> int {
    if text.len() >= 1 && (text[0] == 0x20 || (0x09 <= text[0] && text[0] <= 0x0d)) {
        1
    } else if text.len() >= 2 && text[0] == 0xc2 && (text[1] == 0x85 || text[1] == 0xa0) {
        2
    } else if text.len() >= 3 && text[0] == 0xe1 && text[1] == 0x9a && text[2] == 0x80 {
        3
    } else if text.len() >= 3 && text[0] == 0xe2 && text[1] == 0x80 && ((0x80 <= text[2]
        && text[2] <= 0x8a) || text[2] == 0xa8 || text[2] == 0xa9 || text[2] == 0xaf) {
        3
    } else if text.len() >= 3 && text[0] == 0xe2 && text[1] == 0x81 && text[2] == 0x9f {
        3
    } else if text.len() >= 3 && text[0] == 0xe3 && text[1] == 0x80 && text[2] == 0x80 {
        3
    } else {
        0
    }
}

/// The number of bytes before the first line feed.
pub open spec fn line_len(text: Seq<u8>) -> int
    decreases text.len(),
{
    if text.len() == 0 || text[0] == 10 {
        0
    } else {
        1 + line_len(text.drop_first())
    }
}

/// The lines of a text. A line feed ends a line; what follows the last line
/// feed is a line only if it is not empty.
pub open spec fn lines_of(text: Seq<u8>) -> Seq<Seq<u8>>
    decreases text.len(),
{
    let n = line_len(text);
    if text.len() == 0 {
        Seq::empty()
    } else if 0 <= n < text.len() {
        seq![text.take(n)] + lines_of(text.skip(n + 1))
    } else {
        seq![text]
    }
}

/// The number of bytes before the first space character.
pub open spec fn word_len(text: Seq<u8>) -> int
    decreases text.len(),
{
    if text.len() == 0 || space_len(text) > 0 {
        0
    } else {
        1 + word_len(text.drop_first())
    }
}

/// The words of a line: its longest stretches without a space character.
pub open spec fn tokens_of(line: Seq<u8>) -> Seq<Seq<u8>>
    decreases line.len(),
{
    let n = word_len(line);
    if line.len() == 0 {
        Seq::empty()
    } else if space_len(line) > 0 {
        tokens_of(line.skip(space_len(line)))
    } else if 0 < n <= line.len() {
        seq![line.take(n)] + tokens_of(line.skip(n))
    } else {
        Seq::empty()
    }
}

/// The records of some lines: the words of each line but the first.
pub open spec fn records_from(lines: Seq<Seq<u8>>) -> Seq<Seq<Seq<u8>>> {
    if lines.len() == 0 {
        Seq::empty()
    } else {
        lines.drop_first().map_values(|line: Seq<u8>| tokens_of(line))
    }
}

/// The records of a text: the words of each of its lines but the first.
pub open spec fn records_of(text: Seq<u8>) -> Seq<Seq<Seq<u8>>> {
    records_from(lines_of(text))
}

/// A numeral is one decimal digit or more.
pub open spec fn is_numeral(word: Seq<u8>) -> bool {
    &&& word.len() > 0
    &&& forall|i: int| 0 <= i < word.len() ==> 48 <= #[trigger] word[i] <= 57
}

/// A record is well formed when it begins with `H` or `V` and a numeral.
pub open spec fn record_ok(record: Seq<Seq<u8>>) -> bool {
    &&& record.len() >= 2
    &&& (record[0] == seq![72u8] || record[0] == seq![86u8])
    &&& is_numeral(record[1])
}

/// The orientation that a well-formed record names.
pub open spec fn orientation_of(record: Seq<Seq<u8>>) -> Orientation {
    if record[0] == seq![72u8] {
        Orientation::Horizontal
    } else {
        Orientation::Vertical
    }
}

/// The tag words of a well-formed record: what follows the tag count.
pub open spec fn tag_words(record: Seq<Seq<u8>>) -> Seq<Seq<u8>> {
    record.skip(2)
}

/// The tag words of all the records, one record after the other.
pub open spec fn all_tag_words(records: Seq<Seq<Seq<u8>>>) -> Seq<Seq<u8>>
    decreases records.len(),
{
    if records.len() == 0 {
        Seq::empty()
    } else {
        all_tag_words(records.drop_last()) + tag_words(records.last())
    }
}

/// The identifiers that a vocabulary gives to some words.
pub open spec fn tag_ids(words: Seq<Seq<u8>>, named: Seq<Seq<u8>>) -> Set<u32> {
    Set::new(
        |tag: u32| exists|k: int| 0 <= k < named.len() && tag_of(words, #[trigger] named[k]) == tag,
    )
}

/// `tags` is the tag set of the identifiers of the words `named`.
pub open spec fn is_tags_of(tags: Seq<u32>, words: Seq<Seq<u8>>, named: Seq<Seq<u8>>) -> bool {
    &&& is_tag_set(tags)
    &&& tags.to_set() == tag_ids(words, named)
}

/// The picture that a well-formed record describes: its number is its
/// identifier, and its tags are the identifiers of its tag words.
pub open spec fn picture_of(
    words: Seq<Seq<u8>>,
    number: int,
    record: Seq<Seq<u8>>,
) -> PictureModel {
    PictureModel {
        id: number as u32,
        orientation: orientation_of(record),
        tags: choose|tags: Seq<u32>| is_tags_of(tags, words, tag_words(record)),
    }
}

/// The pictures that a text of well-formed records describes. Tag words are
/// numbered in the order in which they first occur in the text.
pub open spec fn pictures_of(text: Seq<u8>) -> Seq<PictureModel> {
    let records = records_of(text);
    let words = vocabulary(all_tag_words(records));
    Seq::new(records.len(), |i: int| picture_of(words, i, records[i]))
}

/// Record `at` is the first that is not well formed.
pub open spec fn is_first_malformed(records: Seq<Seq<Seq<u8>>>, at: int) -> bool {
    &&& 0 <= at < records.len()
    &&& !record_ok(records[at])
    &&& forall|i: int| 0 <= i < at ==> record_ok(#[trigger] records[i])
}

/// Every record is well formed.
pub open spec fn all_records_ok(records: Seq<Seq<Seq<u8>>>) -> bool {
    forall|i: int| 0 <= i < records.len() ==> record_ok(#[trigger] records[i])
}

/// Why a text could not be read.
#[derive(Debug, Clone, Copy, PartialEq, Eq)]
pub enum IngestError {
    /// The record with this number, counted from zero, does not begin with
    /// an orientation and a tag count.
    MalformedRecord { record: usize },
}

proof fn lemma_line_len(text: Seq<u8>, from: int, to: int)
    requires
        0 <= from <= to <= text.len(),
        forall|k: int| from <= k < to ==> text[k] != 10,
        to == text.len() || text[to] == 10,
    ensures
        line_len(text.skip(from)) == to - from,
    decreases to - from,
{
    let rest = text.skip(from);
    if from < to {
        lemma_line_len(text, from + 1, to);
        assert(rest.drop_first() =~= text.skip(from + 1));
    }
}

proof fn lemma_word_len(text: Seq<u8>, from: int, to: int, end: int)
    requires
        0 <= from <= to <= end <= text.len(),
        forall|k: int| from <= k < to ==> space_len(#[trigger] text.subrange(k, end)) == 0,
        to == end || space_len(text.subrange(to, end)) > 0,
    ensures
        word_len(text.subrange(from, end)) == to - from,
    decreases to - from,
{
    let rest = text.subrange(from, end);
    if from < to {
        lemma_word_len(text, from + 1, to, end);
        assert(rest.drop_first() =~= text.subrange(from + 1, end));
    }
}

/// Finds where the line that starts at `start` ends.
fn line_end(text: &[u8], start: usize) -> (end: usize)
    requires
        start <= text@.len(),
    ensures
        start <= end <= text@.len(),
        line_len(text@.skip(start as int)) == end - start,
        end < text@.len() ==> text@[end as int] == 10,
{
    let mut end = start;
    while end < text.len() && text[end] != 10
        invariant
            start <= end <= text@.len(),
            forall|k: int| start <= k < end ==> text@[k] != 10,
        decreases text@.len() - end,
    {
        end += 1;
    }
    proof {
        lemma_line_len(text@, start as int, end as int);
    }
    end
}

/// Measures the space character that stands in `text` at `at`, before
/// `end`: zero if none stands there.
fn space_at(text: &[u8], at: usize, end: usize) -> (len: usize)
    requires
        at <= end <= text@.len(),
    ensures
        len == space_len(text@.subrange(at as int, end as int)),
        at + len <= end,
{
    let ghost rest = text@.subrange(at as int, end as int);
    let left = end - at;
    if left == 0 {
        return 0;
    }
    let first = text[at];
    assert(rest[0] == first);
    if first == 0x20 || (0x09 <= first && first <= 0x0d) {
        return 1;
    }
    if left < 2 {
        return 0;
    }
    let second = text[at + 1];
    assert(rest[1] == second);
    if first == 0xc2 && (second == 0x85 || second == 0xa0) {
        return 2;
    }
    if left < 3 {
        return 0;
    }
    let third = text[at + 2];
    assert(rest[2] == third);
    if first == 0xe1 && second == 0x9a && third == 0x80 {
        return 3;
    }
    if first == 0xe2 && second == 0x80 && ((0x80 <= third && third <= 0x8a) || third == 0xa8
        || third == 0xa9 || third == 0xaf) {
        return 3;
    }
    if first == 0xe2 && second == 0x81 && third == 0x9f {
        return 3;
    }
    if first == 0xe3 && second == 0x80 && third == 0x80 {
        return 3;
    }
    0
}

/// Finds the next word in `text` between `from` and `end`.
fn next_token(text: &[u8], from: usize, end: usize) -> (found: Option<(usize, usize)>)
    requires
        from <= end <= text@.len(),
    ensures
        match found {
            Some((lo, hi)) => {
                &&& from <= lo < hi <= end
                &&& tokens_of(text@.subrange(from as int, end as int)) == seq![
                    text@.subrange(lo as int, hi as int),
                ] + tokens_of(text@.subrange(hi as int, end as int))
            },
            None => tokens_of(text@.subrange(from as int, end as int)) == Seq::<Seq<u8>>::empty(),
        },
{
    let mut lo = from;
    let mut step = space_at(text, lo, end);
    while step > 0
        invariant
            from <= lo <= end <= text@.len(),
            step == space_len(text@.subrange(lo as int, end as int)),
            lo + step <= end,
            tokens_of(text@.subrange(from as int, end as int)) == tokens_of(
                text@.subrange(lo as int, end as int),
            ),
        decreases end - lo,
    {
        proof {
            let rest = text@.subrange(lo as int, end as int);
            assert(rest.skip(step as int) =~= text@.subrange(lo + step, end as int));
        }
        lo += step;
        step = space_at(text, lo, end);
    }
    if lo == end {
        return None;
    }
    let mut hi = lo + 1;
    while hi < end && space_at(text, hi, end) == 0
        invariant
            lo < hi <= end <= text@.len(),
            forall|k: int|
                lo <= k < hi ==> space_len(#[trigger] text@.subrange(k, end as int)) == 0,
        decreases end - hi,
    {
        hi += 1;
    }
    proof {
        let rest = text@.subrange(lo as int, end as int);
        lemma_word_len(text@, lo as int, hi as int, end as int);
        assert(rest.take(hi - lo) =~= text@.subrange(lo as int, hi as int));
        assert(rest.skip(hi - lo) =~= text@.subrange(hi as int, end as int));
    }
    Some((lo, hi))
}

/// The picture is the one that the record describes under the vocabulary,
/// which holds every tag word of the record.
spec fn matches_record(
    picture: PictureModel,
    words: Seq<Seq<u8>>,
    number: int,
    record: Seq<Seq<u8>>,
) -> bool {
    &&& picture.id == number
    &&& picture.orientation == orientation_of(record)
    &&& is_tags_of(picture.tags, words, tag_words(record))
    &&& forall|k: int|
        0 <= k < tag_words(record).len() ==> words.contains(#[trigger] tag_words(record)[k])
}

proof fn lemma_tag_ids_stable(words: Seq<Seq<u8>>, grown: Seq<Seq<u8>>, named: Seq<Seq<u8>>)
    requires
        words.is_prefix_of(grown),
        grown.no_duplicates(),
        forall|k: int| 0 <= k < named.len() ==> words.contains(#[trigger] named[k]),
    ensures
        tag_ids(grown, named) == tag_ids(words, named),
        forall|k: int| 0 <= k < named.len() ==> grown.contains(#[trigger] named[k]),
{
    assert forall|k: int| 0 <= k < named.len() implies tag_of(grown, #[trigger] named[k]) == tag_of(
        words,
        named[k],
    ) && grown.contains(named[k]) by {
        lemma_tag_is_stable(words, grown, named[k]);
    }
    assert forall|tag: u32| tag_ids(grown, named).contains(tag) <==> tag_ids(
        words,
        named,
    ).contains(tag) by {
        if tag_ids(grown, named).contains(tag) {
            let k = choose|k: int|
                0 <= k < named.len() && tag_of(grown, #[trigger] named[k]) == tag;
            assert(tag_of(words, named[k]) == tag);
        }
        if tag_ids(words, named).contains(tag) {
            let k = choose|k: int|
                0 <= k < named.len() && tag_of(words, #[trigger] named[k]) == tag;
            assert(tag_of(grown, named[k]) == tag);
        }
    }
    assert(tag_ids(grown, named) =~= tag_ids(words, named));
}

proof fn lemma_tag_ids_push(
    words: Seq<Seq<u8>>,
    grown: Seq<Seq<u8>>,
    named: Seq<Seq<u8>>,
    word: Seq<u8>,
    id: u32,
)
    requires
        words.is_prefix_of(grown),
        grown.no_duplicates(),
        forall|k: int| 0 <= k < named.len() ==> words.contains(#[trigger] named[k]),
        id < grown.len(),
        grown[id as int] == word,
    ensures
        tag_ids(grown, named.push(word)) == tag_ids(words, named).insert(id),
        forall|k: int|
            0 <= k < named.push(word).len() ==> grown.contains(#[trigger] named.push(word)[k]),
{
    let longer = named.push(word);
    lemma_tag_ids_stable(words, grown, named);
    lemma_tag_of(grown, word, id as int);
    assert forall|tag: u32| tag_ids(grown, longer).contains(tag) <==> tag_ids(words, named).insert(
        id,
    ).contains(tag) by {
        if tag_ids(grown, longer).contains(tag) {
            let k = choose|k: int|
                0 <= k < longer.len() && tag_of(grown, #[trigger] longer[k]) == tag;
            if k < named.len() {
                assert(longer[k] == named[k]);
                assert(tag_of(grown, named[k]) == tag);
                assert(tag_ids(grown, named).contains(tag));
            }
        }
        if tag_ids(words, named).insert(id).contains(tag) {
            if tag == id {
                assert(tag_of(grown, longer[named.len() as int]) == tag);
            } else {
                assert(tag_ids(grown, named).contains(tag));
                let k = choose|k: int|
                    0 <= k < named.len() && tag_of(grown, #[trigger] named[k]) == tag;
                assert(tag_of(grown, longer[k]) == tag);
            }
        }
    }
    assert(tag_ids(grown, longer) =~= tag_ids(words, named).insert(id));
    assert forall|k: int| 0 <= k < longer.len() implies grown.contains(#[trigger] longer[k]) by {
        if k < named.len() {
            assert(grown.contains(named[k]));
        }
    }
}

proof fn lemma_matches_stable(
    picture: PictureModel,
    words: Seq<Seq<u8>>,
    grown: Seq<Seq<u8>>,
    number: int,
    record: Seq<Seq<u8>>,
)
    requires
        matches_record(picture, words, number, record),
        words.is_prefix_of(grown),
        grown.no_duplicates(),
    ensures
        matches_record(picture, grown, number, record),
{
    lemma_tag_ids_stable(words, grown, tag_words(record));
}

proof fn lemma_matches_gives_picture(
    picture: PictureModel,
    words: Seq<Seq<u8>>,
    number: int,
    record: Seq<Seq<u8>>,
)
    requires
        matches_record(picture, words, number, record),
    ensures
        picture == picture_of(words, number, record),
{
    let chosen = picture_of(words, number, record).tags;
    assert(is_tags_of(picture.tags, words, tag_words(record)));
    assert(is_tags_of(chosen, words, tag_words(record)));
    lemma_tag_set_unique(picture.tags, chosen);
}

proof fn lemma_tag_ids_finite(words: Seq<Seq<u8>>, named: Seq<Seq<u8>>)
    ensures
        tag_ids(words, named).finite(),
    decreases named.len(),
{
    if named.len() == 0 {
        assert(tag_ids(words, named) =~= Set::<u32>::empty());
    } else {
        let front = named.drop_last();
        lemma_tag_ids_finite(words, front);
        let last = tag_of(words, named.last()) as u32;
        let wider = tag_ids(words, front).insert(last);
        assert forall|tag: u32| tag_ids(words, named).contains(tag) implies wider.contains(tag) by {
            let k = choose|k: int|
                0 <= k < named.len() && tag_of(words, #[trigger] named[k]) == tag;
            if k < front.len() {
                assert(tag_of(words, front[k]) == tag);
            }
        }
        vstd::set_lib::lemma_set_subset_finite(wider, tag_ids(words, named));
    }
}

/// The tags of the picture that a record describes are a tag set, and they
/// are the identifiers of the record's tag words.
pub proof fn lemma_picture_of(words: Seq<Seq<u8>>, number: int, record: Seq<Seq<u8>>)
    ensures
        is_tags_of(picture_of(words, number, record).tags, words, tag_words(record)),
        picture_of(words, number, record).wf(),
{
    lemma_tag_ids_finite(words, tag_words(record));
    lemma_tag_set_exists(tag_ids(words, tag_words(record)));
    let listed = choose|listed: Seq<u32>|
        is_tag_set(listed) && listed.to_set() == tag_ids(words, tag_words(record));
    assert(is_tags_of(listed, words, tag_words(record)));
}

proof fn lemma_tag_words_are_among_all(records: Seq<Seq<Seq<u8>>>, i: int, k: int)
    requires
        0 <= i < records.len(),
        0 <= k < tag_words(records[i]).len(),
    ensures
        all_tag_words(records).contains(tag_words(records[i])[k]),
    decreases records.len(),
{
    let front = records.drop_last();
    let all = all_tag_words(records);
    if i < front.len() {
        lemma_tag_words_are_among_all(front, i, k);
        let at = choose|at: int|
            0 <= at < all_tag_words(front).len() && all_tag_words(front)[at] == tag_words(
                records[i],
            )[k];
        assert(all[at] == tag_words(records[i])[k]);
    } else {
        assert(all[all_tag_words(front).len() + k] == tag_words(records[i])[k]);
    }
}

/// Tags are dense identifiers: every tag of every picture read from a text
/// of well-formed records is the position of a word in the vocabulary of
/// the text, so it is below the number of distinct tag words.
pub proof fn lemma_tags_are_below_vocabulary(text: Seq<u8>, i: int, k: int)
    requires
        all_records_ok(records_of(text)),
        0 <= i < pictures_of(text).len(),
        0 <= k < pictures_of(text)[i].tags.len(),
    ensures
        pictures_of(text)[i].tags[k] < vocabulary(all_tag_words(records_of(text))).len(),
{
    let records = records_of(text);
    let words = vocabulary(all_tag_words(records));
    let named = tag_words(records[i]);
    let tags = pictures_of(text)[i].tags;
    lemma_picture_of(words, i, records[i]);
    assert(tags.to_set().contains(tags[k])) by {
        assert(tags.contains(tags[k]));
    }
    let j = choose|j: int| 0 <= j < named.len() && tag_of(words, #[trigger] named[j]) == tags[k];
    lemma_tag_words_are_among_all(records, i, j);
    let all = all_tag_words(records);
    let at = choose|at: int| 0 <= at < all.len() && all[at] == named[j];
    lemma_vocabulary_holds(all, at);
}

/// Tells whether the bytes of `text` between `lo` and `hi` are a numeral.
fn range_is_numeral(text: &[u8], lo: usize, hi: usize) -> (numeral: bool)
    requires
        lo <= hi <= text@.len(),
    ensures
        numeral == is_numeral(text@.subrange(lo as int, hi as int)),
{
    let ghost word = text@.subrange(lo as int, hi as int);
    if lo == hi {
        return false;
    }
    let mut k = lo;
    while k < hi
        invariant
            lo <= k <= hi <= text@.len(),
            word == text@.subrange(lo as int, hi as int),
            forall|j: int| 0 <= j < k - lo ==> 48 <= #[trigger] word[j] <= 57,
        decreases hi - k,
    {
        let byte = text[k];
        if byte < 48 || byte > 57 {
            assert(word[k - lo] == byte);
            return false;
        }
        k += 1;
    }
    true
}

/// Reads the record that stands in `text` between `start` and `end` as the
/// picture with the given number, taking its tag words up into the
/// vocabulary. A record that is not well formed gives nothing and leaves the
/// vocabulary as it was.
fn parse_record(
    text: &[u8],
    start: usize,
    end: usize,
    number: u32,
    vocabulary: &mut Vocabulary,
) -> (parsed: Option<Picture>)
    requires
        start <= end <= text@.len() <= u32::MAX,
        old(vocabulary).wf(),
        old(vocabulary)@.len() <= start,
    ensures
        final(vocabulary).wf(),
        final(vocabulary)@.len() <= end,
        match parsed {
            Some(picture) => {
                let record = tokens_of(text@.subrange(start as int, end as int));
                &&& record_ok(record)
                &&& final(vocabulary)@ == with_words(old(vocabulary)@, tag_words(record))
                &&& matches_record(picture@, final(vocabulary)@, number as int, record)
            },
            None => {
                &&& !record_ok(tokens_of(text@.subrange(start as int, end as int)))
                &&& final(vocabulary)@ == old(vocabulary)@
            },
        },
{
    let ghost record = tokens_of(text@.subrange(start as int, end as int));
    let ghost held = vocabulary@;
    let (a, b) = match next_token(text, start, end) {
        Some(found) => found,
        None => {
            return None;
        },
    };
    let ghost first = text@.subrange(a as int, b as int);
    assert(record[0] == first);
    if b - a != 1 {
        return None;
    }
    let letter = text[a];
    assert(first =~= seq![letter]);
    assert(seq![letter][0] == letter);
    let orientation = if letter == 72 {
        Orientation::Horizontal
    } else if letter == 86 {
        assert(seq![86u8][0] != seq![72u8][0]);
        Orientation::Vertical
    } else {
        assert(seq![72u8][0] != letter && seq![86u8][0] != letter);
        return None;
    };
    let (c, d) = match next_token(text, b, end) {
        Some(found) => found,
        None => {
            assert(record =~= seq![first]);
            return None;
        },
    };
    let ghost second = text@.subrange(c as int, d as int);
    assert(record[1] == second);
    if !range_is_numeral(text, c, d) {
        return None;
    }
    assert(is_numeral(second));
    assert(record_ok(record));
    let ghost head = seq![first, second];
    let mut tags: Vec<u32> = Vec::new();
    let mut cur = d;
    let ghost mut seen: Seq<Seq<u8>> = Seq::empty();
    let mut token = next_token(text, cur, end);
    proof {
        vocabulary.lemma_distinct();
        assert(record =~= head + seen + tokens_of(text@.subrange(cur as int, end as int)));
        assert(tags@.to_set() =~= tag_ids(vocabulary@, seen));
    }
    while token.is_some()
        invariant
            start <= cur <= end <= text@.len() <= u32::MAX,
            head.len() == 2,
            record == head + seen + tokens_of(text@.subrange(cur as int, end as int)),
            match token {
                Some((lo, hi)) => {
                    &&& cur <= lo < hi <= end
                    &&& tokens_of(text@.subrange(cur as int, end as int)) == seq![
                        text@.subrange(lo as int, hi as int),
                    ] + tokens_of(text@.subrange(hi as int, end as int))
                },
                None => tokens_of(text@.subrange(cur as int, end as int)) == Seq::<
                    Seq<u8>,
                >::empty(),
            },
            vocabulary.wf(),
            vocabulary@.no_duplicates(),
            vocabulary@ == with_words(held, seen),
            vocabulary@.len() <= cur,
            is_tags_of(tags@, vocabulary@, seen),
            forall|j: int| 0 <= j < seen.len() ==> vocabulary@.contains(#[trigger] seen[j]),
        decreases end - cur,
    {
        let (lo, hi) = token.unwrap();
        let word = slice_subrange(text, lo, hi);
        let ghost before = vocabulary@;
        let ghost rest = tokens_of(text@.subrange(hi as int, end as int));
        let id = vocabulary.intern(word);
        insert_tag(&mut tags, id);
        proof {
            lemma_with_word(before, word@);
            lemma_tag_ids_push(before, vocabulary@, seen, word@, id);
            assert(seen.push(word@).drop_last() =~= seen);
            assert(head + seen + (seq![word@] + rest) =~= head + seen.push(word@) + rest);
            seen = seen.push(word@);
        }
        cur = hi;
        token = next_token(text, cur, end);
    }
    proof {
        assert(record =~= head + seen);
        assert(tag_words(record) =~= seen);
    }
    Some(Picture { id: number, orientation, tags })
}

/// Reads the pictures of a text. The first line is passed over; every other
/// line is a record: `H` or `V`, a tag count, and the tag words, with spaces
/// between them. The pictures are numbered from zero in the order of their
/// lines, the tag words in the order in which they first occur, and the tags
/// of each picture come out ascending, each once. The tag count is not held
/// against the number of tag words.
pub fn parse_pictures(text: &[u8]) -> (result: Result<Vec<Picture>, IngestError>)
    requires
        text@.len() <= u32::MAX,
    ensures
        result is Ok <==> all_records_ok(records_of(text@)),
        match result {
            Ok(pictures) => {
                &&& picture_views(pictures@) == pictures_of(text@)
                &&& all_pictures_wf(picture_views(pictures@))
                &&& pictures@.len() <= text@.len()
            },
            Err(IngestError::MalformedRecord { record }) => is_first_malformed(
                records_of(text@),
                record as int,
            ),
        },
{
    let mut pictures: Vec<Picture> = Vec::new();
    let mut known = Vocabulary::new();
    let mut pos: usize = 0;
    let mut line_no: usize = 0;
    let ghost mut lines: Seq<Seq<u8>> = Seq::empty();
    proof {
        assert(text@.skip(0) =~= text@);
        assert(lines + lines_of(text@.skip(0)) =~= lines_of(text@));
        assert(records_from(lines) =~= Seq::<Seq<Seq<u8>>>::empty());
    }
    while pos < text.len()
        invariant
            pos <= text@.len() <= u32::MAX,
            lines_of(text@) == lines + lines_of(text@.skip(pos as int)),
            lines.len() == line_no,
            line_no <= pos,
            pictures@.len() == records_from(lines).len(),
            records_from(lines).len() == if line_no == 0 { 0 } else { line_no - 1 },
            all_records_ok(records_from(lines)),
            known.wf(),
            known@ == vocabulary(all_tag_words(records_from(lines))),
            known@.len() <= pos,
            forall|i: int|
                0 <= i < pictures@.len() ==> matches_record(
                    #[trigger] picture_views(pictures@)[i],
                    known@,
                    i,
                    records_from(lines)[i],
                ),
        decreases text@.len() - pos,
    {
        let end = line_end(text, pos);
        let ghost line = text@.subrange(pos as int, end as int);
        let ghost rest = text@.skip(pos as int);
        let ghost done = records_from(lines);
        let ghost held = known@;
        let ghost shown = picture_views(pictures@);
        let next = if end < text.len() {
            end + 1
        } else {
            end
        };
        proof {
            if end < text@.len() {
                assert(rest.take(end - pos) =~= line);
                assert(rest.skip(end - pos + 1) =~= text@.skip(next as int));
            } else {
                assert(rest =~= line);
                assert(lines_of(text@.skip(next as int)) =~= Seq::<Seq<u8>>::empty());
            }
            assert(lines_of(rest) =~= seq![line] + lines_of(text@.skip(next as int)));
            assert(lines + lines_of(rest) =~= lines.push(line) + lines_of(text@.skip(next as int)));
        }
        if line_no > 0 {
            let number = pictures.len();
            proof {
                lemma_records_grow(lines, line);
                lemma_vocabulary_distinct(all_tag_words(done));
                lemma_record_in_text(
                    lines.push(line),
                    lines_of(text@.skip(next as int)),
                    number as int,
                );
            }
            match parse_record(text, pos, end, number as u32, &mut known) {
                None => {
                    proof {
                        assert forall|i: int| 0 <= i < number implies record_ok(
                            #[trigger] records_of(text@)[i],
                        ) by {
                            lemma_record_in_text(
                                lines.push(line),
                                lines_of(text@.skip(next as int)),
                                i,
                            );
                            assert(record_ok(done[i]));
                        }
                    }
                    return Err(IngestError::MalformedRecord { record: number });
                },
                Some(picture) => {
                    pictures.push(picture);
                    proof {
                        let record = tokens_of(line);
                        let now = records_from(lines.push(line));
                        assert(now =~= done.push(record));
                        assert(now.drop_last() =~= done);
                        lemma_vocabulary_add(all_tag_words(done), tag_words(record));
                        lemma_with_words(held, tag_words(record));
                        assert(picture_views(pictures@) =~= shown.push(picture@));
                        assert forall|i: int| 0 <= i < pictures@.len() implies matches_record(
                            #[trigger] picture_views(pictures@)[i],
                            known@,
                            i,
                            now[i],
                        ) by {
                            if i < number {
                                assert(matches_record(shown[i], held, i, done[i]));
                                lemma_matches_stable(shown[i], held, known@, i, done[i]);
                            }
                        }
                        assert forall|i: int| 0 <= i < now.len() implies record_ok(
                            #[trigger] now[i],
                        ) by {
                            if i < number {
                                assert(record_ok(done[i]));
                            }
                        }
                    }
                },
            }
        } else {
            proof {
                assert(records_from(lines.push(line)) =~= Seq::<Seq<Seq<u8>>>::empty());
            }
        }
        proof {
            lines = lines.push(line);
        }
        line_no += 1;
        pos = next;
    }
    proof {
        assert(lines_of(text@.skip(pos as int)) =~= Seq::<Seq<u8>>::empty());
        assert(lines + Seq::<Seq<u8>>::empty() =~= lines);
        let records = records_of(text@);
        assert(records == records_from(lines));
        assert forall|i: int| 0 <= i < pictures@.len() implies picture_views(pictures@)[i]
            == pictures_of(text@)[i] by {
            lemma_matches_gives_picture(picture_views(pictures@)[i], known@, i, records[i]);
        }
        assert(picture_views(pictures@) =~= pictures_of(text@));
        assert forall|i: int| 0 <= i < pictures@.len() implies (#[trigger] picture_views(
            pictures@,
        )[i]).wf() by {
            assert(matches_record(picture_views(pictures@)[i], known@, i, records[i]));
        }
    }
    Ok(pictures)
}

proof fn lemma_records_grow(lines: Seq<Seq<u8>>, line: Seq<u8>)
    requires
        lines.len() > 0,
    ensures
        records_from(lines.push(line)) == records_from(lines).push(tokens_of(line)),
{
    assert(records_from(lines.push(line)) =~= records_from(lines).push(tokens_of(line)));
}

proof fn lemma_record_in_text(lines: Seq<Seq<u8>>, more: Seq<Seq<u8>>, at: int)
    requires
        0 <= at < records_from(lines).len(),
    ensures
        at < records_from(lines + more).len(),
        records_from(lines + more)[at] == records_from(lines)[at],
{
}

} // verus!

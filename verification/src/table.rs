//! The word frequency table: for each word, how often it occurred under each tag.
//!
//! The table is specified as a map from words to maps from tag names to counts. A
//! word is in the table once it was recorded; a tag is in a word's map once the word
//! was recorded under it; no count is zero.
//!
//! The table also keeps the number of recordings made. No count can exceed it, so a
//! table that has room for one more recording has room for it in every count.

use crate::assoc::{
    has_key, keys_distinct, lemma_absent, lemma_empty, lemma_lookup, lemma_push, lemma_size,
    lemma_update, to_map,
};
use crate::text::{normalized_words, views, words_of};
use vstd::prelude::*;

verus! {

/// For one word: the tags it occurred under, each with its count.
pub type TagCounts = Map<Seq<char>, nat>;

/// For each word: its counts by tag.
pub type Counts = Map<Seq<char>, TagCounts>;

/// The counts of `word` by tag; none before the word was recorded.
pub open spec fn tags_of(counts: Counts, word: Seq<char>) -> TagCounts {
    if counts.contains_key(word) {
        counts[word]
    } else {
        Map::empty()
    }
}

/// How often `word` was recorded under `tag`; 0 where it never was.
pub open spec fn count_of(counts: Counts, word: Seq<char>, tag: Seq<char>) -> nat {
    if tags_of(counts, word).contains_key(tag) {
        tags_of(counts, word)[tag]
    } else {
        0
    }
}

/// The table after one more occurrence of `word` under `tag`: that count is one
/// larger, and the word and the tag are entered if they were not.
pub open spec fn record(counts: Counts, word: Seq<char>, tag: Seq<char>) -> Counts {
    counts.insert(word, tags_of(counts, word).insert(tag, count_of(counts, word, tag) + 1))
}

/// The table after recording each of `words` under `tag`, first to last.
pub open spec fn record_all(counts: Counts, words: Seq<Seq<char>>, tag: Seq<char>) -> Counts
    decreases words.len(),
{
    if words.len() == 0 {
        counts
    } else {
        record(record_all(counts, words.drop_last(), tag), words.last(), tag)
    }
}

/// How often `word` occurs in `words`.
pub open spec fn occurrences(words: Seq<Seq<char>>, word: Seq<char>) -> nat
    decreases words.len(),
{
    if words.len() == 0 {
        0
    } else {
        occurrences(words.drop_last(), word) + if words.last() == word {
            1nat
        } else {
            0nat
        }
    }
}

/// One tag of a word, with the number of times the word occurred under it.
pub struct TagCount {
    tag: String,
    count: usize,
}

/// One word of the table, with its tags.
pub struct WordEntry {
    word: String,
    tags: Vec<TagCount>,
}

/// The word frequency table.
pub struct WordTable {
    entries: Vec<WordEntry>,
    total: usize,
}

impl TagCount {
    spec fn pair(self) -> (Seq<char>, nat) {
        (self.tag@, self.count as nat)
    }
}

spec fn tag_pairs(tags: Seq<TagCount>) -> Seq<(Seq<char>, nat)> {
    tags.map_values(|t: TagCount| t.pair())
}

impl WordEntry {
    spec fn counts(self) -> TagCounts {
        to_map(tag_pairs(self.tags@))
    }

    spec fn pair(self) -> (Seq<char>, TagCounts) {
        (self.word@, self.counts())
    }

    spec fn wf(self, total: nat) -> bool {
        &&& self.tags.len() > 0
        &&& keys_distinct(tag_pairs(self.tags@))
        &&& forall|j: int| 0 <= j < self.tags.len() ==> 1 <= (#[trigger] self.tags[j]).count <= total
    }
}

spec fn entry_pairs(entries: Seq<WordEntry>) -> Seq<(Seq<char>, TagCounts)> {
    entries.map_values(|e: WordEntry| e.pair())
}

fn find_tag(tags: &Vec<TagCount>, tag: &str) -> (found: Option<usize>)
    ensures
        match found {
            Some(j) => j < tags.len() && tags[j as int].tag@ == tag@,
            None => forall|j: int| 0 <= j < tags.len() ==> (#[trigger] tags[j]).tag@ != tag@,
        },
{
    let mut j: usize = 0;
    while j < tags.len()
        invariant
            j <= tags.len(),
            forall|k: int| 0 <= k < j ==> (#[trigger] tags[k]).tag@ != tag@,
        decreases tags.len() - j,
    {
        if *tags[j].tag.as_str() == *tag {
            return Some(j);
        }
        j = j + 1;
    }
    None
}

fn find_word(entries: &Vec<WordEntry>, word: &str) -> (found: Option<usize>)
    ensures
        match found {
            Some(i) => i < entries.len() && entries[i as int].word@ == word@,
            None => forall|i: int| 0 <= i < entries.len() ==> (#[trigger] entries[i]).word@ != word@,
        },
{
    let mut i: usize = 0;
    while i < entries.len()
        invariant
            i <= entries.len(),
            forall|k: int| 0 <= k < i ==> (#[trigger] entries[k]).word@ != word@,
        decreases entries.len() - i,
    {
        if *entries[i].word.as_str() == *word {
            return Some(i);
        }
        i = i + 1;
    }
    None
}

/// What a list of tags with their counts says: its pairs, by their views.
pub open spec fn row_pairs(rows: Seq<(String, usize)>) -> Seq<(Seq<char>, nat)> {
    rows.map_values(|row: (String, usize)| (row.0@, row.1 as nat))
}

impl View for WordTable {
    type V = Counts;

    closed spec fn view(&self) -> Counts {
        to_map(entry_pairs(self.entries@))
    }
}

impl WordTable {
    /// The invariant of the table: no word and, within a word, no tag is kept twice;
    /// every word has a tag; every count is at least 1 and at most the number of
    /// recordings.
    pub closed spec fn wf(&self) -> bool {
        &&& keys_distinct(entry_pairs(self.entries@))
        &&& forall|i: int| 0 <= i < self.entries.len() ==> (#[trigger] self.entries[i]).wf(self.total as nat)
    }

    /// The number of recordings made so far.
    pub closed spec fn recorded(&self) -> nat {
        self.total as nat
    }

    /// An empty table.
    pub fn new() -> (table: WordTable)
        ensures
            table.wf(),
            table@ == Map::<Seq<char>, TagCounts>::empty(),
            table.recorded() == 0,
    {
        let table = WordTable { entries: Vec::new(), total: 0 };
        proof {
            lemma_empty::<Seq<char>, TagCounts>();
        }
        table
    }

    /// The number of recordings made so far: the sum of all counts.
    pub fn total(&self) -> (total: usize)
        ensures
            total == self.recorded(),
    {
        self.total
    }

    /// How often `word` was recorded under `tag`; 0 where it never was.
    pub fn count(&self, word: &str, tag: &str) -> (count: usize)
        requires
            self.wf(),
        ensures
            count == count_of(self@, word@, tag@),
    {
        let ghost rows = entry_pairs(self.entries@);
        match find_word(&self.entries, word) {
            Some(i) => {
                let entry = &self.entries[i];
                let ghost pairs = tag_pairs(entry.tags@);
                proof {
                    lemma_lookup(rows, i as int);
                }
                match find_tag(&entry.tags, tag) {
                    Some(j) => {
                        proof {
                            lemma_lookup(pairs, j as int);
                        }
                        entry.tags[j].count
                    },
                    None => {
                        proof {
                            lemma_absent(pairs, tag@);
                        }
                        0
                    },
                }
            },
            None => {
                proof {
                    lemma_absent(rows, word@);
                }
                0
            },
        }
    }

    /// Records one occurrence of `word` under `tag`.
    pub fn record(&mut self, word: &str, tag: &str)
        requires
            old(self).wf(),
            old(self).recorded() < usize::MAX,
        ensures
            final(self).wf(),
            final(self)@ == record(old(self)@, word@, tag@),
            final(self).recorded() == old(self).recorded() + 1,
    {
        let ghost rows = entry_pairs(self.entries@);
        let ghost before = self.entries@;
        self.total = self.total + 1;
        match find_word(&self.entries, word) {
            Some(i) => {
                let ghost pairs = tag_pairs(before[i as int].tags@);
                proof {
                    lemma_lookup(rows, i as int);
                }
                match find_tag(&self.entries[i].tags, tag) {
                    Some(j) => {
                        let count = self.entries[i].tags[j].count;
                        self.entries[i].tags[j].count = count + 1;
                        proof {
                            lemma_lookup(pairs, j as int);
                            lemma_update(pairs, j as int, (count + 1) as nat);
                            assert(tag_pairs(self.entries[i as int].tags@) == pairs.update(
                                j as int,
                                (tag@, (count + 1) as nat),
                            ));
                        }
                    },
                    None => {
                        let ghost tags_before = self.entries[i as int].tags@;
                        let fresh = TagCount { tag: tag.to_owned(), count: 1 };
                        self.entries[i].tags.push(fresh);
                        proof {
                            lemma_absent(pairs, tag@);
                            lemma_push(pairs, tag@, 1nat);
                            assert(tag_pairs(tags_before.push(fresh)) == pairs.push((tag@, 1nat)));
                        }
                    },
                }
                proof {
                    let after = self.entries[i as int].counts();
                    lemma_update(rows, i as int, after);
                    assert(entry_pairs(self.entries@) == rows.update(i as int, (word@, after)));
                    assert forall|k: int| 0 <= k < self.entries.len() implies (
                    #[trigger] self.entries[k]).wf(self.total as nat) by {
                        assert(before[k].wf((self.total - 1) as nat));
                    }
                }
            },
            None => {
                let fresh = TagCount { tag: tag.to_owned(), count: 1 };
                let mut tags: Vec<TagCount> = Vec::new();
                tags.push(fresh);
                let entry = WordEntry { word: word.to_owned(), tags };
                self.entries.push(entry);
                proof {
                    let none = Seq::<(Seq<char>, nat)>::empty();
                    lemma_empty::<Seq<char>, nat>();
                    lemma_push(none, tag@, 1nat);
                    assert(tag_pairs(entry.tags@) == none.push((tag@, 1nat)));
                    lemma_absent(rows, word@);
                    lemma_push(rows, word@, entry.counts());
                    assert(entry_pairs(before.push(entry)) == rows.push((word@, entry.counts())));
                    assert forall|k: int| 0 <= k < self.entries.len() implies (
                    #[trigger] self.entries[k]).wf(self.total as nat) by {
                        if k < before.len() {
                            assert(before[k].wf((self.total - 1) as nat));
                        }
                    }
                }
            },
        }
    }

    /// The words of the table, each once, in the order in which [`Self::word`] hands
    /// them out.
    pub closed spec fn words(&self) -> Seq<Seq<char>> {
        self.entries@.map_values(|e: WordEntry| e.word@)
    }

    /// The words listed by [`Self::words`] are the words of the table, each listed
    /// once; every word has a tag; no count is zero or exceeds the number of
    /// recordings.
    pub proof fn lemma_well_formed(&self)
        requires
            self.wf(),
        ensures
            self.words().no_duplicates(),
            self.words().to_set() == self@.dom(),
            self@.dom().finite(),
            self@.len() == self.words().len(),
            forall|w: Seq<char>| #[trigger]
                self@.contains_key(w) ==> self@[w].dom().finite() && self@[w].len() > 0,
            forall|w: Seq<char>, t: Seq<char>|
                self@.contains_key(w) && #[trigger] self@[w].contains_key(t) ==> 1 <= self@[w][t]
                    <= self.recorded(),
    {
        let rows = entry_pairs(self.entries@);
        let words = self.words();
        assert forall|i: int, j: int| 0 <= i < words.len() && 0 <= j < words.len() && i
            != j implies words[i] != words[j] by {
            if i < j {
                assert(rows[i].0 != rows[j].0);
            } else {
                assert(rows[j].0 != rows[i].0);
            }
        }
        lemma_size(rows);
        assert forall|w: Seq<char>| words.to_set().contains(w) <==> self@.dom().contains(w) by {
            if words.contains(w) {
                let i = choose|i: int| 0 <= i < words.len() && words[i] == w;
                assert(rows[i].0 == w);
            }
            if has_key(rows, w) {
                let i = choose|i: int| 0 <= i < rows.len() && (#[trigger] rows[i]).0 == w;
                assert(words[i] == w);
            }
        }
        assert forall|w: Seq<char>| #[trigger] self@.contains_key(w) implies self@[w].dom().finite()
            && self@[w].len() > 0 && (forall|t: Seq<char>| #[trigger]
            self@[w].contains_key(t) ==> 1 <= self@[w][t] <= self.recorded()) by {
            let i = choose|i: int| 0 <= i < rows.len() && (#[trigger] rows[i]).0 == w;
            lemma_lookup(rows, i);
            let entry = self.entries[i];
            let pairs = tag_pairs(entry.tags@);
            lemma_size(pairs);
            assert forall|t: Seq<char>| #[trigger] self@[w].contains_key(t) implies 1
                <= self@[w][t] <= self.recorded() by {
                let j = choose|j: int| 0 <= j < pairs.len() && (#[trigger] pairs[j]).0 == t;
                lemma_lookup(pairs, j);
            }
        }
    }

    /// The number of words in the table.
    pub fn len(&self) -> (len: usize)
        requires
            self.wf(),
        ensures
            len == self@.len(),
            len == self.words().len(),
    {
        proof {
            self.lemma_well_formed();
        }
        self.entries.len()
    }

    /// The word at position `i` of [`Self::words`].
    pub fn word(&self, i: usize) -> (word: &str)
        requires
            i < self.words().len(),
        ensures
            word@ == self.words()[i as int],
    {
        self.entries[i].word.as_str()
    }

    /// The tags of the word at position `i` of [`Self::words`], each once, with its
    /// count.
    pub fn tag_counts(&self, i: usize) -> (rows: Vec<(String, usize)>)
        requires
            self.wf(),
            i < self.words().len(),
        ensures
            keys_distinct(row_pairs(rows@)),
            to_map(row_pairs(rows@)) == self@[self.words()[i as int]],
            self@.contains_key(self.words()[i as int]),
    {
        let entry = &self.entries[i];
        let ghost pairs = tag_pairs(entry.tags@);
        proof {
            lemma_lookup(entry_pairs(self.entries@), i as int);
        }
        let mut rows: Vec<(String, usize)> = Vec::new();
        let mut j: usize = 0;
        while j < entry.tags.len()
            invariant
                j <= entry.tags.len(),
                pairs == tag_pairs(entry.tags@),
                row_pairs(rows@) == pairs.take(j as int),
            decreases entry.tags.len() - j,
        {
            let row = (entry.tags[j].tag.clone(), entry.tags[j].count);
            assert(pairs.take(j + 1) == pairs.take(j as int).push(pairs[j as int]));
            rows.push(row);
            j = j + 1;
        }
        assert(pairs.take(pairs.len() as int) == pairs);
        rows
    }

    /// A copy of the table; later recordings do not change it.
    pub fn get_table(&self) -> (copy: WordTable)
        requires
            self.wf(),
        ensures
            copy.wf(),
            copy@ == self@,
            copy.recorded() == self.recorded(),
            copy.words() == self.words(),
    {
        let mut entries: Vec<WordEntry> = Vec::new();
        let mut i: usize = 0;
        while i < self.entries.len()
            invariant
                i <= self.entries.len(),
                self.wf(),
                entries.len() == i,
                forall|k: int|
                    0 <= k < i ==> (#[trigger] entries[k]).word@ == self.entries[k].word@
                        && tag_pairs(entries[k].tags@) == tag_pairs(self.entries[k].tags@),
            decreases self.entries.len() - i,
        {
            let entry = &self.entries[i];
            let ghost pairs = tag_pairs(entry.tags@);
            let mut tags: Vec<TagCount> = Vec::new();
            let mut j: usize = 0;
            while j < entry.tags.len()
                invariant
                    j <= entry.tags.len(),
                    pairs == tag_pairs(entry.tags@),
                    tag_pairs(tags@) == pairs.take(j as int),
                decreases entry.tags.len() - j,
            {
                let tag = TagCount { tag: entry.tags[j].tag.clone(), count: entry.tags[j].count };
                assert(pairs.take(j + 1) == pairs.take(j as int).push(pairs[j as int]));
                tags.push(tag);
                j = j + 1;
            }
            entries.push(WordEntry { word: entry.word.clone(), tags });
            i = i + 1;
        }
        let copy = WordTable { entries, total: self.total };
        proof {
            assert(entry_pairs(copy.entries@) =~= entry_pairs(self.entries@));
            assert forall|k: int| 0 <= k < copy.entries.len() implies (#[trigger] copy.entries[k]).wf(
                copy.total as nat,
            ) by {
                let mine = self.entries[k];
                let theirs = copy.entries[k];
                assert forall|j: int| 0 <= j < theirs.tags.len() implies 1 <= (
                #[trigger] theirs.tags[j]).count <= copy.total by {
                    assert(tag_pairs(theirs.tags@)[j] == tag_pairs(mine.tags@)[j]);
                }
            }
        }
        copy
    }

    /// Records each of `words` under `tag`, first to last.
    pub fn record_all(&mut self, words: &Vec<String>, tag: &str)
        requires
            old(self).wf(),
            old(self).recorded() + words.len() <= usize::MAX,
        ensures
            final(self).wf(),
            final(self)@ == record_all(old(self)@, views(words@), tag@),
            final(self).recorded() == old(self).recorded() + words.len(),
    {
        let ghost all = views(words@);
        let mut i: usize = 0;
        while i < words.len()
            invariant
                i <= words.len(),
                all == views(words@),
                self.wf(),
                self.recorded() == old(self).recorded() + i,
                old(self).recorded() + words.len() <= usize::MAX,
                self@ == record_all(old(self)@, all.take(i as int), tag@),
            decreases words.len() - i,
        {
            assert(all.take(i + 1).drop_last() == all.take(i as int));
            self.record(words[i].as_str(), tag);
            i = i + 1;
        }
        assert(all.take(all.len() as int) == all);
    }

    /// Counts the words of `text` under `tag`, where the table has room for them:
    /// returns whether it did. Without room for all of them, none is counted.
    pub fn count_words(&mut self, text: &str, tag: &str) -> (counted: bool)
        requires
            old(self).wf(),
        ensures
            final(self).wf(),
            counted == (old(self).recorded() + words_of(text@).len() <= usize::MAX),
            counted ==> final(self)@ == record_all(old(self)@, words_of(text@), tag@),
            counted ==> final(self).recorded() == old(self).recorded() + words_of(text@).len(),
            !counted ==> final(self)@ == old(self)@ && final(self).recorded() == old(
                self,
            ).recorded(),
    {
        let words = normalized_words(text);
        if words.len() <= usize::MAX - self.total {
            self.record_all(&words, tag);
            true
        } else {
            false
        }
    }
}

/// Recording raises the count of the recorded word under the recorded tag by one and
/// leaves every other count as it was.
pub proof fn lemma_record_counts(
    counts: Counts,
    word: Seq<char>,
    tag: Seq<char>,
    other_word: Seq<char>,
    other_tag: Seq<char>,
)
    ensures
        count_of(record(counts, word, tag), other_word, other_tag) == count_of(
            counts,
            other_word,
            other_tag,
        ) + if other_word == word && other_tag == tag {
            1nat
        } else {
            0nat
        },
{
}

/// Recording a sequence of words under one tag raises each word's count under that
/// tag by the number of times the word occurs in the sequence, and leaves the counts
/// under every other tag as they were.
pub proof fn lemma_record_all_counts(
    counts: Counts,
    words: Seq<Seq<char>>,
    tag: Seq<char>,
    other_word: Seq<char>,
    other_tag: Seq<char>,
)
    ensures
        count_of(record_all(counts, words, tag), other_word, other_tag) == count_of(
            counts,
            other_word,
            other_tag,
        ) + if other_tag == tag {
            occurrences(words, other_word)
        } else {
            0nat
        },
    decreases words.len(),
{
    if words.len() > 0 {
        lemma_record_all_counts(counts, words.drop_last(), tag, other_word, other_tag);
        lemma_record_counts(
            record_all(counts, words.drop_last(), tag),
            words.last(),
            tag,
            other_word,
            other_tag,
        );
    }
}

} // verus!

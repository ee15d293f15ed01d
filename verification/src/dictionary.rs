//! The dictionary index: for each digit signature, the words that have it.

use crate::keypad::{signature, word_to_num};
use vstd::prelude::*;
use vstd::string::*;
use vstd::utf8::encode_utf8_decode_utf8;

verus! {

/// The characters of each string of `v`.
pub open spec fn strings_view(v: Seq<String>) -> Seq<Seq<char>> {
    v.map_values(|s: String| s@)
}

/// The index `index` after one more word: `word` stands last in the list
/// under its own signature.
pub open spec fn index_insert(
    index: Map<Seq<char>, Seq<Seq<char>>>,
    word: Seq<char>,
) -> Map<Seq<char>, Seq<Seq<char>>> {
    let key = signature(word);
    let before = if index.contains_key(key) {
        index[key]
    } else {
        Seq::empty()
    };
    index.insert(key, before.push(word))
}

/// The index of a word list: the words inserted one after the other.
pub open spec fn index_of(words: Seq<Seq<char>>) -> Map<Seq<char>, Seq<Seq<char>>>
    decreases words.len(),
{
    if words.len() == 0 {
        Map::empty()
    } else {
        index_insert(index_of(words.drop_last()), words.last())
    }
}

/// What holds of every index that was built from words: no list is empty, and
/// each word stands under its own signature.
pub open spec fn index_wf(index: Map<Seq<char>, Seq<Seq<char>>>) -> bool {
    forall|key: Seq<char>| #[trigger]
        index.contains_key(key) ==> {
            &&& index[key].len() > 0
            &&& forall|j: int|
                0 <= j < index[key].len() ==> signature(#[trigger] index[key][j]) == key
        }
}

/// The words of one signature, in the order in which they were inserted.
struct Entry {
    signature: String,
    words: Vec<String>,
}

/// A dictionary index. Its view maps each signature to its list of words.
pub struct Dictionary {
    entries: Vec<Entry>,
}

/// Some entry of `entries` has the signature `key`.
spec fn has_entry(entries: Seq<Entry>, key: Seq<char>) -> bool {
    exists|i: int| 0 <= i < entries.len() && (#[trigger] entries[i]).signature@ == key
}

/// The place of an entry of `entries` with the signature `key`.
spec fn entry_at(entries: Seq<Entry>, key: Seq<char>) -> int {
    choose|i: int| 0 <= i < entries.len() && (#[trigger] entries[i]).signature@ == key
}

/// No two entries share a signature, no entry is without words, and each
/// word stands under its own signature.
spec fn entries_wf(entries: Seq<Entry>) -> bool {
    &&& forall|i: int, j: int|
        0 <= i < j < entries.len() ==> (#[trigger] entries[i]).signature@ != (
        #[trigger] entries[j]).signature@
    &&& forall|i: int|
        0 <= i < entries.len() ==> (#[trigger] entries[i]).words@.len() > 0
    &&& forall|i: int, j: int|
        0 <= i < entries.len() && 0 <= j < entries[i].words@.len() ==> signature(
            #[trigger] entries[i].words@[j]@,
        ) == entries[i].signature@
}

/// The index that `entries` stands for.
spec fn entries_index(entries: Seq<Entry>) -> Map<Seq<char>, Seq<Seq<char>>> {
    Map::new(
        |key: Seq<char>| has_entry(entries, key),
        |key: Seq<char>| strings_view(entries[entry_at(entries, key)].words@),
    )
}

proof fn lemma_entry_lookup(entries: Seq<Entry>, i: int)
    requires
        entries_wf(entries),
        0 <= i < entries.len(),
    ensures
        entries_index(entries).contains_key(entries[i].signature@),
        entries_index(entries)[entries[i].signature@] == strings_view(entries[i].words@),
{
    let key = entries[i].signature@;
    assert(has_entry(entries, key));
    let j = entry_at(entries, key);
    assert(j == i);
}

/// Where the entries differ only at the place `at`, which now holds the
/// words that stood under the signature of `word` and then `word`, the index
/// is the one after the insertion of `word`.
proof fn lemma_index_changed_at(before: Seq<Entry>, after: Seq<Entry>, at: int, word: Seq<char>)
    requires
        entries_wf(before),
        entries_wf(after),
        0 <= at < after.len(),
        before.len() <= after.len(),
        forall|k: int|
            0 <= k < after.len() && k != at ==> k < before.len() && after[k] == before[k],
        at < before.len() ==> before[at].signature@ == signature(word),
        at >= before.len() ==> !has_entry(before, signature(word)),
        after[at].signature@ == signature(word),
        strings_view(after[at].words@) == (if at < before.len() {
            strings_view(before[at].words@)
        } else {
            Seq::empty()
        }).push(word),
    ensures
        entries_index(after) == index_insert(entries_index(before), word),
{
    let key = signature(word);
    let lhs = entries_index(after);
    let rhs = index_insert(entries_index(before), word);
    lemma_entry_lookup(after, at);
    if at < before.len() {
        lemma_entry_lookup(before, at);
    }
    assert forall|k: Seq<char>| lhs.contains_key(k) <==> rhs.contains_key(k) by {
        if lhs.contains_key(k) && k != key {
            let a = entry_at(after, k);
            assert(before[a].signature@ == k);
            assert(has_entry(before, k));
        }
        if rhs.contains_key(k) && k != key {
            let a = entry_at(before, k);
            assert(after[a].signature@ == k);
            assert(has_entry(after, k));
        }
    }
    assert forall|k: Seq<char>| lhs.contains_key(k) implies lhs[k] == rhs[k] by {
        if k != key {
            let a = entry_at(after, k);
            assert(a != at);
            lemma_entry_lookup(after, a);
            lemma_entry_lookup(before, a);
        }
    }
    assert(lhs =~= rhs);
}

proof fn lemma_entry_grows(before: Seq<Entry>, after: Seq<Entry>, i: int, word: Seq<char>)
    requires
        entries_wf(before),
        0 <= i < before.len(),
        after.len() == before.len(),
        forall|k: int| 0 <= k < after.len() && k != i ==> after[k] == before[k],
        after[i].signature@ == before[i].signature@,
        after[i].words@.len() == before[i].words@.len() + 1,
        forall|j: int| 0 <= j < before[i].words@.len() ==> after[i].words@[j] == before[i].words@[j],
        after[i].words@.last()@ == word,
        signature(word) == before[i].signature@,
    ensures
        entries_wf(after),
        entries_index(after) == index_insert(entries_index(before), word),
{
    assert forall|a: int, b: int| 0 <= a < b < after.len() implies (#[trigger] after[a]).signature@
        != (#[trigger] after[b]).signature@ by {
        assert(after[a].signature@ == before[a].signature@);
        assert(after[b].signature@ == before[b].signature@);
    }
    assert forall|a: int| 0 <= a < after.len() implies (#[trigger] after[a]).words@.len() > 0 by {
        assert(before[a].words@.len() > 0);
    }
    assert forall|a: int, j: int|
        0 <= a < after.len() && 0 <= j < after[a].words@.len() implies signature(
        #[trigger] after[a].words@[j]@,
    ) == after[a].signature@ by {
        if a != i || j < before[i].words@.len() {
            assert(after[a].words@[j] == before[a].words@[j]);
        }
    }
    assert(strings_view(after[i].words@) =~= strings_view(before[i].words@).push(word));
    lemma_index_changed_at(before, after, i, word);
}

proof fn lemma_entry_added(before: Seq<Entry>, after: Seq<Entry>, word: Seq<char>)
    requires
        entries_wf(before),
        !has_entry(before, signature(word)),
        after.len() == before.len() + 1,
        forall|k: int| 0 <= k < before.len() ==> after[k] == before[k],
        after.last().signature@ == signature(word),
        after.last().words@.len() == 1,
        after.last().words@[0]@ == word,
    ensures
        entries_wf(after),
        entries_index(after) == index_insert(entries_index(before), word),
{
    let n = before.len() as int;
    assert forall|a: int, b: int| 0 <= a < b < after.len() implies (#[trigger] after[a]).signature@
        != (#[trigger] after[b]).signature@ by {
        assert(after[a].signature@ == before[a].signature@);
        if b < n {
            assert(after[b].signature@ == before[b].signature@);
        }
    }
    assert forall|a: int| 0 <= a < after.len() implies (#[trigger] after[a]).words@.len() > 0 by {
        if a < n {
            assert(before[a].words@.len() > 0);
        }
    }
    assert forall|a: int, j: int|
        0 <= a < after.len() && 0 <= j < after[a].words@.len() implies signature(
        #[trigger] after[a].words@[j]@,
    ) == after[a].signature@ by {
        if a < n {
            assert(after[a].words@[j] == before[a].words@[j]);
        }
    }
    assert(strings_view(after[n].words@) =~= Seq::<Seq<char>>::empty().push(word));
    lemma_index_changed_at(before, after, n, word);
}

/// Whether two strings hold the same characters, told from their bytes.
fn same_text(a: &str, b: &str) -> (same: bool)
    ensures
        same == (a@ == b@),
{
    let x = a.as_bytes();
    let y = b.as_bytes();
    proof {
        encode_utf8_decode_utf8(a@);
        encode_utf8_decode_utf8(b@);
    }
    if x.len() != y.len() {
        return false;
    }
    let mut i: usize = 0;
    while i < x.len()
        invariant
            x@ == a.spec_bytes(),
            y@ == b.spec_bytes(),
            x@.len() == y@.len(),
            i <= x@.len(),
            forall|k: int| 0 <= k < i ==> x@[k] == y@[k],
        decreases x@.len() - i,
    {
        if x[i] != y[i] {
            return false;
        }
        i += 1;
    }
    proof {
        assert(x@ =~= y@);
    }
    true
}

impl View for Dictionary {
    type V = Map<Seq<char>, Seq<Seq<char>>>;

    closed spec fn view(&self) -> Map<Seq<char>, Seq<Seq<char>>> {
        entries_index(self.entries@)
    }
}

impl Dictionary {
    /// The invariant of the index: every signature has one entry, no entry is
    /// without words, and each word stands under its own signature.
    pub closed spec fn wf(&self) -> bool {
        entries_wf(self.entries@)
    }

    /// A well-formed dictionary has a well-formed view.
    pub proof fn lemma_view_wf(&self)
        requires
            self.wf(),
        ensures
            index_wf(self@),
    {
        let entries = self.entries@;
        assert forall|key: Seq<char>| #[trigger] self@.contains_key(key) implies {
            &&& self@[key].len() > 0
            &&& forall|j: int|
                0 <= j < self@[key].len() ==> signature(#[trigger] self@[key][j]) == key
        } by {
            let i = entry_at(entries, key);
            assert(has_entry(entries, key));
            assert(entries[i].signature@ == key);
            assert forall|j: int| 0 <= j < self@[key].len() implies signature(
                #[trigger] self@[key][j],
            ) == key by {
                assert(self@[key][j] == entries[i].words@[j]@);
            }
        }
    }

    /// The empty index.
    pub fn new() -> (dict: Self)
        ensures
            dict.wf(),
            dict@ == Map::<Seq<char>, Seq<Seq<char>>>::empty(),
    {
        let dict = Dictionary { entries: Vec::new() };
        assert(dict@ =~= Map::<Seq<char>, Seq<Seq<char>>>::empty());
        dict
    }

    /// The place of the entry with the signature `key`, if there is one.
    fn find(&self, key: &str) -> (slot: Option<usize>)
        requires
            self.wf(),
        ensures
            match slot {
                Some(i) => i < self.entries@.len() && self.entries@[i as int].signature@ == key@,
                None => !self@.contains_key(key@),
            },
    {
        let mut i: usize = 0;
        while i < self.entries.len()
            invariant
                i <= self.entries@.len(),
                forall|k: int| 0 <= k < i ==> (#[trigger] self.entries@[k]).signature@ != key@,
            decreases self.entries@.len() - i,
        {
            if same_text(self.entries[i].signature.as_str(), key) {
                return Some(i);
            }
            i += 1;
        }
        None
    }

    /// The words under the signature `key`, if there are any.
    pub fn get(&self, key: &str) -> (found: Option<&Vec<String>>)
        requires
            self.wf(),
        ensures
            match found {
                Some(words) => self@.contains_key(key@) && strings_view(words@) == self@[key@],
                None => !self@.contains_key(key@),
            },
    {
        match self.find(key) {
            Some(i) => {
                proof {
                    lemma_entry_lookup(self.entries@, i as int);
                }
                Some(&self.entries[i].words)
            },
            None => None,
        }
    }

    /// The index of `words`, each list in the order of `words`.
    pub fn build(words: &Vec<String>) -> (dict: Self)
        ensures
            dict.wf(),
            dict@ == index_of(strings_view(words@)),
    {
        let mut dict = Dictionary::new();
        let mut i: usize = 0;
        while i < words.len()
            invariant
                i <= words@.len(),
                dict.wf(),
                dict@ == index_of(strings_view(words@.take(i as int))),
            decreases words@.len() - i,
        {
            proof {
                let upto = strings_view(words@.take(i + 1));
                assert(upto.drop_last() =~= strings_view(words@.take(i as int)));
                assert(upto.last() == words@[i as int]@);
            }
            dict.insert(words[i].clone());
            i += 1;
        }
        proof {
            assert(words@.take(words@.len() as int) == words@);
        }
        dict
    }

    /// Adds `word` at the end of the list under its signature.
    pub fn insert(&mut self, word: String)
        requires
            old(self).wf(),
        ensures
            final(self).wf(),
            final(self)@ == index_insert(old(self)@, word@),
    {
        let key = word_to_num(word.as_str());
        let ghost before = self.entries@;
        let ghost added = word@;
        match self.find(key.as_str()) {
            Some(i) => {
                self.entries[i].words.push(word);
                proof {
                    let after = self.entries@;
                    lemma_entry_grows(before, after, i as int, added);
                }
            },
            None => {
                let mut words: Vec<String> = Vec::new();
                words.push(word);
                self.entries.push(Entry { signature: key, words });
                proof {
                    lemma_entry_added(before, self.entries@, added);
                }
            },
        }
    }
}

} // verus!

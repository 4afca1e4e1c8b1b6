//! The lookup store: word mappings from word strings to pronunciation
//! records, longest-prefix matching, single-unit lookup, and the
//! traditional-vs-simplified script detector.

use vstd::prelude::*;

verus! {

/// One recorded reading for one word-or-character form.
#[derive(Debug)]
pub struct AnnotationData {
    pub pinyin: String,
    pub zhuyin: String,
    pub traditional: String,
    pub simplified: String,
}

/// Mathematical image of an [`AnnotationData`]: every field as a
/// character sequence.
#[verifier::ext_equal]
pub struct AnnotationDataView {
    pub pinyin: Seq<char>,
    pub zhuyin: Seq<char>,
    pub traditional: Seq<char>,
    pub simplified: Seq<char>,
}

impl View for AnnotationData {
    type V = AnnotationDataView;

    open spec fn view(&self) -> AnnotationDataView {
        AnnotationDataView {
            pinyin: self.pinyin@,
            zhuyin: self.zhuyin@,
            traditional: self.traditional@,
            simplified: self.simplified@,
        }
    }
}

impl DeepView for AnnotationData {
    type V = AnnotationDataView;

    open spec fn deep_view(&self) -> AnnotationDataView {
        self.view()
    }
}

impl Clone for AnnotationData {
    fn clone(&self) -> (r: Self)
        ensures
            r@ == self@,
    {
        AnnotationData {
            pinyin: self.pinyin.clone(),
            zhuyin: self.zhuyin.clone(),
            traditional: self.traditional.clone(),
            simplified: self.simplified.clone(),
        }
    }
}

/// One keyed entry of a word mapping: a word and its recorded readings,
/// in dictionary declaration order.
#[derive(Debug)]
pub struct WordEntry {
    pub word: Vec<char>,
    pub records: Vec<AnnotationData>,
}

/// Mathematical image of a [`WordEntry`].
pub struct WordEntryView {
    pub word: Seq<char>,
    pub records: Seq<AnnotationDataView>,
}

impl View for WordEntry {
    type V = WordEntryView;

    open spec fn view(&self) -> WordEntryView {
        WordEntryView { word: self.word@, records: self.records.deep_view() }
    }
}

impl DeepView for WordEntry {
    type V = WordEntryView;

    open spec fn deep_view(&self) -> WordEntryView {
        self.view()
    }
}

/// What a word mapping associates with a word: the record list of the
/// first entry keyed by that word, or `None` when no entry is.
pub open spec fn word_map_get(
    entries: Seq<WordEntryView>,
    w: Seq<char>,
) -> Option<Seq<AnnotationDataView>>
    decreases entries.len(),
{
    if entries.len() == 0 {
        None
    } else if entries[0].word == w {
        Some(entries[0].records)
    } else {
        word_map_get(entries.drop_first(), w)
    }
}

/// A read-only mapping from words to their pronunciation records.
///
/// Held as a plain entry list and scanned linearly; the mapping it
/// denotes is [`word_map_get`] over the entry views. The builder never
/// repeats a key, so the first-entry rule of `word_map_get` coincides
/// with plain map lookup.
#[derive(Debug)]
pub struct WordMap {
    pub entries: Vec<WordEntry>,
}

impl View for WordMap {
    type V = Seq<WordEntryView>;

    open spec fn view(&self) -> Seq<WordEntryView> {
        self.entries.deep_view()
    }
}

/// Character-for-character equality of two slices.
fn chars_eq(a: &[char], b: &[char]) -> (r: bool)
    ensures
        r == (a@ == b@),
{
    if a.len() != b.len() {
        return false;
    }
    let n = a.len();
    let mut i: usize = 0;
    while i < n
        invariant
            n == a@.len() && n == b@.len(),
            i <= n,
            forall|j: int| 0 <= j < i ==> a@[j] == b@[j],
        decreases n - i,
    {
        if a[i] != b[i] {
            return false;
        }
        i += 1;
    }
    proof {
        assert(a@ =~= b@);
    }
    true
}

/// Character-for-character equality of two strings.
pub fn str_eq(a: &str, b: &str) -> (r: bool)
    ensures
        r == (a@ == b@),
{
    let ca = str_to_chars(a);
    let cb = str_to_chars(b);
    chars_eq(ca.as_slice(), cb.as_slice())
}

/// If no entry before position `i` carries the word, lookup over the
/// whole entry list agrees with lookup over the tail from `i` on.
proof fn lemma_word_map_get_skip(entries: Seq<WordEntryView>, w: Seq<char>, i: int)
    requires
        0 <= i <= entries.len(),
        forall|j: int| 0 <= j < i ==> entries[j].word != w,
    ensures
        word_map_get(entries, w) == word_map_get(entries.skip(i), w),
    decreases i,
{
    if i > 0 {
        assert(entries[0].word != w);
        lemma_word_map_get_skip(entries.drop_first(), w, i - 1);
        assert(entries.drop_first().skip(i - 1) =~= entries.skip(i));
    } else {
        assert(entries.skip(0) =~= entries);
    }
}

impl WordMap {
    /// An empty mapping.
    pub fn new() -> (r: Self)
        ensures
            r@ == Seq::<WordEntryView>::empty(),
    {
        let r = WordMap { entries: Vec::new() };
        proof {
            assert(r@ =~= Seq::<WordEntryView>::empty());
        }
        r
    }

    /// How many words the mapping holds.
    pub fn len(&self) -> (r: usize)
        ensures
            r == self@.len(),
    {
        self.entries.len()
    }

    /// Appends one entry. The caller is expected not to repeat a word
    /// already present: a repeated one would be shadowed by the first.
    pub fn add_word(&mut self, word: Vec<char>, records: Vec<AnnotationData>)
        ensures
            final(self)@ == old(self)@.push(
                WordEntryView { word: word@, records: records.deep_view() },
            ),
    {
        let ghost prior = self@;
        let ghost v = WordEntryView { word: word@, records: records.deep_view() };
        self.entries.push(WordEntry { word, records });
        proof {
            assert(self@ =~= prior.push(v));
        }
    }

    /// Looks the word up: returns the records of the first entry keyed
    /// by it, exactly when [`word_map_get`] is `Some`.
    pub fn get(&self, w: &[char]) -> (r: Option<&Vec<AnnotationData>>)
        ensures
            match r {
                Some(v) => word_map_get(self@, w@) == Some(v.deep_view()),
                None => word_map_get(self@, w@) is None,
            },
    {
        let n = self.entries.len();
        let mut i: usize = 0;
        while i < n
            invariant
                n == self@.len(),
                i <= n,
                forall|j: int| 0 <= j < i ==> self@[j].word != w@,
            decreases n - i,
        {
            if chars_eq(self.entries[i].word.as_slice(), w) {
                proof {
                    lemma_word_map_get_skip(self@, w@, i as int);
                    assert(self@.skip(i as int)[0] == self@[i as int]);
                }
                return Some(&self.entries[i].records);
            }
            i += 1;
        }
        proof {
            lemma_word_map_get_skip(self@, w@, n as int);
            assert(self@.skip(n as int) =~= Seq::<WordEntryView>::empty());
        }
        None
    }

    /// The position of the first entry keyed by the word, if any is.
    fn find_index(&self, w: &[char]) -> (r: Option<usize>)
        ensures
            match r {
                Some(i) => {
                    &&& i < self@.len()
                    &&& self@[i as int].word == w@
                    &&& forall|j: int| 0 <= j < i ==> self@[j].word != w@
                },
                None => forall|j: int| 0 <= j < self@.len() ==> self@[j].word != w@,
            },
    {
        let n = self.entries.len();
        let mut i: usize = 0;
        while i < n
            invariant
                n == self@.len(),
                i <= n,
                forall|j: int| 0 <= j < i ==> self@[j].word != w@,
            decreases n - i,
        {
            if chars_eq(self.entries[i].word.as_slice(), w) {
                return Some(i);
            }
            i += 1;
        }
        None
    }

    /// Files one record under a word, as [`spec_upsert`] says: appended
    /// to the word's record list when the word is present, under a fresh
    /// trailing entry when it is not.
    pub fn upsert(&mut self, word: Vec<char>, record: AnnotationData)
        ensures
            final(self)@ == spec_upsert(old(self)@, word@, record@),
    {
        let ghost prior = self@;
        match self.find_index(word.as_slice()) {
            Some(i) => {
                let mut entry = self.entries.remove(i);
                let ghost pre_records = entry.records.deep_view();
                entry.records.push(record);
                proof {
                    assert(entry.records.deep_view() =~= pre_records.push(record@));
                }
                self.entries.insert(i, entry);
                proof {
                    lemma_upsert_found(prior, word@, record@, i as int);
                    assert(self@ =~= prior.update(
                        i as int,
                        WordEntryView {
                            word: prior[i as int].word,
                            records: prior[i as int].records.push(record@),
                        },
                    ));
                }
            },
            None => {
                let mut records: Vec<AnnotationData> = Vec::new();
                records.push(record);
                proof {
                    assert(records.deep_view() =~= seq![record@]);
                }
                self.entries.push(WordEntry { word, records });
                proof {
                    lemma_upsert_absent(prior, word@, record@);
                    assert(self@ =~= prior.push(
                        spec_upsert(prior, word@, record@).last(),
                    ));
                }
            },
        }
    }
}

/// A word mapping after one record is filed under a word: the record is
/// appended to the first entry keyed by the word, or a fresh entry is
/// appended when the word is new.
pub open spec fn spec_upsert(
    m: Seq<WordEntryView>,
    w: Seq<char>,
    a: AnnotationDataView,
) -> Seq<WordEntryView>
    decreases m.len(),
{
    if m.len() == 0 {
        seq![WordEntryView { word: w, records: seq![a] }]
    } else if m[0].word == w {
        seq![WordEntryView { word: m[0].word, records: m[0].records.push(a) }] + m.drop_first()
    } else {
        seq![m[0]] + spec_upsert(m.drop_first(), w, a)
    }
}

/// Filing under a word that the first `i` entries do not carry but entry
/// `i` does updates entry `i` in place.
proof fn lemma_upsert_found(m: Seq<WordEntryView>, w: Seq<char>, a: AnnotationDataView, i: int)
    requires
        0 <= i < m.len(),
        forall|j: int| 0 <= j < i ==> m[j].word != w,
        m[i].word == w,
    ensures
        spec_upsert(m, w, a) == m.update(
            i,
            WordEntryView { word: m[i].word, records: m[i].records.push(a) },
        ),
    decreases i,
{
    if i == 0 {
        assert(spec_upsert(m, w, a) =~= m.update(
            0,
            WordEntryView { word: m[0].word, records: m[0].records.push(a) },
        ));
    } else {
        assert(m[0].word != w);
        lemma_upsert_found(m.drop_first(), w, a, i - 1);
        assert(m.drop_first()[i - 1] == m[i]);
        assert(seq![m[0]] + m.drop_first().update(
            i - 1,
            WordEntryView { word: m[i].word, records: m[i].records.push(a) },
        ) =~= m.update(i, WordEntryView { word: m[i].word, records: m[i].records.push(a) }));
    }
}

/// Filing under a word that no entry carries appends a fresh entry.
proof fn lemma_upsert_absent(m: Seq<WordEntryView>, w: Seq<char>, a: AnnotationDataView)
    requires
        forall|j: int| 0 <= j < m.len() ==> m[j].word != w,
    ensures
        spec_upsert(m, w, a) == m.push(WordEntryView { word: w, records: seq![a] }),
    decreases m.len(),
{
    if m.len() == 0 {
        assert(spec_upsert(m, w, a) =~= m.push(WordEntryView { word: w, records: seq![a] }));
    } else {
        assert(m[0].word != w);
        lemma_upsert_absent(m.drop_first(), w, a);
        assert(seq![m[0]] + m.drop_first().push(WordEntryView { word: w, records: seq![a] })
            =~= m.push(WordEntryView { word: w, records: seq![a] }));
    }
}

/// Whether no two entries of a word mapping carry the same word.
pub open spec fn distinct_words(m: Seq<WordEntryView>) -> bool {
    forall|i: int, j: int| 0 <= i < j < m.len() ==> m[i].word != m[j].word
}

/// Every word of an upserted mapping is the filed word or one the
/// mapping already carried.
proof fn lemma_upsert_words(m: Seq<WordEntryView>, w: Seq<char>, a: AnnotationDataView)
    ensures
        forall|k: int|
            0 <= k < spec_upsert(m, w, a).len() ==> (#[trigger] spec_upsert(m, w, a)[k].word == w
                || exists|j: int| 0 <= j < m.len() && m[j].word == spec_upsert(m, w, a)[k].word),
    decreases m.len(),
{
    let r = spec_upsert(m, w, a);
    if m.len() == 0 {
    } else if m[0].word == w {
        assert forall|k: int| 0 <= k < r.len() implies (#[trigger] r[k].word == w || exists|j: int|
            0 <= j < m.len() && m[j].word == r[k].word) by {
            if k > 0 {
                assert(r[k] == m[k]);
                assert(m[k].word == m[k].word);
            }
        }
    } else {
        lemma_upsert_words(m.drop_first(), w, a);
        let rt = spec_upsert(m.drop_first(), w, a);
        assert forall|k: int| 0 <= k < r.len() implies (#[trigger] r[k].word == w || exists|j: int|
            0 <= j < m.len() && m[j].word == r[k].word) by {
            if k > 0 {
                assert(r[k] == rt[k - 1]);
                if rt[k - 1].word != w {
                    let j = choose|j: int|
                        0 <= j < m.drop_first().len() && m.drop_first()[j].word == rt[k - 1].word;
                    assert(m[j + 1].word == r[k].word);
                }
            }
        }
    }
}

/// Filing a record never repeats a word: upserting into a mapping with
/// distinct words leaves the words distinct.
pub proof fn lemma_upsert_keeps_words_distinct(
    m: Seq<WordEntryView>,
    w: Seq<char>,
    a: AnnotationDataView,
)
    requires
        distinct_words(m),
    ensures
        distinct_words(spec_upsert(m, w, a)),
    decreases m.len(),
{
    let r = spec_upsert(m, w, a);
    if m.len() == 0 {
    } else if m[0].word == w {
        assert forall|i: int, j: int| 0 <= i < j < r.len() implies r[i].word != r[j].word by {
            assert(r[j] == m[j]);
            if i > 0 {
                assert(r[i] == m[i]);
            }
        }
    } else {
        assert(distinct_words(m.drop_first()));
        lemma_upsert_keeps_words_distinct(m.drop_first(), w, a);
        lemma_upsert_words(m.drop_first(), w, a);
        let rt = spec_upsert(m.drop_first(), w, a);
        assert forall|i: int, j: int| 0 <= i < j < r.len() implies r[i].word != r[j].word by {
            if i == 0 {
                assert(r[j] == rt[j - 1]);
                if rt[j - 1].word != w {
                    let k = choose|k: int|
                        0 <= k < m.drop_first().len() && m.drop_first()[k].word == rt[j - 1].word;
                    assert(m[k + 1].word == rt[j - 1].word);
                    assert(m[0].word != m[k + 1].word);
                }
            } else {
                assert(r[i] == rt[i - 1]);
                assert(r[j] == rt[j - 1]);
            }
        }
    }
}

/// Summary statistics recorded while compiling the dictionary.
#[derive(Debug, Clone, Copy, PartialEq, Eq, Structural)]
pub struct ProcessingStats {
    pub total_entries: usize,
    pub unique_simplified_chars: usize,
    pub unique_traditional_chars: usize,
    pub max_word_length: usize,
    pub multi_char_entries: usize,
}

/// The compiled dictionary: the two script word mappings, the unit
/// lookup mapping, and the summary statistics.
#[derive(Debug)]
pub struct ProcessedData {
    pub simplified_words: WordMap,
    pub traditional_words: WordMap,
    pub char_lookup: WordMap,
    pub stats: ProcessingStats,
}

/// Mathematical image of a [`ProcessedData`].
pub struct ProcessedDataView {
    pub simplified_words: Seq<WordEntryView>,
    pub traditional_words: Seq<WordEntryView>,
    pub char_lookup: Seq<WordEntryView>,
    pub stats: ProcessingStats,
}

impl View for ProcessedData {
    type V = ProcessedDataView;

    open spec fn view(&self) -> ProcessedDataView {
        ProcessedDataView {
            simplified_words: self.simplified_words@,
            traditional_words: self.traditional_words@,
            char_lookup: self.char_lookup@,
            stats: self.stats,
        }
    }
}

/// The loaded dictionary, built once and then only read.
#[derive(Debug)]
pub struct Dictionary {
    data: ProcessedData,
}

impl View for Dictionary {
    type V = ProcessedDataView;

    closed spec fn view(&self) -> ProcessedDataView {
        self.data@
    }
}

/// The word mapping that an active script selects.
pub open spec fn active_words(d: ProcessedDataView, use_traditional: bool) -> Seq<WordEntryView> {
    if use_traditional {
        d.traditional_words
    } else {
        d.simplified_words
    }
}

/// The longest prefix of `text.subrange(start, ..)` of length at most
/// `maxlen` that is a word of the mapping, with its records; `None`
/// when no prefix length from 1 to `maxlen` is a word.
pub open spec fn spec_longest_match_upto(
    m: Seq<WordEntryView>,
    text: Seq<char>,
    start: int,
    maxlen: int,
) -> Option<(int, Seq<AnnotationDataView>)>
    decreases maxlen,
{
    if maxlen < 1 {
        None
    } else {
        match word_map_get(m, text.subrange(start, start + maxlen)) {
            Some(records) => Some((maxlen, records)),
            None => spec_longest_match_upto(m, text, start, maxlen - 1),
        }
    }
}

/// The longest prefix of `text` from `start` on that is a word of the
/// mapping, with its records.
pub open spec fn spec_longest_match(
    m: Seq<WordEntryView>,
    text: Seq<char>,
    start: int,
) -> Option<(int, Seq<AnnotationDataView>)> {
    spec_longest_match_upto(m, text, start, text.len() - start)
}

/// The characters of a string, as a vector.
pub fn str_to_chars(s: &str) -> (r: Vec<char>)
    ensures
        r@ == s@,
{
    let n = s.unicode_len();
    let mut r: Vec<char> = Vec::new();
    let mut i: usize = 0;
    while i < n
        invariant
            n == s@.len(),
            i <= n,
            r@ == s@.take(i as int),
        decreases n - i,
    {
        r.push(s.get_char(i));
        proof {
            assert(r@ =~= s@.take(i + 1));
        }
        i += 1;
    }
    proof {
        assert(r@ =~= s@);
    }
    r
}

/// A copy of a record list whose image is the same.
pub fn clone_records(v: &Vec<AnnotationData>) -> (r: Vec<AnnotationData>)
    ensures
        r.deep_view() == v.deep_view(),
{
    let n = v.len();
    let mut r: Vec<AnnotationData> = Vec::new();
    let mut i: usize = 0;
    while i < n
        invariant
            n == v@.len(),
            i <= n,
            r.deep_view() == v.deep_view().take(i as int),
        decreases n - i,
    {
        let ghost pre = r.deep_view();
        let elem = v[i].clone();
        proof {
            assert(elem.deep_view() == v.deep_view()[i as int]);
        }
        r.push(elem);
        proof {
            assert(r.deep_view() =~= pre.push(v.deep_view()[i as int]));
            assert(pre.push(v.deep_view()[i as int]) =~= v.deep_view().take(i + 1));
        }
        i += 1;
    }
    proof {
        assert(r.deep_view() =~= v.deep_view());
    }
    r
}

/// How many characters of the text are single-character words of the
/// traditional word mapping.
pub open spec fn spec_traditional_count(d: ProcessedDataView, text: Seq<char>) -> int
    decreases text.len(),
{
    if text.len() == 0 {
        0
    } else {
        spec_traditional_count(d, text.drop_last()) + if word_map_get(
            d.traditional_words,
            seq![text.last()],
        ) is Some {
            1int
        } else {
            0int
        }
    }
}

/// How many characters of the text are single-character words of the
/// simplified word mapping.
pub open spec fn spec_simplified_count(d: ProcessedDataView, text: Seq<char>) -> int
    decreases text.len(),
{
    if text.len() == 0 {
        0
    } else {
        spec_simplified_count(d, text.drop_last()) + if word_map_get(
            d.simplified_words,
            seq![text.last()],
        ) is Some {
            1int
        } else {
            0int
        }
    }
}

/// The script-detection outcome: traditional exactly when the
/// traditional count strictly exceeds the simplified count.
pub open spec fn spec_detect_traditional(d: ProcessedDataView, text: Seq<char>) -> bool {
    spec_traditional_count(d, text) > spec_simplified_count(d, text)
}

impl Dictionary {
    /// Wraps compiled dictionary data as the loaded dictionary.
    pub fn new(data: ProcessedData) -> (r: Self)
        ensures
            r@ == data@,
    {
        Dictionary { data }
    }

    /// The number of source records the dictionary was compiled from.
    pub fn entry_count(&self) -> (r: usize)
        ensures
            r == self@.stats.total_entries,
    {
        self.data.stats.total_entries
    }

    /// The length in characters of the longest dictionary word.
    pub fn max_word_length(&self) -> (r: usize)
        ensures
            r == self@.stats.max_word_length,
    {
        self.data.stats.max_word_length
    }

    /// Find the longest match starting from the given position in text.
    ///
    /// Candidate prefix lengths are tried from 1 up to the characters
    /// remaining, each hit overwriting the previous, so the returned
    /// match is the longest word of the selected mapping that prefixes
    /// the text at `start_pos`.
    pub fn find_longest_match(
        &self,
        text: &str,
        start_pos: usize,
        use_traditional: bool,
    ) -> (r: Option<(usize, Vec<AnnotationData>)>)
        ensures
            match r {
                Some(p) => {
                    &&& spec_longest_match(active_words(self@, use_traditional), text@, start_pos as int)
                        == Some((p.0 as int, p.1.deep_view()))
                    &&& 1 <= p.0 <= text@.len() - start_pos
                },
                None => spec_longest_match(
                    active_words(self@, use_traditional),
                    text@,
                    start_pos as int,
                ) is None,
            },
    {
        let chars = str_to_chars(text);
        if start_pos >= chars.len() {
            return None;
        }
        let words = if use_traditional {
            &self.data.traditional_words
        } else {
            &self.data.simplified_words
        };
        let n = chars.len() - start_pos;
        let mut longest: Option<(usize, Vec<AnnotationData>)> = None;
        let mut k: usize = 0;
        while k < n
            invariant
                n == text@.len() - start_pos,
                chars@ == text@,
                start_pos + n == chars.len(),
                k <= n,
                words@ == active_words(self@, use_traditional),
                match longest {
                    Some(p) => {
                        &&& spec_longest_match_upto(words@, text@, start_pos as int, k as int)
                            == Some((p.0 as int, p.1.deep_view()))
                        &&& 1 <= p.0 <= k
                    },
                    None => spec_longest_match_upto(
                        words@,
                        text@,
                        start_pos as int,
                        k as int,
                    ) is None,
                },
            decreases n - k,
        {
            let len = k + 1;
            let candidate = vstd::slice::slice_subrange(
                chars.as_slice(),
                start_pos,
                start_pos + len,
            );
            match words.get(candidate) {
                Some(records) => {
                    longest = Some((len, clone_records(records)));
                },
                None => {},
            }
            k = len;
        }
        longest
    }

    /// Quick single-unit lookup in the unit lookup mapping.
    pub fn lookup_char(&self, ch: &str) -> (r: Option<&Vec<AnnotationData>>)
        ensures
            match r {
                Some(v) => word_map_get(self@.char_lookup, ch@) == Some(v.deep_view()),
                None => word_map_get(self@.char_lookup, ch@) is None,
            },
    {
        let chars = str_to_chars(ch);
        self.data.char_lookup.get(chars.as_slice())
    }

    /// Detect whether the text leans traditional: counts, over every
    /// character, membership as a single-character word in each script's
    /// mapping, and reports traditional only on a strict majority.
    pub fn detect_traditional(&self, text: &str) -> (r: bool)
        ensures
            r == spec_detect_traditional(self@, text@),
    {
        let chars = str_to_chars(text);
        let n = chars.len();
        let mut traditional_count: usize = 0;
        let mut simplified_count: usize = 0;
        let mut i: usize = 0;
        while i < n
            invariant
                n == text@.len(),
                chars@ == text@,
                i <= n,
                traditional_count <= i,
                simplified_count <= i,
                traditional_count == spec_traditional_count(self@, text@.take(i as int)),
                simplified_count == spec_simplified_count(self@, text@.take(i as int)),
            decreases n - i,
        {
            let mut single: Vec<char> = Vec::new();
            single.push(chars[i]);
            proof {
                assert(single@ =~= seq![text@[i as int]]);
                assert(text@.take(i + 1).drop_last() =~= text@.take(i as int));
                assert(text@.take(i + 1).last() == text@[i as int]);
            }
            if self.data.traditional_words.get(single.as_slice()).is_some() {
                traditional_count += 1;
            }
            if self.data.simplified_words.get(single.as_slice()).is_some() {
                simplified_count += 1;
            }
            i += 1;
        }
        proof {
            assert(text@.take(n as int) =~= text@);
        }
        traditional_count > simplified_count
    }
}

/// If a word of length `len` prefixes the text at `start`, the longest
/// match there is some match of length at least `len`: a shorter hit is
/// never returned while a longer word exists.
pub proof fn lemma_longest_match_finds_keys(
    m: Seq<WordEntryView>,
    text: Seq<char>,
    start: int,
    len: int,
)
    requires
        0 <= start,
        1 <= len,
        start + len <= text.len(),
        word_map_get(m, text.subrange(start, start + len)) is Some,
    ensures
        spec_longest_match(m, text, start) matches Some(p) && p.0 >= len,
{
    lemma_longest_match_upto_finds_keys(m, text, start, len, text.len() - start);
}

proof fn lemma_longest_match_upto_finds_keys(
    m: Seq<WordEntryView>,
    text: Seq<char>,
    start: int,
    len: int,
    maxlen: int,
)
    requires
        0 <= start,
        1 <= len <= maxlen,
        start + maxlen <= text.len(),
        word_map_get(m, text.subrange(start, start + len)) is Some,
    ensures
        spec_longest_match_upto(m, text, start, maxlen) matches Some(p) && p.0 >= len,
    decreases maxlen,
{
    if maxlen > len {
        match word_map_get(m, text.subrange(start, start + maxlen)) {
            Some(_) => {},
            None => {
                lemma_longest_match_upto_finds_keys(m, text, start, len, maxlen - 1);
            },
        }
    }
}

/// A longest match is never empty and never reaches past the end of
/// the text.
pub proof fn lemma_longest_match_bounds(m: Seq<WordEntryView>, text: Seq<char>, start: int)
    ensures
        spec_longest_match(m, text, start) matches Some(p) ==> 1 <= p.0 <= text.len() - start,
{
    lemma_longest_match_upto_bounds(m, text, start, text.len() - start);
}

proof fn lemma_longest_match_upto_bounds(
    m: Seq<WordEntryView>,
    text: Seq<char>,
    start: int,
    maxlen: int,
)
    ensures
        spec_longest_match_upto(m, text, start, maxlen) matches Some(p) ==> 1 <= p.0 <= maxlen,
    decreases maxlen,
{
    if maxlen >= 1 {
        match word_map_get(m, text.subrange(start, start + maxlen)) {
            Some(_) => {},
            None => {
                lemma_longest_match_upto_bounds(m, text, start, maxlen - 1);
            },
        }
    }
}

/// A tie between the two script counts — the all-zero case of text with
/// no recognized characters included — resolves to simplified.
pub proof fn lemma_script_tie_resolves_simplified(d: ProcessedDataView, text: Seq<char>)
    requires
        spec_traditional_count(d, text) == spec_simplified_count(d, text),
    ensures
        !spec_detect_traditional(d, text),
{
}

} // verus!

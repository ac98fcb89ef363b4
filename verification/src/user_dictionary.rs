//! The user's own dictionary and the emoji dictionary: tab-separated text
//! files read into word maps.

use vstd::prelude::*;
use crate::candidate::{models, Candidate};
use crate::text::{
    chars_equal, chars_less, chars_lt, chars_of, chars_start_with, copy_range, head_before, lines_of,
    string_from_chars, spec_lines, spec_trim, split_chars, split_on,
    split_once_chars, tail_after, trim_chars,
};
use crate::wordmap::{
    add_unique_word, best_prefixes, keys_unique, lemma_add_keeps_unique, map_model, predictions,
    spec_add_unique, spec_best_prefixes, spec_predictions, words_unique, EntryModel, WordEntry,
};

verus! {

/// The reading and text that a user dictionary line gives: the first two
/// tab-separated fields, trimmed and non-empty; a third field (the part of
/// speech) is ignored.
pub open spec fn user_row(line: Seq<char>) -> Option<(Seq<char>, Seq<char>)> {
    let reading = spec_trim(head_before(line, '\t'));
    match tail_after(line, '\t') {
        Some(rest) => {
            let text = spec_trim(head_before(rest, '\t'));
            if reading.len() == 0 || text.len() == 0 {
                None
            } else {
                Some((reading, text))
            }
        },
        None => None,
    }
}

/// The word map of a user dictionary file: every line's text added under
/// its reading, a text that the reading already has not added again.
pub open spec fn user_model(lines: Seq<Seq<char>>) -> Seq<EntryModel>
    decreases lines.len(),
{
    if lines.len() == 0 {
        Seq::empty()
    } else {
        let m = user_model(lines.drop_last());
        match user_row(lines.last()) {
            Some(row) => spec_add_unique(m, row.0, row.1),
            None => m,
        }
    }
}

/// The user's dictionary: readings mapped to the words the user registered.
pub struct UserDictionary {
    entries: Vec<WordEntry<Vec<char>>>,
}

impl View for UserDictionary {
    type V = Seq<EntryModel>;

    closed spec fn view(&self) -> Seq<EntryModel> {
        map_model(self.entries@)
    }
}

fn parse_user_row(line: &Vec<char>) -> (r: Option<(Vec<char>, Vec<char>)>)
    ensures
        r is Some == user_row(line@) is Some,
        r matches Some(row) ==> user_row(line@) == Some((row.0@, row.1@)),
{
    let (head, rest) = split_once_chars(line.as_slice(), '\t');
    let reading = trim_chars(head.as_slice());
    match rest {
        Some(rest) => {
            let (field, _) = split_once_chars(rest.as_slice(), '\t');
            let text = trim_chars(field.as_slice());
            if reading.len() == 0 || text.len() == 0 {
                None
            } else {
                Some((reading, text))
            }
        },
        None => None,
    }
}

impl UserDictionary {
    /// An empty dictionary.
    pub fn new() -> (d: UserDictionary)
        ensures
            d@ == Seq::<EntryModel>::empty(),
    {
        let d = UserDictionary { entries: Vec::new() };
        assert(d@ =~= Seq::<EntryModel>::empty());
        d
    }

    /// The dictionary that a user dictionary file holds.
    pub fn parse(content: &str) -> (d: UserDictionary)
        ensures
            d@ == user_model(spec_lines(content@)),
    {
        let chars = chars_of(content);
        let lines = lines_of(chars.as_slice());
        let ghost ls = spec_lines(content@);
        let mut entries: Vec<WordEntry<Vec<char>>> = Vec::new();
        assert(map_model(entries@) =~= user_model(ls.take(0)));
        let mut i: usize = 0;
        while i < lines.len()
            invariant
                ls == spec_lines(content@),
                lines@.len() == ls.len(),
                forall|k: int| 0 <= k < lines@.len() ==> #[trigger] lines@[k]@ == ls[k],
                i <= lines@.len(),
                map_model(entries@) == user_model(ls.take(i as int)),
            decreases lines@.len() - i,
        {
            assert(ls.take(i + 1).drop_last() == ls.take(i as int));
            assert(ls.take(i + 1).last() == ls[i as int]);
            match parse_user_row(&lines[i]) {
                Some((reading, text)) => {
                    add_unique_word(&mut entries, reading.as_slice(), text);
                },
                None => {},
            }
            i += 1;
        }
        assert(ls.take(lines@.len() as int) == ls);
        UserDictionary { entries }
    }

    /// The words of the longest readings that start `hiragana`.
    pub fn lookup_best_prefixes(&self, hiragana: &str) -> (r: Vec<Candidate>)
        ensures
            models(r@) == spec_best_prefixes(self@, hiragana@),
    {
        let h = chars_of(hiragana);
        best_prefixes(&self.entries, &h)
    }

    /// The words of the readings that extend `hiragana`.
    pub fn lookup_predictions(&self, hiragana: &str) -> (r: Vec<Candidate>)
        ensures
            models(r@) == spec_predictions(self@, hiragana@),
    {
        let h = chars_of(hiragana);
        predictions(&self.entries, &h)
    }
}

/// The emoji and the keywords field of an emoji dictionary line: the first
/// two tab-separated fields, trimmed and non-empty.
pub open spec fn emoji_line(line: Seq<char>) -> Option<(Seq<char>, Seq<char>)> {
    let emoji = spec_trim(head_before(line, '\t'));
    match tail_after(line, '\t') {
        Some(rest) => {
            let keywords = spec_trim(head_before(rest, '\t'));
            if emoji.len() == 0 || keywords.len() == 0 {
                None
            } else {
                Some((emoji, keywords))
            }
        },
        None => None,
    }
}

/// `m` with `emoji` added under each non-empty trimmed keyword.
pub open spec fn add_keywords(m: Seq<EntryModel>, keywords: Seq<Seq<char>>, emoji: Seq<char>) -> Seq<
    EntryModel,
>
    decreases keywords.len(),
{
    if keywords.len() == 0 {
        m
    } else {
        let before = add_keywords(m, keywords.drop_last(), emoji);
        let k = spec_trim(keywords.last());
        if k.len() == 0 {
            before
        } else {
            spec_add_unique(before, k, emoji)
        }
    }
}

/// The word map of an emoji dictionary file: each emoji under each of its
/// comma-separated keywords.
pub open spec fn emoji_model(lines: Seq<Seq<char>>) -> Seq<EntryModel>
    decreases lines.len(),
{
    if lines.len() == 0 {
        Seq::empty()
    } else {
        let m = emoji_model(lines.drop_last());
        match emoji_line(lines.last()) {
            Some(row) => add_keywords(m, split_on(row.1, ','), row.0),
            None => m,
        }
    }
}

/// Emoji by keyword reading.
pub struct EmojiDictionary {
    entries: Vec<WordEntry<Vec<char>>>,
}

impl View for EmojiDictionary {
    type V = Seq<EntryModel>;

    closed spec fn view(&self) -> Seq<EntryModel> {
        map_model(self.entries@)
    }
}

fn parse_emoji_line(line: &Vec<char>) -> (r: Option<(Vec<char>, Vec<char>)>)
    ensures
        r is Some == emoji_line(line@) is Some,
        r matches Some(row) ==> emoji_line(line@) == Some((row.0@, row.1@)),
{
    let (head, rest) = split_once_chars(line.as_slice(), '\t');
    let emoji = trim_chars(head.as_slice());
    match rest {
        Some(rest) => {
            let (field, _) = split_once_chars(rest.as_slice(), '\t');
            let keywords = trim_chars(field.as_slice());
            if emoji.len() == 0 || keywords.len() == 0 {
                None
            } else {
                Some((emoji, keywords))
            }
        },
        None => None,
    }
}

impl EmojiDictionary {
    /// An empty dictionary.
    pub fn new() -> (d: EmojiDictionary)
        ensures
            d@ == Seq::<EntryModel>::empty(),
    {
        let d = EmojiDictionary { entries: Vec::new() };
        assert(d@ =~= Seq::<EntryModel>::empty());
        d
    }

    /// The dictionary that an emoji dictionary file holds.
    pub fn parse(content: &str) -> (d: EmojiDictionary)
        ensures
            d@ == emoji_model(spec_lines(content@)),
    {
        let chars = chars_of(content);
        let lines = lines_of(chars.as_slice());
        let ghost ls = spec_lines(content@);
        let mut entries: Vec<WordEntry<Vec<char>>> = Vec::new();
        assert(map_model(entries@) =~= emoji_model(ls.take(0)));
        let mut i: usize = 0;
        while i < lines.len()
            invariant
                ls == spec_lines(content@),
                lines@.len() == ls.len(),
                forall|k: int| 0 <= k < lines@.len() ==> #[trigger] lines@[k]@ == ls[k],
                i <= lines@.len(),
                map_model(entries@) == emoji_model(ls.take(i as int)),
            decreases lines@.len() - i,
        {
            assert(ls.take(i + 1).drop_last() == ls.take(i as int));
            assert(ls.take(i + 1).last() == ls[i as int]);
            match parse_emoji_line(&lines[i]) {
                Some((emoji, keywords)) => {
                    let parts = split_chars(keywords.as_slice(), ',');
                    let ghost kws = split_on(keywords@, ',');
                    let ghost base = map_model(entries@);
                    let mut j: usize = 0;
                    assert(kws.take(0) =~= Seq::<Seq<char>>::empty());
                    while j < parts.len()
                        invariant
                            parts@.len() == kws.len(),
                            forall|k: int| 0 <= k < parts@.len() ==> #[trigger] parts@[k]@ == kws[k],
                            j <= parts@.len(),
                            map_model(entries@) == add_keywords(base, kws.take(j as int), emoji@),
                        decreases parts@.len() - j,
                    {
                        assert(kws.take(j + 1).drop_last() == kws.take(j as int));
                        assert(kws.take(j + 1).last() == kws[j as int]);
                        let k = trim_chars(parts[j].as_slice());
                        if k.len() > 0 {
                            let e = crate::text::copy_chars(&emoji);
                            add_unique_word(&mut entries, k.as_slice(), e);
                        }
                        j += 1;
                    }
                    assert(kws.take(parts@.len() as int) == kws);
                },
                None => {},
            }
            i += 1;
        }
        assert(ls.take(lines@.len() as int) == ls);
        EmojiDictionary { entries }
    }

    /// The emoji of the longest keywords that start `hiragana`.
    pub fn lookup_best_prefixes(&self, hiragana: &str) -> (r: Vec<Candidate>)
        ensures
            models(r@) == spec_best_prefixes(self@, hiragana@),
    {
        let h = chars_of(hiragana);
        best_prefixes(&self.entries, &h)
    }

    /// The emoji of the keywords that extend `hiragana`.
    pub fn lookup_predictions(&self, hiragana: &str) -> (r: Vec<Candidate>)
        ensures
            models(r@) == spec_predictions(self@, hiragana@),
    {
        let h = chars_of(hiragana);
        predictions(&self.entries, &h)
    }
}

proof fn lemma_add_keywords_unique(m: Seq<EntryModel>, keywords: Seq<Seq<char>>, emoji: Seq<char>)
    requires
        keys_unique(m),
        words_unique(m),
    ensures
        keys_unique(add_keywords(m, keywords, emoji)),
        words_unique(add_keywords(m, keywords, emoji)),
    decreases keywords.len(),
{
    if keywords.len() > 0 {
        lemma_add_keywords_unique(m, keywords.drop_last(), emoji);
        let before = add_keywords(m, keywords.drop_last(), emoji);
        lemma_add_keeps_unique(before, spec_trim(keywords.last()), emoji);
    }
}

/// A user dictionary file never gives a reading twice, nor a word twice
/// under one reading; neither does an emoji dictionary file give a keyword
/// twice, nor an emoji twice under one keyword.
pub proof fn lemma_dictionaries_unique(lines: Seq<Seq<char>>)
    ensures
        keys_unique(user_model(lines)),
        words_unique(user_model(lines)),
        keys_unique(emoji_model(lines)),
        words_unique(emoji_model(lines)),
    decreases lines.len(),
{
    if lines.len() > 0 {
        let init = lines.drop_last();
        lemma_dictionaries_unique(init);
        if let Some(row) = user_row(lines.last()) {
            lemma_add_keeps_unique(user_model(init), row.0, row.1);
        }
        if let Some(row) = emoji_line(lines.last()) {
            lemma_add_keywords_unique(emoji_model(init), split_on(row.1, ','), row.0);
        }
    }
}

/// `s` ends with `suffix`.
pub open spec fn ends_with(s: Seq<char>, suffix: Seq<char>) -> bool {
    suffix.len() <= s.len() && s.skip(s.len() - suffix.len()) == suffix
}

/// A file name of an emoji dictionary: it starts with `emoji_all_E` and
/// ends with `.txt`.
pub open spec fn is_emoji_file_name(name: Seq<char>) -> bool {
    "emoji_all_E"@.is_prefix_of(name) && ends_with(name, ".txt"@)
}

/// The emoji dictionary file to read among the file names of a folder: the
/// last in text order of the emoji dictionary names, none when there is no
/// such name.
pub open spec fn newest_emoji_file(names: Seq<Seq<char>>) -> Option<Seq<char>>
    decreases names.len(),
{
    if names.len() == 0 {
        None
    } else {
        let best = newest_emoji_file(names.drop_last());
        let name = names.last();
        if !is_emoji_file_name(name) {
            best
        } else {
            match best {
                Some(b) => if chars_lt(b, name) {
                    Some(name)
                } else {
                    Some(b)
                },
                None => Some(name),
            }
        }
    }
}

fn name_is_emoji_file(name: &Vec<char>) -> (r: bool)
    ensures
        r == is_emoji_file_name(name@),
{
    let prefix = chars_of("emoji_all_E");
    let suffix = chars_of(".txt");
    if !chars_start_with(name.as_slice(), prefix.as_slice()) || name.len() < suffix.len() {
        return false;
    }
    let tail = copy_range(name.as_slice(), name.len() - suffix.len(), name.len());
    assert(tail@ =~= name@.skip(name@.len() - suffix@.len()));
    chars_equal(tail.as_slice(), suffix.as_slice())
}

/// The emoji dictionary file to read among the given file names (see
/// `newest_emoji_file`).
pub fn latest_emoji_file_name(names: &Vec<String>) -> (r: Option<String>)
    ensures
        match r {
            Some(n) => Some(n@),
            None => None,
        } == newest_emoji_file(names@.map_values(|n: String| n@)),
{
    let ghost ns = names@.map_values(|n: String| n@);
    let mut best: Option<Vec<char>> = None;
    let mut i: usize = 0;
    while i < names.len()
        invariant
            ns == names@.map_values(|n: String| n@),
            i <= names@.len(),
            match best {
                Some(b) => Some(b@),
                None => None,
            } == newest_emoji_file(ns.take(i as int)),
        decreases names@.len() - i,
    {
        let name = chars_of(names[i].as_str());
        assert(ns.take(i + 1).drop_last() =~= ns.take(i as int));
        assert(ns.take(i + 1).last() == name@);
        if name_is_emoji_file(&name) {
            let better = match &best {
                Some(b) => chars_less(b.as_slice(), name.as_slice()),
                None => true,
            };
            if better {
                best = Some(name);
            }
        }
        i += 1;
    }
    assert(ns.take(names@.len() as int) =~= ns);
    match best {
        Some(b) => Some(string_from_chars(b.as_slice())),
        None => None,
    }
}

} // verus!

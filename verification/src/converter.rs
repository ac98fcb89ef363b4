//! The conversion session: the romaji typed so far, the hiragana composed
//! from it, and the candidates that every source offers for that hiragana.
//!
//! Work outside the process (reading files, running the outside conversion
//! command and the language model) is done by the caller: the converter
//! says which commands to run and takes back what they printed.

use vstd::prelude::*;
use crate::candidate::{
    count_i32, dedupe_candidates, distinct_pairs, lemma_dedupe, models, spec_dedupe, Candidate,
    CandidateModel, MAX_RETURNED_CANDIDATES,
};
use crate::config::{ConversionConfig, MagicConversionConfig, ZenzaiConfig, is_default_conversion};
use crate::dictionary::{
    spec_compound_candidates, spec_dictionary_predictions, spec_typo_corrections, texts_of,
    Dictionary, ScoredEntry,
};
use crate::dynamic::{
    datetime_in_range, local_now, spec_dynamic_best_prefixes, spec_dynamic_predictions,
    DynamicDictionary, LocalDateTime,
};
use crate::engine::{
    is_magic_request, is_prediction_request, is_rerank_request, magic_wanted, prediction_wanted,
    rerank_wanted, CommandRequest, MagicConversionEngine, ZenzaiEngine,
};
use crate::candidate::{spec_magic_candidates, spec_rerank, spec_zenzai_candidates};
use crate::learning::{
    count_of, learned_prefix_hits, next_count, set_count, spec_learned_predictions, LearningStore,
};
use crate::romaji::{compose_from, configured_rows, standard_rows, InputTable};
use crate::text::{after_chars, chars_of, skip_chars, spec_trim, string_from_chars};
use crate::user_dictionary::{EmojiDictionary, UserDictionary};
use crate::wordmap::{at_most, spec_best_prefixes, spec_predictions};

verus! {

/// A conversion session and the sources that its candidates come from.
pub struct NativeConverter {
    pub dictionary: Dictionary,
    pub user_dictionary: UserDictionary,
    pub emoji_dictionary: EmojiDictionary,
    pub learning: LearningStore,
    pub raw_input: String,
    pub hiragana: String,
    pub context: String,
    pub conversion_config: ConversionConfig,
    pub zenzai_config: ZenzaiConfig,
    pub input_table: InputTable,
    pub magic_conversion_config: MagicConversionConfig,
}

/// The two sessions have the same dictionaries and learned counts.
pub open spec fn same_sources(a: NativeConverter, b: NativeConverter) -> bool {
    &&& a.dictionary == b.dictionary
    &&& a.user_dictionary == b.user_dictionary
    &&& a.emoji_dictionary == b.emoji_dictionary
    &&& a.learning == b.learning
}

/// The two sessions have the same settings.
pub open spec fn same_settings(a: NativeConverter, b: NativeConverter) -> bool {
    &&& a.conversion_config == b.conversion_config
    &&& a.zenzai_config == b.zenzai_config
    &&& a.magic_conversion_config == b.magic_conversion_config
    &&& a.input_table == b.input_table
}

/// The two sessions hold the same typed text, hiragana and context.
pub open spec fn same_text(a: NativeConverter, b: NativeConverter) -> bool {
    &&& a.raw_input == b.raw_input
    &&& a.hiragana == b.hiragana
    &&& a.context == b.context
}

/// Some candidate of `s` covers `n` characters.
pub open spec fn covers_all(s: Seq<CandidateModel>, n: int) -> bool {
    exists|i: int| 0 <= i < s.len() && s[i].2 as int == n
}

/// The candidates of the outside conversion command: what it printed, when
/// it was wanted.
pub open spec fn magic_part(
    config: MagicConversionConfig,
    h: Seq<char>,
    output: Option<Seq<char>>,
) -> Seq<CandidateModel> {
    match output {
        Some(o) => if magic_wanted(config, h) {
            spec_magic_candidates(o, h)
        } else {
            Seq::empty()
        },
        None => Seq::empty(),
    }
}

/// The model's predictions: what it printed, when they were wanted.
pub open spec fn prediction_part(
    config: ZenzaiConfig,
    h: Seq<char>,
    model_exists: bool,
    output: Option<Seq<char>>,
) -> Seq<CandidateModel> {
    match output {
        Some(o) => if prediction_wanted(config, h, model_exists) {
            spec_zenzai_candidates(o, h)
        } else {
            Seq::empty()
        },
        None => Seq::empty(),
    }
}

/// The dictionary's candidates when live conversion is on: compounds of
/// several readings, the longest readings that start `h`, and, when no
/// reading covers all of `h` and typo correction is on, the readings one
/// edit away from `h`.
pub open spec fn live_part(config: ConversionConfig, d: Seq<ScoredEntry>, h: Seq<char>) -> Seq<
    CandidateModel,
> {
    if config.live_conversion_enabled {
        let prefixes = spec_best_prefixes(texts_of(d), h);
        spec_compound_candidates(d, h) + prefixes + if config.typo_correction_enabled
            && !covers_all(prefixes, h.len() as int) {
            spec_typo_corrections(d, h)
        } else {
            Seq::empty()
        }
    } else {
        Seq::empty()
    }
}

/// The predictions of every source when prediction is on.
pub open spec fn predictions_part(c: NativeConverter, h: Seq<char>, now: LocalDateTime) -> Seq<
    CandidateModel,
> {
    if c.conversion_config.prediction_enabled {
        spec_predictions(c.user_dictionary@, h) + spec_dynamic_predictions(h, now) + spec_predictions(
            c.emoji_dictionary@,
            h,
        ) + (if c.conversion_config.learning_enabled {
            spec_learned_predictions(c.learning@, h)
        } else {
            Seq::empty()
        }) + spec_dictionary_predictions(c.dictionary@, h)
    } else {
        Seq::empty()
    }
}

/// The candidates of the sources that are asked first: the user
/// dictionary, the clock, the outside command, the model's predictions, the
/// emoji and the learned commits.
pub open spec fn first_candidates(
    c: NativeConverter,
    now: LocalDateTime,
    model_exists: bool,
    magic_output: Option<Seq<char>>,
    prediction_output: Option<Seq<char>>,
) -> Seq<CandidateModel> {
    let h = c.hiragana@;
    spec_best_prefixes(c.user_dictionary@, h) + spec_dynamic_best_prefixes(h, now) + magic_part(
        c.magic_conversion_config,
        h,
        magic_output,
    ) + prediction_part(c.zenzai_config, h, model_exists, prediction_output)
        + spec_best_prefixes(c.emoji_dictionary@, h) + if c.conversion_config.learning_enabled {
        at_most(learned_prefix_hits(c.learning@, h, h.len() as int), MAX_RETURNED_CANDIDATES as int)
    } else {
        Seq::empty()
    }
}

/// Every candidate for the session's hiragana at time `now`, before
/// duplicates are dropped, in the order the sources are asked: the first
/// sources, the dictionary, the predictions, and last the hiragana itself.
pub open spec fn all_candidates(
    c: NativeConverter,
    now: LocalDateTime,
    model_exists: bool,
    magic_output: Option<Seq<char>>,
    prediction_output: Option<Seq<char>>,
) -> Seq<CandidateModel> {
    let h = c.hiragana@;
    first_candidates(c, now, model_exists, magic_output, prediction_output) + live_part(
        c.conversion_config,
        c.dictionary@,
        h,
    ) + predictions_part(c, h, now) + seq![(h, Seq::<char>::empty(), count_i32(h))]
}

/// The candidates of the session at time `now`: none for empty hiragana,
/// else every candidate with repeats dropped, at most
/// `MAX_RETURNED_CANDIDATES`.
pub open spec fn spec_candidates(
    c: NativeConverter,
    now: LocalDateTime,
    model_exists: bool,
    magic_output: Option<Seq<char>>,
    prediction_output: Option<Seq<char>>,
) -> Seq<CandidateModel> {
    if c.hiragana@.len() == 0 {
        Seq::empty()
    } else {
        spec_dedupe(all_candidates(c, now, model_exists, magic_output, prediction_output))
    }
}

/// The view of an optional text.
pub open spec fn text_view(t: Option<&str>) -> Option<Seq<char>> {
    match t {
        Some(s) => Some(s@),
        None => None,
    }
}

fn extend(out: &mut Vec<Candidate>, more: Vec<Candidate>)
    ensures
        models(final(out)@) == models(old(out)@) + models(more@),
{
    let mut more = more;
    let ghost a = out@;
    let ghost b = more@;
    out.append(&mut more);
    assert(models(out@) =~= models(a) + models(b));
}

fn none_found() -> (r: Vec<Candidate>)
    ensures
        models(r@) == Seq::<CandidateModel>::empty(),
{
    let r: Vec<Candidate> = Vec::new();
    assert(models(r@) =~= Seq::<CandidateModel>::empty());
    r
}

fn has_full_match(candidates: &Vec<Candidate>, length: usize) -> (r: bool)
    ensures
        r == covers_all(models(candidates@), length as int),
{
    let ghost m = models(candidates@);
    let mut i: usize = 0;
    while i < candidates.len()
        invariant
            m == models(candidates@),
            i <= candidates@.len(),
            forall|j: int| 0 <= j < i ==> m[j].2 as int != length,
        decreases candidates@.len() - i,
    {
        let count = candidates[i].corresponding_count;
        assert(m[i as int].2 == count);
        if count >= 0 && count as usize == length {
            return true;
        }
        i += 1;
    }
    false
}

impl NativeConverter {
    /// A session with empty dictionaries, nothing learned, the default
    /// conversion options, the model and the outside command switched off,
    /// and the given model and command paths.
    pub fn new(model_path: String, command_path: String) -> (c: NativeConverter)
        ensures
            c.dictionary@ == Seq::<ScoredEntry>::empty(),
            c.user_dictionary@.len() == 0,
            c.emoji_dictionary@.len() == 0,
            c.learning@.len() == 0,
            c.raw_input@.len() == 0,
            c.hiragana@.len() == 0,
            c.context@.len() == 0,
            is_default_conversion(c.conversion_config),
            crate::config::is_disabled_zenzai(c.zenzai_config, model_path@, command_path@),
            c.input_table@ == standard_rows(),
            !c.magic_conversion_config.enabled,
    {
        NativeConverter::from_resources(
            Dictionary::new(),
            UserDictionary::new(),
            EmojiDictionary::new(),
            LearningStore::new(),
            model_path,
            command_path,
        )
    }

    /// A session over the given dictionaries and learned counts, with the
    /// default conversion options and the model and outside command
    /// switched off.
    pub fn from_resources(
        dictionary: Dictionary,
        user_dictionary: UserDictionary,
        emoji_dictionary: EmojiDictionary,
        learning: LearningStore,
        model_path: String,
        command_path: String,
    ) -> (c: NativeConverter)
        ensures
            c.dictionary == dictionary,
            c.user_dictionary == user_dictionary,
            c.emoji_dictionary == emoji_dictionary,
            c.learning == learning,
            c.raw_input@.len() == 0,
            c.hiragana@.len() == 0,
            c.context@.len() == 0,
            is_default_conversion(c.conversion_config),
            crate::config::is_disabled_zenzai(c.zenzai_config, model_path@, command_path@),
            c.input_table@ == standard_rows(),
            !c.magic_conversion_config.enabled,
    {
        NativeConverter {
            dictionary,
            user_dictionary,
            emoji_dictionary,
            learning,
            raw_input: String::new(),
            hiragana: String::new(),
            context: String::new(),
            conversion_config: ConversionConfig::default(),
            zenzai_config: ZenzaiConfig::disabled(model_path, command_path),
            input_table: InputTable::standard(),
            magic_conversion_config: MagicConversionConfig::default(),
        }
    }

    /// Sets the language model settings.
    pub fn configure_zenzai(&mut self, config: ZenzaiConfig)
        ensures
            final(self).zenzai_config == config,
            same_sources(*final(self), *old(self)),
            same_text(*final(self), *old(self)),
            final(self).conversion_config == old(self).conversion_config,
            final(self).input_table == old(self).input_table,
            final(self).magic_conversion_config == old(self).magic_conversion_config,
    {
        self.zenzai_config = config;
    }

    /// Sets the outside conversion command settings.
    pub fn configure_magic_conversion(&mut self, config: MagicConversionConfig)
        ensures
            final(self).magic_conversion_config == config,
            same_sources(*final(self), *old(self)),
            same_text(*final(self), *old(self)),
            final(self).conversion_config == old(self).conversion_config,
            final(self).input_table == old(self).input_table,
            final(self).zenzai_config == old(self).zenzai_config,
    {
        self.magic_conversion_config = config;
    }

    /// Sets the conversion options and the romaji table they ask for
    /// (`custom_table` is the text of the custom table file, if one was
    /// read), and composes the typed text again with that table.
    pub fn configure_conversion(&mut self, config: ConversionConfig, custom_table: Option<&str>)
        ensures
            final(self).conversion_config == config,
            final(self).input_table@ == configured_rows(config.input_style@, text_view(custom_table)),
            final(self).hiragana@ == compose_from(
                old(self).raw_input@,
                final(self).input_table@,
                0,
            ),
            final(self).raw_input == old(self).raw_input,
            final(self).context == old(self).context,
            same_sources(*final(self), *old(self)),
            final(self).zenzai_config == old(self).zenzai_config,
            final(self).magic_conversion_config == old(self).magic_conversion_config,
    {
        self.input_table = InputTable::from_config(&config, custom_table);
        self.conversion_config = config;
        self.refresh_hiragana();
    }

    /// Replaces the user dictionary.
    pub fn reload_user_dictionary(&mut self, dictionary: UserDictionary)
        ensures
            final(self).user_dictionary == dictionary,
            final(self).dictionary == old(self).dictionary,
            final(self).emoji_dictionary == old(self).emoji_dictionary,
            final(self).learning == old(self).learning,
            same_settings(*final(self), *old(self)),
            same_text(*final(self), *old(self)),
    {
        self.user_dictionary = dictionary;
    }

    /// Replaces the learned counts.
    pub fn reload_learning(&mut self, learning: LearningStore)
        ensures
            final(self).learning == learning,
            final(self).dictionary == old(self).dictionary,
            final(self).user_dictionary == old(self).user_dictionary,
            final(self).emoji_dictionary == old(self).emoji_dictionary,
            same_settings(*final(self), *old(self)),
            same_text(*final(self), *old(self)),
    {
        self.learning = learning;
    }

    fn refresh_hiragana(&mut self)
        ensures
            final(self).hiragana@ == compose_from(old(self).raw_input@, old(self).input_table@, 0),
            final(self).raw_input == old(self).raw_input,
            final(self).context == old(self).context,
            same_sources(*final(self), *old(self)),
            same_settings(*final(self), *old(self)),
    {
        self.hiragana = self.input_table.convert(self.raw_input.as_str());
    }

    /// Types `input` after the text typed so far and composes the hiragana
    /// again.
    pub fn append_text(&mut self, input: &str)
        ensures
            final(self).raw_input@ == old(self).raw_input@ + input@,
            final(self).hiragana@ == compose_from(final(self).raw_input@, old(self).input_table@, 0),
            final(self).context == old(self).context,
            same_sources(*final(self), *old(self)),
            same_settings(*final(self), *old(self)),
    {
        let mut chars = chars_of(self.raw_input.as_str());
        let tail = chars_of(input);
        crate::text::push_all(&mut chars, tail.as_slice());
        self.raw_input = string_from_chars(chars.as_slice());
        self.refresh_hiragana();
    }

    /// Deletes the last typed character, if any, and composes the hiragana
    /// again.
    pub fn remove_text(&mut self)
        ensures
            final(self).raw_input@ == if old(self).raw_input@.len() > 0 {
                old(self).raw_input@.drop_last()
            } else {
                old(self).raw_input@
            },
            final(self).hiragana@ == compose_from(final(self).raw_input@, old(self).input_table@, 0),
            final(self).context == old(self).context,
            same_sources(*final(self), *old(self)),
            same_settings(*final(self), *old(self)),
    {
        let mut chars = chars_of(self.raw_input.as_str());
        if chars.len() > 0 {
            chars.pop();
        }
        self.raw_input = string_from_chars(chars.as_slice());
        self.refresh_hiragana();
    }

    /// Empties the typed text and the hiragana.
    pub fn clear_text(&mut self)
        ensures
            final(self).raw_input@.len() == 0,
            final(self).hiragana@.len() == 0,
            final(self).context == old(self).context,
            same_sources(*final(self), *old(self)),
            same_settings(*final(self), *old(self)),
    {
        self.raw_input = String::new();
        self.hiragana = String::new();
    }

    /// Drops the first `count` characters of the hiragana (none for a
    /// negative count); what remains becomes the typed text too.
    pub fn shrink_text(&mut self, count: i32)
        ensures
            final(self).hiragana@ == after_chars(
                old(self).hiragana@,
                if count < 0 {
                    0
                } else {
                    count as int
                },
            ),
            final(self).raw_input@ == final(self).hiragana@,
            final(self).context == old(self).context,
            same_sources(*final(self), *old(self)),
            same_settings(*final(self), *old(self)),
    {
        let n: usize = if count < 0 {
            0
        } else {
            count as usize
        };
        let rest = skip_chars(self.hiragana.as_str(), n);
        self.raw_input = rest.clone();
        self.hiragana = rest;
    }

    /// Sets the text before the composition.
    pub fn set_context(&mut self, context: String)
        ensures
            final(self).context == context,
            final(self).raw_input == old(self).raw_input,
            final(self).hiragana == old(self).hiragana,
            same_sources(*final(self), *old(self)),
            same_settings(*final(self), *old(self)),
    {
        self.context = context;
    }

    /// Learns that `text` was committed for `reading`, when learning is on
    /// (see `LearningStore::record_commit`). Returns whether the learned
    /// counts changed, so that the caller can store them.
    pub fn record_commit(&mut self, reading: &str, text: &str) -> (changed: bool)
        ensures
            changed == (old(self).conversion_config.learning_enabled && spec_trim(reading@).len() > 0
                && spec_trim(text@).len() > 0 && spec_trim(reading@) != spec_trim(text@)),
            changed ==> final(self).learning@ == set_count(
                old(self).learning@,
                spec_trim(reading@),
                spec_trim(text@),
                next_count(count_of(old(self).learning@, spec_trim(reading@), spec_trim(text@))),
            ),
            !changed ==> final(self).learning@ == old(self).learning@,
            final(self).dictionary == old(self).dictionary,
            final(self).user_dictionary == old(self).user_dictionary,
            final(self).emoji_dictionary == old(self).emoji_dictionary,
            same_settings(*final(self), *old(self)),
            same_text(*final(self), *old(self)),
    {
        if !self.conversion_config.learning_enabled {
            return false;
        }
        self.learning.record_commit(reading, text)
    }

    /// The hiragana composed so far.
    pub fn hiragana(&self) -> (r: &str)
        ensures
            r@ == self.hiragana@,
    {
        self.hiragana.as_str()
    }

    /// The personalization file to read for the model's prompts: the
    /// configured file, when the model is on, its model file exists and
    /// personalization applies.
    pub fn personalization_file(&self, model_exists: bool) -> (r: Option<String>)
        ensures
            r is Some == (self.zenzai_config.enabled && model_exists
                && self.zenzai_config.personalization_enabled
                && self.zenzai_config.personalization_path@.len() > 0),
            r matches Some(p) ==> p@ == self.zenzai_config.personalization_path@,
    {
        if !self.zenzai_config.enabled || !model_exists {
            return None;
        }
        self.zenzai_config.personalization_file()
    }

    /// The outside conversion command to run for the current hiragana, if
    /// it is wanted.
    pub fn magic_request(&self) -> (r: Option<CommandRequest>)
        ensures
            r is Some == magic_wanted(self.magic_conversion_config, self.hiragana@),
            r matches Some(q) ==> is_magic_request(
                q,
                self.magic_conversion_config,
                self.context@,
                self.hiragana@,
            ),
    {
        MagicConversionEngine::request(
            &self.magic_conversion_config,
            self.context.as_str(),
            self.hiragana.as_str(),
        )
    }

    /// The model command that predicts candidates for the current
    /// hiragana, if predictions are wanted.
    pub fn prediction_request(&self, model_exists: bool, personalization: &str) -> (r: Option<
        CommandRequest,
    >)
        ensures
            r is Some == prediction_wanted(self.zenzai_config, self.hiragana@, model_exists),
            r matches Some(q) ==> is_prediction_request(
                q,
                self.zenzai_config,
                self.context@,
                self.hiragana@,
                personalization@,
            ),
    {
        ZenzaiEngine::prediction_request(
            &self.zenzai_config,
            self.context.as_str(),
            self.hiragana.as_str(),
            model_exists,
            personalization,
        )
    }

    /// The model command that chooses among `candidates`, if a choice is
    /// wanted.
    pub fn rerank_request(
        &self,
        candidates: &Vec<Candidate>,
        model_exists: bool,
        personalization: &str,
    ) -> (r: Option<CommandRequest>)
        ensures
            r is Some == rerank_wanted(self.zenzai_config, candidates@.len() as int, model_exists),
            r matches Some(q) ==> is_rerank_request(
                q,
                self.zenzai_config,
                self.context@,
                self.hiragana@,
                candidates@,
                personalization@,
            ),
    {
        ZenzaiEngine::rerank_request(
            &self.zenzai_config,
            self.context.as_str(),
            self.hiragana.as_str(),
            candidates,
            model_exists,
            personalization,
        )
    }

    /// The candidates after the model's choice (see `ZenzaiEngine::rerank`).
    pub fn rerank(&self, candidates: Vec<Candidate>, model_exists: bool, output: Option<&str>) -> (r:
        Vec<Candidate>)
        ensures
            r@ == (match output {
                Some(o) => if rerank_wanted(self.zenzai_config, candidates@.len() as int, model_exists) {
                    spec_rerank(candidates@, o@)
                } else {
                    candidates@
                },
                None => candidates@,
            }),
    {
        ZenzaiEngine::rerank(&self.zenzai_config, candidates, model_exists, output)
    }

    /// The candidates for the current hiragana at the current time (see
    /// `candidates_at`).
    pub fn candidates(
        &self,
        model_exists: bool,
        magic_output: Option<&str>,
        prediction_output: Option<&str>,
    ) -> (r: Vec<Candidate>)
        ensures
            exists|t: LocalDateTime|
                datetime_in_range(t) && models(r@) == spec_candidates(
                    *self,
                    t,
                    model_exists,
                    text_view(magic_output),
                    text_view(prediction_output),
                ),
    {
        let now = local_now();
        self.candidates_at(now, model_exists, magic_output, prediction_output)
    }

    fn first_sources(
        &self,
        now: LocalDateTime,
        model_exists: bool,
        magic_output: Option<&str>,
        prediction_output: Option<&str>,
    ) -> (r: Vec<Candidate>)
        requires
            datetime_in_range(now),
        ensures
            models(r@) == first_candidates(
                *self,
                now,
                model_exists,
                text_view(magic_output),
                text_view(prediction_output),
            ),
    {
        let h = self.hiragana.as_str();
        let mut out = self.user_dictionary.lookup_best_prefixes(h);
        extend(&mut out, DynamicDictionary::lookup_best_prefixes_at(h, now));
        extend(&mut out, MagicConversionEngine::candidates(&self.magic_conversion_config, h, magic_output));
        extend(
            &mut out,
            ZenzaiEngine::prediction_candidates(&self.zenzai_config, h, model_exists, prediction_output),
        );
        extend(&mut out, self.emoji_dictionary.lookup_best_prefixes(h));
        if self.conversion_config.learning_enabled {
            extend(&mut out, self.learning.lookup_best_prefixes(h));
        } else {
            extend(&mut out, none_found());
        }
        out
    }

    fn dictionary_candidates(&self) -> (r: Vec<Candidate>)
        ensures
            models(r@) == live_part(self.conversion_config, self.dictionary@, self.hiragana@),
    {
        if !self.conversion_config.live_conversion_enabled {
            return none_found();
        }
        let h = self.hiragana.as_str();
        let length = chars_of(h).len();
        let mut out = self.dictionary.lookup_compound_candidates(h);
        let prefixes = self.dictionary.lookup_best_prefixes(h);
        let full = has_full_match(&prefixes, length);
        extend(&mut out, prefixes);
        if self.conversion_config.typo_correction_enabled && !full {
            extend(&mut out, self.dictionary.lookup_typo_corrections(h));
        }
        out
    }

    fn all_predictions(&self, now: LocalDateTime) -> (r: Vec<Candidate>)
        requires
            datetime_in_range(now),
        ensures
            models(r@) == predictions_part(*self, self.hiragana@, now),
    {
        if !self.conversion_config.prediction_enabled {
            return none_found();
        }
        let h = self.hiragana.as_str();
        let mut out = self.user_dictionary.lookup_predictions(h);
        extend(&mut out, DynamicDictionary::lookup_predictions_at(h, now));
        extend(&mut out, self.emoji_dictionary.lookup_predictions(h));
        if self.conversion_config.learning_enabled {
            extend(&mut out, self.learning.lookup_predictions(h));
        } else {
            extend(&mut out, none_found());
        }
        extend(&mut out, self.dictionary.lookup_predictions(h));
        out
    }

    /// The candidates for the current hiragana at time `now` (see
    /// `spec_candidates`); `magic_output` and `prediction_output` are what
    /// the requested commands printed, `model_exists` whether the model
    /// file exists.
    pub fn candidates_at(
        &self,
        now: LocalDateTime,
        model_exists: bool,
        magic_output: Option<&str>,
        prediction_output: Option<&str>,
    ) -> (r: Vec<Candidate>)
        requires
            datetime_in_range(now),
        ensures
            models(r@) == spec_candidates(
                *self,
                now,
                model_exists,
                text_view(magic_output),
                text_view(prediction_output),
            ),
    {
        let length = chars_of(self.hiragana.as_str()).len();
        if length == 0 {
            return none_found();
        }
        let ghost hv = self.hiragana@;
        let mut out = self.first_sources(now, model_exists, magic_output, prediction_output);
        extend(&mut out, self.dictionary_candidates());
        extend(&mut out, self.all_predictions(now));
        let ghost before_raw = models(out@);
        let raw = Candidate {
            text: self.hiragana.clone(),
            subtext: String::new(),
            corresponding_count: length as i32,
        };
        out.push(raw);
        assert(models(out@) =~= before_raw.push((hv, Seq::<char>::empty(), count_i32(hv))));
        assert(models(out@) =~= all_candidates(
            *self,
            now,
            model_exists,
            text_view(magic_output),
            text_view(prediction_output),
        ));
        dedupe_candidates(out)
    }
}

/// The candidates of a session hold no two with the same text and
/// subtext and at most `MAX_RETURNED_CANDIDATES`; and the hiragana itself,
/// covering all of it, is among them unless they fill the list.
pub proof fn lemma_candidates_shape(
    c: NativeConverter,
    now: LocalDateTime,
    model_exists: bool,
    magic_output: Option<Seq<char>>,
    prediction_output: Option<Seq<char>>,
)
    ensures
        ({
            let r = spec_candidates(c, now, model_exists, magic_output, prediction_output);
            &&& distinct_pairs(r)
            &&& r.len() <= MAX_RETURNED_CANDIDATES
            &&& (c.hiragana@.len() > 0 && r.len() < MAX_RETURNED_CANDIDATES ==> exists|i: int|
                0 <= i < r.len() && r[i].0 == c.hiragana@ && r[i].1 == Seq::<char>::empty())
        }),
{
    let all = all_candidates(c, now, model_exists, magic_output, prediction_output);
    if c.hiragana@.len() > 0 {
        lemma_dedupe(all);
        let last = all.len() - 1;
        assert(all[last] == (c.hiragana@, Seq::<char>::empty(), count_i32(c.hiragana@)));
        if spec_dedupe(all).len() < MAX_RETURNED_CANDIDATES {
            assert(exists|i: int|
                0 <= i < spec_dedupe(all).len() && spec_dedupe(all)[i].0 == (#[trigger] all[last]).0
                    && spec_dedupe(all)[i].1 == all[last].1);
        }
    } else {
        assert(distinct_pairs(Seq::<CandidateModel>::empty()));
    }
}

/// With learning turned off, what has been learned makes no difference:
/// two sessions that differ only in their learned counts give the same
/// candidates, at every time and for every output of the outside commands.
pub proof fn lemma_learning_off_ignores_learned(
    c1: NativeConverter,
    c2: NativeConverter,
    now: LocalDateTime,
    model_exists: bool,
    magic_output: Option<Seq<char>>,
    prediction_output: Option<Seq<char>>,
)
    requires
        !c1.conversion_config.learning_enabled,
        c1.dictionary == c2.dictionary,
        c1.user_dictionary == c2.user_dictionary,
        c1.emoji_dictionary == c2.emoji_dictionary,
        same_settings(c1, c2),
        same_text(c1, c2),
    ensures
        spec_candidates(c1, now, model_exists, magic_output, prediction_output) == spec_candidates(
            c2,
            now,
            model_exists,
            magic_output,
            prediction_output,
        ),
{
    let h = c1.hiragana@;
    assert(first_candidates(c1, now, model_exists, magic_output, prediction_output)
        == first_candidates(c2, now, model_exists, magic_output, prediction_output));
    assert(predictions_part(c1, h, now) == predictions_part(c2, h, now));
    assert(all_candidates(c1, now, model_exists, magic_output, prediction_output) == all_candidates(
        c2,
        now,
        model_exists,
        magic_output,
        prediction_output,
    ));
}

/// Some candidate of `r` has the text and subtext of `x`.
pub open spec fn offered(r: Seq<CandidateModel>, x: CandidateModel) -> bool {
    exists|i: int| 0 <= i < r.len() && r[i].0 == x.0 && r[i].1 == x.1
}

proof fn lemma_part_offered(all: Seq<CandidateModel>, part: Seq<CandidateModel>, at: int)
    requires
        0 <= at,
        at + part.len() <= all.len(),
        all.subrange(at, at + part.len()) == part,
        spec_dedupe(all).len() < MAX_RETURNED_CANDIDATES,
    ensures
        forall|j: int| 0 <= j < part.len() ==> offered(spec_dedupe(all), #[trigger] part[j]),
{
    lemma_dedupe(all);
    assert forall|j: int| 0 <= j < part.len() implies offered(spec_dedupe(all), #[trigger] part[j]) by {
        let p = at + j;
        assert(all.subrange(at, at + part.len())[j] == all[p]);
        assert(exists|i: int|
            0 <= i < spec_dedupe(all).len() && spec_dedupe(all)[i].0 == (#[trigger] all[p]).0
                && spec_dedupe(all)[i].1 == all[p].1);
    }
}

proof fn lemma_parts_offered(
    u: Seq<CandidateModel>,
    d: Seq<CandidateModel>,
    mg: Seq<CandidateModel>,
    pr: Seq<CandidateModel>,
    e: Seq<CandidateModel>,
    l: Seq<CandidateModel>,
    later: Seq<CandidateModel>,
)
    requires
        spec_dedupe(u + d + mg + pr + e + l + later).len() < MAX_RETURNED_CANDIDATES,
    ensures
        ({
            let r = spec_dedupe(u + d + mg + pr + e + l + later);
            &&& forall|j: int| 0 <= j < u.len() ==> offered(r, #[trigger] u[j])
            &&& forall|j: int| 0 <= j < d.len() ==> offered(r, #[trigger] d[j])
            &&& forall|j: int| 0 <= j < e.len() ==> offered(r, #[trigger] e[j])
            &&& forall|j: int| 0 <= j < l.len() ==> offered(r, #[trigger] l[j])
        }),
{
    let all = u + d + mg + pr + e + l + later;
    let a1 = u.len() as int;
    let a2 = a1 + d.len();
    let a3 = a2 + mg.len() + pr.len();
    let a4 = a3 + e.len();
    assert(all.subrange(0, a1) =~= u);
    assert(all.subrange(a1, a1 + d.len()) =~= d);
    assert(all.subrange(a3, a3 + e.len()) =~= e);
    assert(all.subrange(a4, a4 + l.len()) =~= l);
    lemma_part_offered(all, u, 0);
    lemma_part_offered(all, d, a1);
    lemma_part_offered(all, e, a3);
    lemma_part_offered(all, l, a4);
}

/// Unless the candidates fill the list, every candidate that the user
/// dictionary, the clock and the emoji dictionary give for the longest
/// readings that start the hiragana is among them, with its subtext.
pub proof fn lemma_first_sources_offered(
    c: NativeConverter,
    now: LocalDateTime,
    model_exists: bool,
    magic_output: Option<Seq<char>>,
    prediction_output: Option<Seq<char>>,
)
    requires
        c.hiragana@.len() > 0,
        spec_candidates(c, now, model_exists, magic_output, prediction_output).len()
            < MAX_RETURNED_CANDIDATES,
    ensures
        ({
            let h = c.hiragana@;
            let r = spec_candidates(c, now, model_exists, magic_output, prediction_output);
            &&& forall|j: int|
                0 <= j < spec_best_prefixes(c.user_dictionary@, h).len() ==> offered(
                    r,
                    #[trigger] spec_best_prefixes(c.user_dictionary@, h)[j],
                )
            &&& forall|j: int|
                0 <= j < spec_dynamic_best_prefixes(h, now).len() ==> offered(
                    r,
                    #[trigger] spec_dynamic_best_prefixes(h, now)[j],
                )
            &&& forall|j: int|
                0 <= j < spec_best_prefixes(c.emoji_dictionary@, h).len() ==> offered(
                    r,
                    #[trigger] spec_best_prefixes(c.emoji_dictionary@, h)[j],
                )
        }),
{
    let h = c.hiragana@;
    let all = all_candidates(c, now, model_exists, magic_output, prediction_output);
    let first = first_candidates(c, now, model_exists, magic_output, prediction_output);
    let later = live_part(c.conversion_config, c.dictionary@, h) + predictions_part(c, h, now)
        + seq![(h, Seq::<char>::empty(), count_i32(h))];
    let learned = if c.conversion_config.learning_enabled {
        at_most(learned_prefix_hits(c.learning@, h, h.len() as int), MAX_RETURNED_CANDIDATES as int)
    } else {
        Seq::empty()
    };
    assert(all =~= first + later);
    lemma_parts_offered(
        spec_best_prefixes(c.user_dictionary@, h),
        spec_dynamic_best_prefixes(h, now),
        magic_part(c.magic_conversion_config, h, magic_output),
        prediction_part(c.zenzai_config, h, model_exists, prediction_output),
        spec_best_prefixes(c.emoji_dictionary@, h),
        learned,
        later,
    );
}

/// With learning turned on, every learned text that the learning store
/// gives for the hiragana (its best prefixes) is among the candidates, with
/// its subtext, unless the candidates fill the list.
pub proof fn lemma_learning_on_offers_learned(
    c: NativeConverter,
    now: LocalDateTime,
    model_exists: bool,
    magic_output: Option<Seq<char>>,
    prediction_output: Option<Seq<char>>,
)
    requires
        c.conversion_config.learning_enabled,
        c.hiragana@.len() > 0,
        spec_candidates(c, now, model_exists, magic_output, prediction_output).len()
            < MAX_RETURNED_CANDIDATES,
    ensures
        ({
            let h = c.hiragana@;
            let learned = at_most(
                learned_prefix_hits(c.learning@, h, h.len() as int),
                MAX_RETURNED_CANDIDATES as int,
            );
            let r = spec_candidates(c, now, model_exists, magic_output, prediction_output);
            forall|j: int| 0 <= j < learned.len() ==> offered(r, #[trigger] learned[j])
        }),
{
    let h = c.hiragana@;
    let learned = at_most(
        learned_prefix_hits(c.learning@, h, h.len() as int),
        MAX_RETURNED_CANDIDATES as int,
    );
    let first = first_candidates(c, now, model_exists, magic_output, prediction_output);
    let all = all_candidates(c, now, model_exists, magic_output, prediction_output);
    let later = live_part(c.conversion_config, c.dictionary@, h) + predictions_part(c, h, now)
        + seq![(h, Seq::<char>::empty(), count_i32(h))];
    assert(all =~= first + later);
    lemma_parts_offered(
        spec_best_prefixes(c.user_dictionary@, h),
        spec_dynamic_best_prefixes(h, now),
        magic_part(c.magic_conversion_config, h, magic_output),
        prediction_part(c.zenzai_config, h, model_exists, prediction_output),
        spec_best_prefixes(c.emoji_dictionary@, h),
        learned,
        later,
    );
}

/// What the outside conversion command printed makes no difference when its
/// conversion was not wanted for the session's hiragana, and what the model
/// printed makes none when its predictions were not wanted.
pub proof fn lemma_unwanted_outputs_ignored(
    c: NativeConverter,
    now: LocalDateTime,
    model_exists: bool,
    magic_1: Option<Seq<char>>,
    magic_2: Option<Seq<char>>,
    prediction_1: Option<Seq<char>>,
    prediction_2: Option<Seq<char>>,
)
    ensures
        !magic_wanted(c.magic_conversion_config, c.hiragana@) ==> spec_candidates(
            c,
            now,
            model_exists,
            magic_1,
            prediction_1,
        ) == spec_candidates(c, now, model_exists, magic_2, prediction_1),
        !prediction_wanted(c.zenzai_config, c.hiragana@, model_exists) ==> spec_candidates(
            c,
            now,
            model_exists,
            magic_1,
            prediction_1,
        ) == spec_candidates(c, now, model_exists, magic_1, prediction_2),
{
    let h = c.hiragana@;
    if !magic_wanted(c.magic_conversion_config, h) {
        assert(magic_part(c.magic_conversion_config, h, magic_1) == magic_part(
            c.magic_conversion_config,
            h,
            magic_2,
        ));
        assert(first_candidates(c, now, model_exists, magic_1, prediction_1) == first_candidates(
            c,
            now,
            model_exists,
            magic_2,
            prediction_1,
        ));
        assert(all_candidates(c, now, model_exists, magic_1, prediction_1) == all_candidates(
            c,
            now,
            model_exists,
            magic_2,
            prediction_1,
        ));
    }
    if !prediction_wanted(c.zenzai_config, h, model_exists) {
        assert(prediction_part(c.zenzai_config, h, model_exists, prediction_1) == prediction_part(
            c.zenzai_config,
            h,
            model_exists,
            prediction_2,
        ));
        assert(first_candidates(c, now, model_exists, magic_1, prediction_1) == first_candidates(
            c,
            now,
            model_exists,
            magic_1,
            prediction_2,
        ));
        assert(all_candidates(c, now, model_exists, magic_1, prediction_1) == all_candidates(
            c,
            now,
            model_exists,
            magic_1,
            prediction_2,
        ));
    }
}

/// Deleting a character right after typing it gives back the typed text
/// from before.
pub proof fn lemma_remove_undoes_append(raw: Seq<char>, c: char)
    ensures
        ({
            let typed = raw + seq![c];
            (if typed.len() > 0 {
                typed.drop_last()
            } else {
                typed
            }) == raw
        }),
{
    assert((raw + seq![c]).drop_last() =~= raw);
}

/// The candidate covers `c.2` characters of `h`, at least one and at most
/// all, and its subtext is the rest of `h` after them.
pub open spec fn fits_reading(h: Seq<char>, c: CandidateModel) -> bool {
    1 <= c.2 <= h.len() && c.1 == h.skip(c.2 as int)
}

/// Every candidate of `s` fits `h`.
pub open spec fn all_fit(h: Seq<char>, s: Seq<CandidateModel>) -> bool {
    forall|i: int| 0 <= i < s.len() ==> fits_reading(h, #[trigger] s[i])
}

proof fn lemma_fit_concat(h: Seq<char>, a: Seq<CandidateModel>, b: Seq<CandidateModel>)
    requires
        all_fit(h, a),
        all_fit(h, b),
    ensures
        all_fit(h, a + b),
{
    assert forall|i: int| 0 <= i < (a + b).len() implies fits_reading(h, #[trigger] (a + b)[i]) by {
        if i < a.len() {
            assert((a + b)[i] == a[i]);
        } else {
            assert((a + b)[i] == b[i - a.len()]);
        }
    }
}

proof fn lemma_fit_at_most(h: Seq<char>, s: Seq<CandidateModel>, n: int)
    requires
        all_fit(h, s),
        n >= 0,
    ensures
        all_fit(h, at_most(s, n)),
{
    assert forall|i: int| 0 <= i < at_most(s, n).len() implies fits_reading(
        h,
        #[trigger] at_most(s, n)[i],
    ) by {
        assert(at_most(s, n)[i] == s[i]);
    }
}

proof fn lemma_fit_whole(h: Seq<char>, s: Seq<CandidateModel>)
    requires
        1 <= h.len() <= i32::MAX,
        forall|i: int| 0 <= i < s.len() ==> (#[trigger] s[i]).1 == Seq::<char>::empty() && s[i].2 == count_i32(h),
    ensures
        all_fit(h, s),
{
    assert(h.skip(h.len() as int) =~= Seq::<char>::empty());
}

proof fn lemma_fit_flatten(h: Seq<char>, ss: Seq<Seq<CandidateModel>>)
    requires
        forall|i: int| 0 <= i < ss.len() ==> all_fit(h, #[trigger] ss[i]),
    ensures
        all_fit(h, ss.flatten()),
    decreases ss.len(),
{
    if ss.len() > 0 {
        let rest = ss.drop_first();
        assert forall|i: int| 0 <= i < rest.len() implies all_fit(h, #[trigger] rest[i]) by {
            assert(rest[i] == ss[i + 1]);
        }
        lemma_fit_flatten(h, rest);
        assert(all_fit(h, ss[0]));
        lemma_fit_concat(h, ss.first(), rest.flatten());
    }
}

proof fn lemma_fit_prefix_hits(m: Seq<crate::wordmap::EntryModel>, h: Seq<char>, n: int)
    requires
        0 <= n <= h.len() <= i32::MAX,
    ensures
        all_fit(h, crate::wordmap::prefix_hits(m, h, n)),
    decreases n,
{
    if n > 0 {
        lemma_fit_prefix_hits(m, h, n - 1);
        let hits = crate::wordmap::hits_at(m, h, n);
        assert forall|i: int| 0 <= i < hits.len() implies fits_reading(h, #[trigger] hits[i]) by {
            assert(hits[i].1 == h.skip(n) && hits[i].2 == n as i32);
        }
        lemma_fit_concat(h, hits, crate::wordmap::prefix_hits(m, h, n - 1));
    }
}

proof fn lemma_fit_dynamic_prefix_hits(h: Seq<char>, t: LocalDateTime, n: int)
    requires
        0 <= n <= h.len() <= i32::MAX,
    ensures
        all_fit(h, crate::dynamic::dynamic_prefix_hits(h, t, n)),
    decreases n,
{
    if n > 0 {
        lemma_fit_dynamic_prefix_hits(h, t, n - 1);
        let hits = crate::dynamic::dynamic_texts(h.take(n), t).map_values(
            |x: Seq<char>| (x, h.skip(n), n as i32),
        );
        assert forall|i: int| 0 <= i < hits.len() implies fits_reading(h, #[trigger] hits[i]) by {
            assert(hits[i].1 == h.skip(n) && hits[i].2 == n as i32);
        }
        lemma_fit_concat(h, hits, crate::dynamic::dynamic_prefix_hits(h, t, n - 1));
    }
}

proof fn lemma_fit_learned_prefix_hits(m: Seq<crate::learning::LearnedModel>, h: Seq<char>, n: int)
    requires
        0 <= n <= h.len() <= i32::MAX,
    ensures
        all_fit(h, learned_prefix_hits(m, h, n)),
    decreases n,
{
    if n > 0 {
        lemma_fit_learned_prefix_hits(m, h, n - 1);
        let hits = crate::learning::learned_hits_at(m, h, n);
        assert forall|i: int| 0 <= i < hits.len() implies fits_reading(h, #[trigger] hits[i]) by {
            assert(hits[i].1 == h.skip(n) && hits[i].2 == n as i32);
        }
        lemma_fit_concat(h, hits, learned_prefix_hits(m, h, n - 1));
    }
}

proof fn lemma_fit_ranked(m: Seq<ScoredEntry>, test: spec_fn(ScoredEntry) -> bool, h: Seq<char>)
    requires
        1 <= h.len() <= i32::MAX,
    ensures
        all_fit(h, crate::dictionary::ranked_candidates(m, test, h)),
{
    let s = crate::sort::sort_by_rank(
        m.filter(test).flat_map(crate::dictionary::entry_words()),
        crate::dictionary::score_rank(),
    ).map_values(crate::dictionary::whole_candidate(h));
    lemma_fit_whole(h, s);
    lemma_fit_at_most(h, s, MAX_RETURNED_CANDIDATES as int);
}

proof fn lemma_fit_sources(
    c: NativeConverter,
    now: LocalDateTime,
    model_exists: bool,
    magic_output: Option<Seq<char>>,
    prediction_output: Option<Seq<char>>,
)
    requires
        1 <= c.hiragana@.len() <= i32::MAX,
    ensures
        all_fit(c.hiragana@, all_candidates(c, now, model_exists, magic_output, prediction_output)),
{
    let h = c.hiragana@;
    let n = h.len() as int;
    let limit = MAX_RETURNED_CANDIDATES as int;
    lemma_fit_prefix_hits(c.user_dictionary@, h, n);
    lemma_fit_at_most(h, crate::wordmap::prefix_hits(c.user_dictionary@, h, n), limit);
    lemma_fit_dynamic_prefix_hits(h, now, n);
    lemma_fit_at_most(h, crate::dynamic::dynamic_prefix_hits(h, now, n), limit);
    let magic = magic_part(c.magic_conversion_config, h, magic_output);
    lemma_fit_whole(h, magic);
    let predicted = prediction_part(c.zenzai_config, h, model_exists, prediction_output);
    lemma_fit_whole(h, predicted);
    lemma_fit_prefix_hits(c.emoji_dictionary@, h, n);
    lemma_fit_at_most(h, crate::wordmap::prefix_hits(c.emoji_dictionary@, h, n), limit);
    lemma_fit_learned_prefix_hits(c.learning@, h, n);
    lemma_fit_at_most(h, learned_prefix_hits(c.learning@, h, n), limit);
    let learned = if c.conversion_config.learning_enabled {
        at_most(learned_prefix_hits(c.learning@, h, n), limit)
    } else {
        Seq::empty()
    };
    lemma_fit_concat(h, spec_best_prefixes(c.user_dictionary@, h), spec_dynamic_best_prefixes(h, now));
    let s1 = spec_best_prefixes(c.user_dictionary@, h) + spec_dynamic_best_prefixes(h, now);
    lemma_fit_concat(h, s1, magic);
    lemma_fit_concat(h, s1 + magic, predicted);
    lemma_fit_concat(h, s1 + magic + predicted, spec_best_prefixes(c.emoji_dictionary@, h));
    let s2 = s1 + magic + predicted + spec_best_prefixes(c.emoji_dictionary@, h);
    lemma_fit_concat(h, s2, learned);
    assert(first_candidates(c, now, model_exists, magic_output, prediction_output) == s2 + learned);
    // the dictionary
    let d = c.dictionary@;
    lemma_fit_prefix_hits(texts_of(d), h, n);
    lemma_fit_at_most(h, crate::wordmap::prefix_hits(texts_of(d), h, n), limit);
    let comp = spec_compound_candidates(d, h);
    if 2 <= n <= 16 {
        let cs = crate::sort::sort_by_rank(
            crate::dictionary::compounds(d, h, 0),
            crate::dictionary::score_rank(),
        ).map_values(crate::dictionary::whole_candidate(h));
        lemma_fit_whole(h, cs);
        lemma_fit_at_most(h, cs, limit);
    }
    lemma_fit_ranked(d, crate::dictionary::reading_near(h), h);
    lemma_fit_ranked(d, crate::dictionary::reading_extends(h), h);
    let prefixes = spec_best_prefixes(texts_of(d), h);
    lemma_fit_concat(h, comp, prefixes);
    lemma_fit_concat(h, comp + prefixes, spec_typo_corrections(d, h));
    let live = live_part(c.conversion_config, d, h);
    // the predictions
    let f = crate::wordmap::extends_test(h);
    let g = crate::wordmap::prediction_hits(h);
    assert forall|m: Seq<crate::wordmap::EntryModel>| true implies all_fit(
        h,
        #[trigger] spec_predictions(m, h),
    ) by {
        let ss = m.filter(f).map_values(g);
        assert forall|i: int| 0 <= i < ss.len() implies all_fit(h, #[trigger] ss[i]) by {
            lemma_fit_whole(h, ss[i]);
        }
        lemma_fit_flatten(h, ss);
        lemma_fit_at_most(h, m.filter(f).flat_map(g), limit);
    }
    let dl = crate::dynamic::dynamic_reading_list().filter(crate::dynamic::reading_extends(h));
    let dss = dl.map_values(crate::dynamic::dynamic_hits(h, now));
    assert forall|i: int| 0 <= i < dss.len() implies all_fit(h, #[trigger] dss[i]) by {
        lemma_fit_whole(h, dss[i]);
    }
    lemma_fit_flatten(h, dss);
    lemma_fit_at_most(h, dl.flat_map(crate::dynamic::dynamic_hits(h, now)), limit);
    let lp = crate::learning::ranked_by(c.learning@, crate::learning::reading_extends(h)).map_values(
        |w: crate::learning::WordCount| (w.0, Seq::<char>::empty(), count_i32(h)),
    );
    lemma_fit_whole(h, lp);
    lemma_fit_at_most(h, lp, limit);
    let up = spec_predictions(c.user_dictionary@, h);
    let ep = spec_predictions(c.emoji_dictionary@, h);
    let dp = spec_dynamic_predictions(h, now);
    let learned_p = if c.conversion_config.learning_enabled {
        spec_learned_predictions(c.learning@, h)
    } else {
        Seq::empty()
    };
    lemma_fit_concat(h, up, dp);
    lemma_fit_concat(h, up + dp, ep);
    lemma_fit_concat(h, up + dp + ep, learned_p);
    lemma_fit_concat(h, up + dp + ep + learned_p, spec_dictionary_predictions(d, h));
    let preds = predictions_part(c, h, now);
    let raw = seq![(h, Seq::<char>::empty(), count_i32(h))];
    lemma_fit_whole(h, raw);
    lemma_fit_concat(h, s2 + learned, live);
    lemma_fit_concat(h, s2 + learned + live, preds);
    lemma_fit_concat(h, s2 + learned + live + preds, raw);
}

/// Every candidate of a session covers at least one and at most all of the
/// hiragana's characters, and its subtext is the rest of the hiragana after
/// them (for hiragana whose length fits the `i32` count).
pub proof fn lemma_candidates_cover_reading(
    c: NativeConverter,
    now: LocalDateTime,
    model_exists: bool,
    magic_output: Option<Seq<char>>,
    prediction_output: Option<Seq<char>>,
)
    requires
        c.hiragana@.len() <= i32::MAX,
    ensures
        all_fit(c.hiragana@, spec_candidates(c, now, model_exists, magic_output, prediction_output)),
{
    let h = c.hiragana@;
    if h.len() > 0 {
        let all = all_candidates(c, now, model_exists, magic_output, prediction_output);
        lemma_fit_sources(c, now, model_exists, magic_output, prediction_output);
        lemma_dedupe(all);
        let d = spec_dedupe(all);
        assert forall|i: int| 0 <= i < d.len() implies fits_reading(h, #[trigger] d[i]) by {
            assert(all.contains(d[i]));
            let k = choose|k: int| 0 <= k < all.len() && all[k] == d[i];
        }
    }
}

} // verus!

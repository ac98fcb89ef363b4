//! What the converter asks of outside programs, and what it makes of their
//! answers: the outside conversion command, and the local language model
//! that predicts candidates and picks the best one.
//!
//! The programs themselves are run by the caller: a request says which
//! command to run with which arguments and for how long, and the caller
//! hands back what the program printed (or nothing, when it failed or timed
//! out).

use vstd::prelude::*;
use crate::candidate::{
    magic_candidates_from_output, models, rerank_from_output, spec_magic_candidates, spec_rerank,
    spec_zenzai_candidates, zenzai_candidates_from_output, Candidate, CandidateModel,
};
use crate::config::{MagicConversionConfig, ZenzaiConfig};
use crate::dynamic::{decimal, decimal_chars};
use crate::text::{chars_of, copy_range, first_chars, push_all, string_from_chars};

verus! {

/// An outside program to run: the command, its arguments, and how long to
/// wait for it.
pub struct CommandRequest {
    pub command_path: String,
    pub arguments: Vec<String>,
    pub timeout_ms: u64,
}

/// The arguments of a request as character sequences.
pub open spec fn arguments_of(v: Seq<String>) -> Seq<Seq<char>> {
    v.map_values(|s: String| s@)
}

/// The time to wait for a program: the configured time, at least 100 ms.
pub open spec fn wait_ms(timeout_ms: u64) -> u64 {
    if timeout_ms < 100 {
        100
    } else {
        timeout_ms
    }
}

/// The longest personalization text that goes into a prompt, in characters.
pub const PERSONALIZATION_LIMIT: usize = 4096;

fn chars_then(mut v: Vec<char>, s: &str) -> (r: Vec<char>)
    ensures
        r@ == v@ + s@,
{
    let tail = chars_of(s);
    push_all(&mut v, tail.as_slice());
    v
}

fn chars_then_chars(mut v: Vec<char>, s: &[char]) -> (r: Vec<char>)
    ensures
        r@ == v@ + s@,
{
    push_all(&mut v, s);
    v
}

fn owned(s: &str) -> (r: String)
    ensures
        r@ == s@,
{
    s.to_owned()
}

/// The outside conversion command is run for a reading of at least two
/// characters, when it is switched on and a command is set.
pub open spec fn magic_wanted(config: MagicConversionConfig, hiragana: Seq<char>) -> bool {
    config.enabled && hiragana.len() >= 2 && config.command_path@.len() > 0
}

/// The arguments of the outside conversion command.
pub open spec fn magic_arguments(context: Seq<char>, hiragana: Seq<char>) -> Seq<Seq<char>> {
    seq!["--reading"@, hiragana, "--context"@, context]
}

/// `q` runs the outside conversion command of `config` for `hiragana` in
/// `context`.
pub open spec fn is_magic_request(
    q: CommandRequest,
    config: MagicConversionConfig,
    context: Seq<char>,
    hiragana: Seq<char>,
) -> bool {
    &&& q.command_path@ == config.command_path@
    &&& arguments_of(q.arguments@) == magic_arguments(context, hiragana)
    &&& q.timeout_ms == wait_ms(config.timeout_ms)
}

/// The outside conversion command.
pub struct MagicConversionEngine;

impl MagicConversionEngine {
    /// The command to run for `hiragana` in `context`, if it is wanted.
    pub fn request(config: &MagicConversionConfig, context: &str, hiragana: &str) -> (r: Option<
        CommandRequest,
    >)
        ensures
            r is Some == magic_wanted(*config, hiragana@),
            r matches Some(q) ==> is_magic_request(q, *config, context@, hiragana@),
    {
        let length = chars_of(hiragana).len();
        if !config.enabled || length < 2 || config.command_path.as_str().is_empty() {
            return None;
        }
        let mut arguments: Vec<String> = Vec::new();
        arguments.push(owned("--reading"));
        arguments.push(owned(hiragana));
        arguments.push(owned("--context"));
        arguments.push(owned(context));
        assert(arguments_of(arguments@) =~= magic_arguments(context@, hiragana@));
        let timeout_ms = if config.timeout_ms < 100 {
            100
        } else {
            config.timeout_ms
        };
        Some(CommandRequest { command_path: config.command_path.clone(), arguments, timeout_ms })
    }

    /// The candidates that the command printed, when it was wanted and
    /// printed something.
    pub fn candidates(config: &MagicConversionConfig, hiragana: &str, output: Option<&str>) -> (r:
        Vec<Candidate>)
        ensures
            models(r@) == (match output {
                Some(o) => if magic_wanted(*config, hiragana@) {
                    spec_magic_candidates(o@, hiragana@)
                } else {
                    Seq::empty()
                },
                None => Seq::<CandidateModel>::empty(),
            }),
    {
        let length = chars_of(hiragana).len();
        let wanted = config.enabled && length >= 2 && !config.command_path.as_str().is_empty();
        match output {
            Some(o) => if wanted {
                magic_candidates_from_output(o, hiragana)
            } else {
                let r: Vec<Candidate> = Vec::new();
                assert(models(r@) =~= Seq::<CandidateModel>::empty());
                r
            },
            None => {
                let r: Vec<Candidate> = Vec::new();
                assert(models(r@) =~= Seq::<CandidateModel>::empty());
                r
            },
        }
    }
}

/// The personalization text that goes into the prompts: the first
/// `PERSONALIZATION_LIMIT` characters of the personalization file (its text
/// given as `content`, `None` when it could not be read), or nothing when
/// personalization is off or no file is set.
pub open spec fn spec_personalization(config: ZenzaiConfig, content: Option<Seq<char>>) -> Seq<char> {
    if config.personalization_enabled && config.personalization_path@.len() > 0 {
        match content {
            Some(c) => first_chars(c, PERSONALIZATION_LIMIT as int),
            None => Seq::empty(),
        }
    } else {
        Seq::empty()
    }
}

/// The personalization text (see `spec_personalization`).
pub fn personalization_text(config: &ZenzaiConfig, content: Option<&str>) -> (r: String)
    ensures
        r@ == spec_personalization(*config, match content {
            Some(c) => Some(c@),
            None => None,
        }),
{
    if !config.personalization_enabled || config.personalization_path.as_str().is_empty() {
        return String::new();
    }
    match content {
        Some(c) => {
            let chars = chars_of(c);
            let end = if PERSONALIZATION_LIMIT < chars.len() {
                PERSONALIZATION_LIMIT
            } else {
                chars.len()
            };
            let part = copy_range(chars.as_slice(), 0, end);
            assert(chars@.subrange(0, chars@.len() as int) == chars@);
            string_from_chars(part.as_slice())
        },
        None => String::new(),
    }
}

/// The prompt that asks the model for predictions.
pub open spec fn prediction_prompt(
    context: Seq<char>,
    profile: Seq<char>,
    personalization: Seq<char>,
    hiragana: Seq<char>,
) -> Seq<char> {
    "あなたは日本語IMEの予測変換エンジンです。\n文脈: "@ + context + "\nプロフィール: "@ + profile
        + "\nパーソナライズ情報: "@ + personalization + "\n読み: "@ + hiragana
        + "\n自然な変換候補を最大3個、1行1候補で出力してください。説明は不要です。"@
}

/// One line of the numbered candidate list: `3: 漢字`.
pub open spec fn numbered_line(number: nat, text: Seq<char>) -> Seq<char> {
    decimal(number) + ": "@ + text
}

/// The candidate texts numbered from 1, one per line.
pub open spec fn numbered_texts(texts: Seq<Seq<char>>) -> Seq<char>
    decreases texts.len(),
{
    if texts.len() == 0 {
        Seq::empty()
    } else if texts.len() == 1 {
        numbered_line(1, texts[0])
    } else {
        numbered_texts(texts.drop_last()) + "\n"@ + numbered_line(texts.len(), texts.last())
    }
}

/// The texts of a list of candidates.
pub open spec fn texts_of_candidates(candidates: Seq<Candidate>) -> Seq<Seq<char>> {
    candidates.map_values(|c: Candidate| c.text@)
}

/// The prompt that asks the model to choose among the candidates.
pub open spec fn rerank_prompt(
    context: Seq<char>,
    profile: Seq<char>,
    personalization: Seq<char>,
    hiragana: Seq<char>,
    numbered: Seq<char>,
) -> Seq<char> {
    "あなたは日本語IMEの変換候補を選ぶエンジンです。\n文脈: "@ + context + "\nプロフィール: "@
        + profile + "\nパーソナライズ情報: "@ + personalization + "\n読み: "@ + hiragana
        + "\n候補:\n"@ + numbered + "\n最も自然な候補の番号だけを1つ出力してください。"@
}

/// The arguments of the model command: the model file, the number of
/// tokens to generate, greedy sampling, and the prompt.
pub open spec fn model_arguments(model_path: Seq<char>, tokens: nat, prompt: Seq<char>) -> Seq<
    Seq<char>,
> {
    seq![
        "-m"@,
        model_path,
        "-n"@,
        decimal(tokens),
        "--temp"@,
        "0"@,
        "--no-display-prompt"@,
        "-p"@,
        prompt,
    ]
}

/// The larger of `n` and `floor`.
pub open spec fn at_least(n: usize, floor: usize) -> nat {
    if n < floor {
        floor as nat
    } else {
        n as nat
    }
}

/// The model predicts for a reading of at least two characters, when it
/// and its predictions are switched on and its model file exists.
pub open spec fn prediction_wanted(config: ZenzaiConfig, hiragana: Seq<char>, model_exists: bool) -> bool {
    config.enabled && config.prediction_enabled && hiragana.len() >= 2 && model_exists
}

/// The model chooses among two or more candidates, when it is switched on
/// and its model file exists.
pub open spec fn rerank_wanted(config: ZenzaiConfig, count: int, model_exists: bool) -> bool {
    config.enabled && count > 1 && model_exists
}

/// `q` runs the model of `config` for `tokens` tokens on `prompt`.
pub open spec fn is_model_request(q: CommandRequest, config: ZenzaiConfig, tokens: nat, prompt: Seq<char>) -> bool {
    &&& q.command_path@ == config.command_path@
    &&& arguments_of(q.arguments@) == model_arguments(config.model_path@, tokens, prompt)
    &&& q.timeout_ms == wait_ms(config.timeout_ms)
}

/// `q` asks the model of `config` for predictions for `hiragana`.
pub open spec fn is_prediction_request(
    q: CommandRequest,
    config: ZenzaiConfig,
    context: Seq<char>,
    hiragana: Seq<char>,
    personalization: Seq<char>,
) -> bool {
    is_model_request(
        q,
        config,
        at_least(config.prediction_token_limit, 4),
        prediction_prompt(context, config.profile@, personalization, hiragana),
    )
}

/// `q` asks the model of `config` to choose among `candidates`.
pub open spec fn is_rerank_request(
    q: CommandRequest,
    config: ZenzaiConfig,
    context: Seq<char>,
    hiragana: Seq<char>,
    candidates: Seq<Candidate>,
    personalization: Seq<char>,
) -> bool {
    is_model_request(
        q,
        config,
        at_least(config.inference_limit, 1),
        rerank_prompt(
            context,
            config.profile@,
            personalization,
            hiragana,
            numbered_texts(texts_of_candidates(candidates)),
        ),
    )
}

/// The local language model.
pub struct ZenzaiEngine;

fn model_request(config: &ZenzaiConfig, prompt: Vec<char>, tokens: usize) -> (r: CommandRequest)
    ensures
        is_model_request(r, *config, tokens as nat, prompt@),
{
    let digits = decimal_chars(tokens as u64);
    let mut arguments: Vec<String> = Vec::new();
    arguments.push(owned("-m"));
    arguments.push(config.model_path.clone());
    arguments.push(owned("-n"));
    arguments.push(string_from_chars(digits.as_slice()));
    arguments.push(owned("--temp"));
    arguments.push(owned("0"));
    arguments.push(owned("--no-display-prompt"));
    arguments.push(owned("-p"));
    arguments.push(string_from_chars(prompt.as_slice()));
    assert(arguments_of(arguments@) =~= model_arguments(config.model_path@, tokens as nat, prompt@));
    let timeout_ms = if config.timeout_ms < 100 {
        100
    } else {
        config.timeout_ms
    };
    CommandRequest { command_path: config.command_path.clone(), arguments, timeout_ms }
}

fn numbered_candidates(candidates: &Vec<Candidate>) -> (r: Vec<char>)
    ensures
        r@ == numbered_texts(texts_of_candidates(candidates@)),
{
    let ghost texts = texts_of_candidates(candidates@);
    let mut out: Vec<char> = Vec::new();
    let mut i: usize = 0;
    assert(texts.take(0) =~= Seq::<Seq<char>>::empty());
    while i < candidates.len()
        invariant
            texts == texts_of_candidates(candidates@),
            i <= candidates@.len(),
            out@ == numbered_texts(texts.take(i as int)),
        decreases candidates@.len() - i,
    {
        let ghost before = texts.take(i as int);
        if i > 0 {
            out = chars_then(out, "\n");
        }
        let number = decimal_chars((i + 1) as u64);
        out = chars_then_chars(out, number.as_slice());
        out = chars_then(out, ": ");
        let text = chars_of(candidates[i].text.as_str());
        out = chars_then_chars(out, text.as_slice());
        assert(texts.take(i + 1).drop_last() =~= before);
        assert(texts.take(i + 1).last() == candidates@[i as int].text@);
        if i == 0 {
            assert(out@ =~= numbered_texts(texts.take(i + 1)));
        } else {
            assert(out@ =~= numbered_texts(texts.take(i + 1)));
        }
        i += 1;
    }
    assert(texts.take(candidates@.len() as int) =~= texts);
    out
}

impl ZenzaiEngine {
    /// The model command that predicts candidates for `hiragana`, if
    /// predictions are wanted; `personalization` is the text that
    /// `personalization_text` gave.
    pub fn prediction_request(
        config: &ZenzaiConfig,
        context: &str,
        hiragana: &str,
        model_exists: bool,
        personalization: &str,
    ) -> (r: Option<CommandRequest>)
        ensures
            r is Some == prediction_wanted(*config, hiragana@, model_exists),
            r matches Some(q) ==> is_prediction_request(
                q,
                *config,
                context@,
                hiragana@,
                personalization@,
            ),
    {
        let length = chars_of(hiragana).len();
        if !config.enabled || !config.prediction_enabled || length < 2 || !model_exists {
            return None;
        }
        let mut prompt = chars_of("あなたは日本語IMEの予測変換エンジンです。\n文脈: ");
        prompt = chars_then(prompt, context);
        prompt = chars_then(prompt, "\nプロフィール: ");
        prompt = chars_then(prompt, config.profile.as_str());
        prompt = chars_then(prompt, "\nパーソナライズ情報: ");
        prompt = chars_then(prompt, personalization);
        prompt = chars_then(prompt, "\n読み: ");
        prompt = chars_then(prompt, hiragana);
        prompt = chars_then(prompt, "\n自然な変換候補を最大3個、1行1候補で出力してください。説明は不要です。");
        let tokens = if config.prediction_token_limit < 4 {
            4
        } else {
            config.prediction_token_limit
        };
        Some(model_request(config, prompt, tokens))
    }

    /// The predictions that the model printed, when they were wanted and it
    /// printed something.
    pub fn prediction_candidates(
        config: &ZenzaiConfig,
        hiragana: &str,
        model_exists: bool,
        output: Option<&str>,
    ) -> (r: Vec<Candidate>)
        ensures
            models(r@) == (match output {
                Some(o) => if prediction_wanted(*config, hiragana@, model_exists) {
                    spec_zenzai_candidates(o@, hiragana@)
                } else {
                    Seq::empty()
                },
                None => Seq::<CandidateModel>::empty(),
            }),
    {
        let length = chars_of(hiragana).len();
        let wanted = config.enabled && config.prediction_enabled && length >= 2 && model_exists;
        match output {
            Some(o) => if wanted {
                zenzai_candidates_from_output(o, hiragana)
            } else {
                let r: Vec<Candidate> = Vec::new();
                assert(models(r@) =~= Seq::<CandidateModel>::empty());
                r
            },
            None => {
                let r: Vec<Candidate> = Vec::new();
                assert(models(r@) =~= Seq::<CandidateModel>::empty());
                r
            },
        }
    }

    /// The model command that chooses among `candidates`, if a choice is
    /// wanted; `personalization` is the text that `personalization_text`
    /// gave.
    pub fn rerank_request(
        config: &ZenzaiConfig,
        context: &str,
        hiragana: &str,
        candidates: &Vec<Candidate>,
        model_exists: bool,
        personalization: &str,
    ) -> (r: Option<CommandRequest>)
        ensures
            r is Some == rerank_wanted(*config, candidates@.len() as int, model_exists),
            r matches Some(q) ==> is_rerank_request(
                q,
                *config,
                context@,
                hiragana@,
                candidates@,
                personalization@,
            ),
    {
        if !config.enabled || candidates.len() <= 1 || !model_exists {
            return None;
        }
        let numbered = numbered_candidates(candidates);
        let mut prompt = chars_of("あなたは日本語IMEの変換候補を選ぶエンジンです。\n文脈: ");
        prompt = chars_then(prompt, context);
        prompt = chars_then(prompt, "\nプロフィール: ");
        prompt = chars_then(prompt, config.profile.as_str());
        prompt = chars_then(prompt, "\nパーソナライズ情報: ");
        prompt = chars_then(prompt, personalization);
        prompt = chars_then(prompt, "\n読み: ");
        prompt = chars_then(prompt, hiragana);
        prompt = chars_then(prompt, "\n候補:\n");
        prompt = chars_then_chars(prompt, numbered.as_slice());
        prompt = chars_then(prompt, "\n最も自然な候補の番号だけを1つ出力してください。");
        let tokens = if config.inference_limit < 1 {
            1
        } else {
            config.inference_limit
        };
        Some(model_request(config, prompt, tokens))
    }

    /// The candidates after the model's choice: the one it chose moves to
    /// the front, when a choice was wanted and the model printed one.
    pub fn rerank(
        config: &ZenzaiConfig,
        candidates: Vec<Candidate>,
        model_exists: bool,
        output: Option<&str>,
    ) -> (r: Vec<Candidate>)
        ensures
            r@ == (match output {
                Some(o) => if rerank_wanted(*config, candidates@.len() as int, model_exists) {
                    spec_rerank(candidates@, o@)
                } else {
                    candidates@
                },
                None => candidates@,
            }),
    {
        if !config.enabled || candidates.len() <= 1 || !model_exists {
            return candidates;
        }
        match output {
            Some(o) => rerank_from_output(candidates, o),
            None => candidates,
        }
    }
}

} // verus!

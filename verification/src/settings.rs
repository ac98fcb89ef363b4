//! The user's settings as the settings file stores them, with the value
//! that each setting takes when the file does not give it.

use vstd::prelude::*;

verus! {

/// Language model settings.
#[derive(Clone, Debug)]
pub struct ZenzaiConfig {
    pub enable: bool,
    pub profile: String,
    pub personalization: bool,
    pub personalization_path: String,
    pub backend: String,
    pub inference_limit: usize,
    pub model_path: String,
    pub command_path: String,
    pub timeout_ms: u64,
    pub prediction: bool,
    pub prediction_token_limit: usize,
}

/// Outside conversion command settings.
#[derive(Clone, Debug)]
pub struct MagicConversionConfig {
    pub enable: bool,
    pub command_path: String,
    pub timeout_ms: u64,
}

/// Learning settings.
#[derive(Clone, Debug)]
pub struct LearningConfig {
    pub enable: bool,
}

/// Conversion settings.
#[derive(Clone, Debug)]
pub struct ConversionConfig {
    pub live_conversion: bool,
    pub prediction: bool,
    pub typo_correction: bool,
    pub dynamic_candidates: bool,
    pub input_style: String,
    pub custom_input_table_path: String,
    pub candidate_number_selection: bool,
    pub symbol_input_style: String,
    pub keyboard_layout: String,
}

/// All settings.
#[derive(Clone, Debug)]
pub struct AppConfig {
    pub version: String,
    pub zenzai: ZenzaiConfig,
    pub magic_conversion: MagicConversionConfig,
    pub learning: LearningConfig,
    pub conversion: ConversionConfig,
}

/// The settings version written when there is none.
pub fn default_version() -> (r: String)
    ensures
        r@ == "0.1.0"@,
{
    "0.1.0".to_owned()
}

/// The language model backend used when none is set.
pub fn default_zenzai_backend() -> (r: String)
    ensures
        r@ == "cpu"@,
{
    "cpu".to_owned()
}

/// The tokens the model may use to choose a candidate.
pub fn default_zenzai_inference_limit() -> (r: usize)
    ensures
        r == 1,
{
    1
}

/// How long to wait for the model, in milliseconds.
pub fn default_zenzai_timeout_ms() -> (r: u64)
    ensures
        r == 1500,
{
    1500
}

/// The tokens the model may use to predict.
pub fn default_zenzai_prediction_token_limit() -> (r: usize)
    ensures
        r == 32,
{
    32
}

/// How long to wait for the outside conversion command, in milliseconds.
pub fn default_magic_conversion_timeout_ms() -> (r: u64)
    ensures
        r == 1500,
{
    1500
}

/// Switches that are on unless the file turns them off.
pub fn default_enabled() -> (r: bool)
    ensures
        r,
{
    true
}

/// The romaji table used when none is set.
pub fn default_input_style() -> (r: String)
    ensures
        r@ == "default"@,
{
    "default".to_owned()
}

/// How symbols are typed when nothing is set.
pub fn default_symbol_input_style() -> (r: String)
    ensures
        r@ == "japanese"@,
{
    "japanese".to_owned()
}

/// The keyboard layout used when none is set.
pub fn default_keyboard_layout() -> (r: String)
    ensures
        r@ == "system"@,
{
    "system".to_owned()
}

/// The language model settings that `ZenzaiConfig::default` gives.
pub open spec fn is_default_zenzai(c: ZenzaiConfig) -> bool {
    &&& !c.enable
    &&& c.profile@.len() == 0
    &&& !c.personalization
    &&& c.personalization_path@.len() == 0
    &&& c.backend@ == "cpu"@
    &&& c.inference_limit == 1
    &&& c.model_path@.len() == 0
    &&& c.command_path@.len() == 0
    &&& c.timeout_ms == 1500
    &&& !c.prediction
    &&& c.prediction_token_limit == 32
}

impl Default for ZenzaiConfig {
    /// Switched off, on the CPU backend, with the default limits.
    fn default() -> (c: ZenzaiConfig)
        ensures
            is_default_zenzai(c),
    {
        ZenzaiConfig {
            enable: false,
            profile: String::new(),
            personalization: false,
            personalization_path: String::new(),
            backend: default_zenzai_backend(),
            inference_limit: default_zenzai_inference_limit(),
            model_path: String::new(),
            command_path: String::new(),
            timeout_ms: default_zenzai_timeout_ms(),
            prediction: false,
            prediction_token_limit: default_zenzai_prediction_token_limit(),
        }
    }
}

impl Default for MagicConversionConfig {
    /// Switched off, no command, the default timeout.
    fn default() -> (c: MagicConversionConfig)
        ensures
            !c.enable,
            c.command_path@.len() == 0,
            c.timeout_ms == 1500,
    {
        MagicConversionConfig {
            enable: false,
            command_path: String::new(),
            timeout_ms: default_magic_conversion_timeout_ms(),
        }
    }
}

impl Default for LearningConfig {
    /// Learning on.
    fn default() -> (c: LearningConfig)
        ensures
            c.enable,
    {
        LearningConfig { enable: default_enabled() }
    }
}

/// The conversion settings that `ConversionConfig::default` gives.
pub open spec fn is_default_conversion_settings(c: ConversionConfig) -> bool {
    &&& c.live_conversion
    &&& c.prediction
    &&& c.typo_correction
    &&& c.dynamic_candidates
    &&& c.input_style@ == "default"@
    &&& c.custom_input_table_path@.len() == 0
    &&& c.candidate_number_selection
    &&& c.symbol_input_style@ == "japanese"@
    &&& c.keyboard_layout@ == "system"@
}

impl Default for ConversionConfig {
    /// Every switch on, the standard romaji table, Japanese symbols, the
    /// system keyboard layout.
    fn default() -> (c: ConversionConfig)
        ensures
            is_default_conversion_settings(c),
    {
        ConversionConfig {
            live_conversion: default_enabled(),
            prediction: default_enabled(),
            typo_correction: default_enabled(),
            dynamic_candidates: default_enabled(),
            input_style: default_input_style(),
            custom_input_table_path: String::new(),
            candidate_number_selection: default_enabled(),
            symbol_input_style: default_symbol_input_style(),
            keyboard_layout: default_keyboard_layout(),
        }
    }
}

impl Default for AppConfig {
    /// Every part at its default, version `0.1.0`.
    fn default() -> (c: AppConfig)
        ensures
            c.version@ == "0.1.0"@,
            is_default_zenzai(c.zenzai),
            !c.magic_conversion.enable,
            c.magic_conversion.command_path@.len() == 0,
            c.magic_conversion.timeout_ms == 1500,
            c.learning.enable,
            is_default_conversion_settings(c.conversion),
    {
        AppConfig {
            version: default_version(),
            zenzai: ZenzaiConfig::default(),
            magic_conversion: MagicConversionConfig::default(),
            learning: LearningConfig::default(),
            conversion: ConversionConfig::default(),
        }
    }
}

/// The folder of the language model runtime for a backend: `llama_cuda` for
/// `cuda`, `llama_vulkan` for `vulkan`, `llama_cpu` for anything else.
pub fn backend_directory(backend: &str) -> (r: &'static str)
    ensures
        r@ == if backend@ == "cuda"@ {
            "llama_cuda"@
        } else if backend@ == "vulkan"@ {
            "llama_vulkan"@
        } else {
            "llama_cpu"@
        },
{
    let b = crate::text::chars_of(backend);
    let cuda = crate::text::chars_of("cuda");
    let vulkan = crate::text::chars_of("vulkan");
    if crate::text::chars_equal(b.as_slice(), cuda.as_slice()) {
        "llama_cuda"
    } else if crate::text::chars_equal(b.as_slice(), vulkan.as_slice()) {
        "llama_vulkan"
    } else {
        "llama_cpu"
    }
}

} // verus!

//! The settings that the conversion engine runs with: the language model,
//! the outside conversion command and the conversion options.

use vstd::prelude::*;
use crate::text::{chars_equal, chars_of};

verus! {

/// The local language model that predicts and reranks candidates.
#[derive(Clone, Debug)]
pub struct ZenzaiConfig {
    pub enabled: bool,
    pub model_path: String,
    pub command_path: String,
    pub profile: String,
    pub personalization_enabled: bool,
    pub personalization_path: String,
    pub inference_limit: usize,
    pub timeout_ms: u64,
    pub prediction_enabled: bool,
    pub prediction_token_limit: usize,
}

/// The outside command that offers whole-reading conversions.
#[derive(Clone, Debug)]
pub struct MagicConversionConfig {
    pub enabled: bool,
    pub command_path: String,
    pub timeout_ms: u64,
}

/// Which candidate sources are used, and the romaji table.
#[derive(Clone, Debug)]
pub struct ConversionConfig {
    pub learning_enabled: bool,
    pub prediction_enabled: bool,
    pub live_conversion_enabled: bool,
    pub typo_correction_enabled: bool,
    pub input_style: String,
    pub custom_input_table_path: Option<String>,
}

/// The model settings that `ZenzaiConfig::disabled` gives for the two paths.
pub open spec fn is_disabled_zenzai(c: ZenzaiConfig, model_path: Seq<char>, command_path: Seq<char>) -> bool {
    &&& !c.enabled
    &&& c.model_path@ == model_path
    &&& c.command_path@ == command_path
    &&& c.profile@ == Seq::<char>::empty()
    &&& !c.personalization_enabled
    &&& c.personalization_path@ == Seq::<char>::empty()
    &&& c.inference_limit == 1
    &&& c.timeout_ms == 1500
    &&& !c.prediction_enabled
    &&& c.prediction_token_limit == 32
}

impl ZenzaiConfig {
    /// The model switched off, with the given model and command paths; one
    /// inference token, a 1500 ms timeout, 32 prediction tokens.
    pub fn disabled(model_path: String, command_path: String) -> (c: ZenzaiConfig)
        ensures
            is_disabled_zenzai(c, model_path@, command_path@),
    {
        ZenzaiConfig {
            enabled: false,
            model_path,
            command_path,
            profile: String::new(),
            personalization_enabled: false,
            personalization_path: String::new(),
            inference_limit: 1,
            timeout_ms: 1500,
            prediction_enabled: false,
            prediction_token_limit: 32,
        }
    }

    /// The file whose text personalizes the prompts: the configured path,
    /// when personalization is on and a path is set.
    pub fn personalization_file(&self) -> (r: Option<String>)
        ensures
            r is Some == (self.personalization_enabled && self.personalization_path@.len() > 0),
            r matches Some(p) ==> p@ == self.personalization_path@,
    {
        if self.personalization_enabled && !self.personalization_path.as_str().is_empty() {
            Some(self.personalization_path.clone())
        } else {
            None
        }
    }
}

impl Default for MagicConversionConfig {
    /// Switched off, no command, a 1500 ms timeout.
    fn default() -> (c: MagicConversionConfig)
        ensures
            !c.enabled,
            c.command_path@ == Seq::<char>::empty(),
            c.timeout_ms == 1500,
    {
        MagicConversionConfig { enabled: false, command_path: String::new(), timeout_ms: 1500 }
    }
}

/// The conversion options that `ConversionConfig::default` gives.
pub open spec fn is_default_conversion(c: ConversionConfig) -> bool {
    &&& c.learning_enabled
    &&& c.prediction_enabled
    &&& c.live_conversion_enabled
    &&& c.typo_correction_enabled
    &&& c.input_style@ == "default"@
    &&& c.custom_input_table_path is None
}

impl ConversionConfig {
    /// The custom romaji table file to read: for the `custom` input style,
    /// the configured path, else `fallback`; for other styles none.
    pub fn custom_table_path(&self, fallback: Option<String>) -> (r: Option<String>)
        ensures
            self.input_style@ != "custom"@ ==> r is None,
            self.input_style@ == "custom"@ ==> r == match self.custom_input_table_path {
                Some(p) => Some(p),
                None => fallback,
            },
    {
        let style = chars_of(self.input_style.as_str());
        let custom = chars_of("custom");
        if !chars_equal(style.as_slice(), custom.as_slice()) {
            return None;
        }
        match &self.custom_input_table_path {
            Some(p) => Some(p.clone()),
            None => fallback,
        }
    }
}

impl Default for ConversionConfig {
    /// Every candidate source on, the standard romaji table.
    fn default() -> (c: ConversionConfig)
        ensures
            is_default_conversion(c),
    {
        ConversionConfig {
            learning_enabled: true,
            prediction_enabled: true,
            live_conversion_enabled: true,
            typo_correction_enabled: true,
            input_style: "default".to_owned(),
            custom_input_table_path: None,
        }
    }
}

} // verus!

//! The input-mode indicator: what each message from its page asks for.

use vstd::prelude::*;
use crate::settings::AppConfig;
use crate::text::{chars_equal, chars_of};

verus! {

/// What the indicator page asked for.
#[derive(Clone, Copy, Debug, PartialEq, Eq)]
pub enum IndicatorAction {
    /// Switch the input mode of the IME.
    ToggleInputMode,
    /// Open the settings program.
    OpenSettings,
    /// Switch learning on or off.
    ToggleLearning,
    /// Nothing to do.
    Ignore,
}

/// The `type` member of a JSON message, when the message is a JSON value
/// with a string member of that name.
pub uninterp spec fn json_message_type(body: Seq<char>) -> Option<Seq<char>>;

/// The view of an optional string.
pub open spec fn option_view(s: Option<String>) -> Option<Seq<char>> {
    match s {
        Some(t) => Some(t@),
        None => None,
    }
}

/// `serde_json::from_str::<serde_json::Value>`, then `Value::get("type")`
/// and `Value::as_str`. Claims only that the result is `json_message_type`
/// of the message; what JSON is accepted is left to serde_json.
#[verifier::external_body]
fn message_type(body: &str) -> (r: Option<String>)
    ensures
        option_view(r) == json_message_type(body@),
{
    let value = serde_json::from_str::<serde_json::Value>(body).ok()?;
    let field = value.get("type")?;
    let text = field.as_str()?;
    Some(text.to_string())
}

/// The action for a message of the given type.
pub open spec fn spec_indicator_action(message_type: Option<Seq<char>>) -> IndicatorAction {
    match message_type {
        Some(t) => if t == "toggle_input_mode"@ {
            IndicatorAction::ToggleInputMode
        } else if t == "open_settings"@ {
            IndicatorAction::OpenSettings
        } else if t == "toggle_learning"@ {
            IndicatorAction::ToggleLearning
        } else {
            IndicatorAction::Ignore
        },
        None => IndicatorAction::Ignore,
    }
}

/// The action for a message of the given type (see `spec_indicator_action`).
pub fn indicator_action(message_type: Option<&str>) -> (r: IndicatorAction)
    ensures
        r == spec_indicator_action(match message_type {
            Some(t) => Some(t@),
            None => None,
        }),
{
    match message_type {
        Some(t) => {
            let c = chars_of(t);
            if chars_equal(c.as_slice(), chars_of("toggle_input_mode").as_slice()) {
                IndicatorAction::ToggleInputMode
            } else if chars_equal(c.as_slice(), chars_of("open_settings").as_slice()) {
                IndicatorAction::OpenSettings
            } else if chars_equal(c.as_slice(), chars_of("toggle_learning").as_slice()) {
                IndicatorAction::ToggleLearning
            } else {
                IndicatorAction::Ignore
            }
        },
        None => IndicatorAction::Ignore,
    }
}

/// The action for a message that the indicator page sent.
pub fn action_for_message(body: &str) -> (r: IndicatorAction)
    ensures
        r == spec_indicator_action(json_message_type(body@)),
{
    let t = message_type(body);
    match t {
        Some(s) => indicator_action(Some(s.as_str())),
        None => indicator_action(None),
    }
}

/// Switches learning on when it is off and off when it is on.
pub fn toggle_learning(config: &mut AppConfig)
    ensures
        final(config).learning.enable == !old(config).learning.enable,
        final(config).version == old(config).version,
        final(config).zenzai == old(config).zenzai,
        final(config).magic_conversion == old(config).magic_conversion,
        final(config).conversion == old(config).conversion,
{
    config.learning.enable = !config.learning.enable;
}

} // verus!

use azookey::candidate::Candidate;
use azookey::config::ZenzaiConfig;
use azookey::engine::{MagicConversionEngine, ZenzaiEngine};
use azookey::config::MagicConversionConfig;
use azookey::server::{context_tail, unique_suggestions, MyAzookeyService};
use azookey::settings::{backend_directory, default_version, AppConfig};
use azookey::window::{
    build_candidate_html, candidate_views, theme_style, CandidateAppearance, CandidateView, WindowAction,
    CANDIDATE_HTML_HEAD, CANDIDATE_HTML_TAIL,
};
use azookey::indicator::{action_for_message, indicator_action, toggle_learning, IndicatorAction};

fn suggestion(text: &str, subtext: &str) -> Candidate {
    Candidate {
        text: text.to_string(),
        subtext: subtext.to_string(),
        corresponding_count: 1,
    }
}

#[test]
fn context_is_the_last_non_empty_line() {
    assert_eq!(context_tail("一行目\r二行目\r\r"), "二行目");
    assert_eq!(context_tail("\r\r"), "");
    assert_eq!(context_tail(""), "");
    assert_eq!(context_tail("そのまま"), "そのまま");
    let _service = MyAzookeyService::default();
}

#[test]
fn suggestions_keep_the_first_of_each_text() {
    let out = unique_suggestions(vec![
        suggestion("漢字", "a"),
        suggestion("感じ", ""),
        suggestion("漢字", "b"),
    ]);
    assert_eq!(out.len(), 2);
    assert_eq!(out[0].subtext, "a");
    assert_eq!(out[1].text, "感じ");
}

#[test]
fn window_shows_items_or_plain_texts() {
    let plain = candidate_views(vec!["あ".to_string(), "い".to_string()], Vec::new());
    assert_eq!(plain.len(), 2);
    assert_eq!(plain[1].text, "い");
    assert_eq!(plain[1].subtext, "");
    let items = candidate_views(
        vec!["x".to_string()],
        vec![CandidateView {
            text: "漢字".to_string(),
            subtext: "かんじ".to_string(),
        }],
    );
    assert_eq!(items.len(), 1);
    assert_eq!(items[0].subtext, "かんじ");
    match (WindowAction::SetSelection { index: 2 }) {
        WindowAction::SetSelection { index } => assert_eq!(index, 2),
        _ => panic!("unexpected action"),
    }
}

#[test]
fn settings_defaults() {
    let config = AppConfig::default();
    assert_eq!(config.version, default_version());
    assert_eq!(config.version, "0.1.0");
    assert!(config.conversion.live_conversion);
    assert!(config.conversion.prediction);
    assert_eq!(config.conversion.input_style, "default");
    assert_eq!(config.conversion.keyboard_layout, "system");
    assert_eq!(config.conversion.symbol_input_style, "japanese");
    assert!(!config.zenzai.prediction);
    assert_eq!(config.zenzai.backend, "cpu");
    assert_eq!(config.zenzai.inference_limit, 1);
    assert_eq!(config.zenzai.prediction_token_limit, 32);
    assert_eq!(config.magic_conversion.timeout_ms, 1500);
    assert!(config.learning.enable);
}

#[test]
fn backend_runtime_folders() {
    assert_eq!(backend_directory("cpu"), "llama_cpu");
    assert_eq!(backend_directory("cuda"), "llama_cuda");
    assert_eq!(backend_directory("vulkan"), "llama_vulkan");
    assert_eq!(backend_directory("other"), "llama_cpu");
}

#[test]
fn model_prompts_are_exact() {
    let mut config = ZenzaiConfig::disabled("m.gguf".to_string(), "llama".to_string());
    config.enabled = true;
    config.prediction_enabled = true;
    config.prediction_token_limit = 2;
    config.profile = "学生".to_string();
    let request = ZenzaiEngine::prediction_request(&config, "文脈", "かな", true, "好み").unwrap();
    assert_eq!(
        request.arguments,
        vec![
            "-m",
            "m.gguf",
            "-n",
            "4",
            "--temp",
            "0",
            "--no-display-prompt",
            "-p",
            "あなたは日本語IMEの予測変換エンジンです。\n文脈: 文脈\nプロフィール: 学生\nパーソナライズ情報: 好み\n読み: かな\n自然な変換候補を最大3個、1行1候補で出力してください。説明は不要です。",
        ]
    );
    assert!(ZenzaiEngine::prediction_request(&config, "", "か", true, "").is_none());

    config.inference_limit = 0;
    let candidates = vec![suggestion("仮名", ""), suggestion("金", "")];
    let rerank = ZenzaiEngine::rerank_request(&config, "", "かな", &candidates, true, "").unwrap();
    assert_eq!(rerank.arguments[3], "1");
    assert_eq!(
        rerank.arguments[8],
        "あなたは日本語IMEの変換候補を選ぶエンジンです。\n文脈: \nプロフィール: 学生\nパーソナライズ情報: \n読み: かな\n候補:\n1: 仮名\n2: 金\n最も自然な候補の番号だけを1つ出力してください。"
    );
    let single = vec![suggestion("仮名", "")];
    assert!(ZenzaiEngine::rerank_request(&config, "", "かな", &single, true, "").is_none());
}

#[test]
fn outside_command_needs_two_characters_and_a_command() {
    let mut config = MagicConversionConfig::default();
    assert!(MagicConversionEngine::request(&config, "", "かな").is_none());
    config.enabled = true;
    assert!(MagicConversionEngine::request(&config, "", "かな").is_none());
    config.command_path = "magic".to_string();
    assert!(MagicConversionEngine::request(&config, "", "か").is_none());
    let request = MagicConversionEngine::request(&config, "", "かな").unwrap();
    assert_eq!(request.timeout_ms, 1500);
    let out = MagicConversionEngine::candidates(&config, "かな", Some("仮名\n"));
    assert_eq!(out[0].text, "仮名");
    assert!(MagicConversionEngine::candidates(&config, "か", Some("仮名\n")).is_empty());
}

#[test]
fn indicator_messages_choose_actions() {
    assert_eq!(
        action_for_message(r#"{"type":"toggle_learning"}"#),
        IndicatorAction::ToggleLearning
    );
    assert_eq!(
        action_for_message(r#"{"type":"open_settings","x":1}"#),
        IndicatorAction::OpenSettings
    );
    assert_eq!(
        action_for_message(r#"{"type":"toggle_input_mode"}"#),
        IndicatorAction::ToggleInputMode
    );
    assert_eq!(action_for_message(r#"{"type":3}"#), IndicatorAction::Ignore);
    assert_eq!(action_for_message("toggle_learning"), IndicatorAction::Ignore);
    assert_eq!(indicator_action(Some("other")), IndicatorAction::Ignore);
    let mut config = AppConfig::default();
    toggle_learning(&mut config);
    assert!(!config.learning.enable);
    toggle_learning(&mut config);
    assert!(config.learning.enable);
}

#[test]
fn candidate_page_takes_the_theme() {
    let mut look = CandidateAppearance::default();
    assert_eq!(theme_style(&look), "");
    assert_eq!(
        build_candidate_html(&look),
        format!("{}{}", CANDIDATE_HTML_HEAD, CANDIDATE_HTML_TAIL)
    );
    look.accent_color = "#FF0000".to_string();
    assert_eq!(
        theme_style(&look),
        ":root{--bg:#FFFFFF;--accent:#FF0000;--fg:#000000;--sel-bg:#FF000033;}"
            .to_string()
            .replace(":root", "<style>:root")
            + "body{color:var(--fg);}main{background-color:var(--bg);border-color:color-mix(in srgb,var(--fg) 15%,transparent);}li[data-selected]{background-color:var(--sel-bg);outline-color:var(--accent);}</style>"
    );
    look.custom_css_enabled = true;
    look.custom_css = "li{color:red}".to_string();
    assert_eq!(theme_style(&look), "<style>li{color:red}</style>");
    assert!(build_candidate_html(&look).contains("<style>li{color:red}</style>"));
}

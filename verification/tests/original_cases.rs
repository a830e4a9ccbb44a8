use textream::director::handle_command;
use textream::documents::{encode_document, pages_from_document_json};
use textream::models::{DirectorCommand, SpeechBackendKind};
use textream::pptx::parse_note_xml;
use textream::reading::{next_non_empty_page, rebuild_reading_content, ReadingState};
use textream::speech::SpeechManager;
use textream::text::{
    char_offset_for_progress_parts, is_annotation_word, locate_char_offset,
    normalize_for_matching, split_text_into_words,
};
use textream::updates::is_version_newer;

/// Reads a director message the way the socket handler does: a JSON object
/// with a string `type`, an optional string `text` and an optional
/// `readCharCount`.
fn command_from_json(text: &str) -> Option<DirectorCommand> {
    let value: serde_json::Value = serde_json::from_str(text).ok()?;
    let object = value.as_object()?;
    let command_type = object.get("type")?.as_str()?.to_string();
    let text = match object.get("text") {
        None | Some(serde_json::Value::Null) => None,
        Some(v) => Some(v.as_str()?.to_string()),
    };
    let read_char_count = match object.get("readCharCount") {
        None | Some(serde_json::Value::Null) => None,
        Some(v) => Some(v.as_u64()? as usize),
    };
    Some(DirectorCommand { command_type, text, read_char_count })
}

#[test]
fn auth_command_must_match_token() {
    let mut reading = ReadingState::default();
    assert!(!handle_command(
        command_from_json(r#"{"type":"auth","text":"bad"}"#),
        false,
        "token",
        &mut reading
    ));
    assert!(handle_command(
        command_from_json(r#"{"type":"auth","text":"token"}"#),
        false,
        "token",
        &mut reading
    ));
}

#[test]
fn set_text_command_starts_reading() {
    let mut reading = ReadingState::default();
    assert!(handle_command(
        command_from_json(r#"{"type":"auth","text":"token"}"#),
        false,
        "token",
        &mut reading
    ));
    handle_command(
        command_from_json(r#"{"type":"setText","text":"Hello world"}"#),
        true,
        "token",
        &mut reading,
    );
    assert!(reading.is_running);
    assert_eq!(reading.words, vec!["Hello", "world"]);
}

#[test]
fn textream_document_shape_is_string_array_json() {
    let pages = vec!["one".to_string(), "two".to_string()];
    let data = encode_document(&pages);
    let decoded: Vec<String> = pages_from_document_json(&data).unwrap();
    assert_eq!(decoded, pages);
}

#[test]
fn parses_note_text_and_skips_slide_number() {
    let xml = r#"
        <p:notes xmlns:p="http://schemas.openxmlformats.org/presentationml/2006/main" xmlns:a="http://schemas.openxmlformats.org/drawingml/2006/main">
          <p:sp><p:nvSpPr><p:nvPr><p:ph type="sldNum"/></p:nvPr></p:nvSpPr><p:txBody><a:p><a:r><a:t>1</a:t></a:r></a:p></p:txBody></p:sp>
          <p:sp><p:txBody><a:p><a:r><a:t>Hello</a:t></a:r><a:br/><a:r><a:t>World</a:t></a:r></a:p></p:txBody></p:sp>
        </p:notes>
        "#;
    assert_eq!(parse_note_xml(xml).trim(), "Hello\nWorld");
}

#[test]
fn finds_next_non_empty_page() {
    let pages = vec!["one".into(), "  ".into(), "two".into()];
    assert_eq!(next_non_empty_page(&pages, 0), Some(2));
    assert_eq!(next_non_empty_page(&pages, 2), None);
}

#[test]
fn rebuilds_current_content() {
    let mut state = ReadingState {
        pages: vec!["Hello 世界 [pause]".into()],
        is_running: true,
        ..ReadingState::default()
    };
    rebuild_reading_content(&mut state);
    assert_eq!(state.words, vec!["Hello", "世", "界", "[pause]"]);
    assert_eq!(state.total_char_count, "Hello 世 界 [pause]".chars().count());
    assert!(state.word_items[3].is_annotation);
}

#[test]
fn exposes_windows_native_as_default_backend() {
    let manager = SpeechManager::default();
    assert_eq!(manager.backend, SpeechBackendKind::WindowsNative);
}

#[test]
fn splits_cjk_chars_inside_mixed_tokens() {
    let words = split_text_into_words("Hello世界 test 日本語abc");
    assert_eq!(words, vec!["Hello", "世", "界", "test", "日", "本", "語", "abc"]);
}

#[test]
fn detects_annotations_and_emoji() {
    assert!(is_annotation_word("[pause]"));
    assert!(is_annotation_word("✓"));
    assert!(!is_annotation_word("hello"));
}

/// Reading progress (whole words plus a fraction of the next) as a
/// character offset: the library takes the whole words and the characters
/// of the fraction, the fraction of a word being rounded down.
fn char_offset_for_word_progress(words: &Vec<String>, progress: f64) -> usize {
    let whole_word = progress.floor().max(0.0) as usize;
    let frac = progress - whole_word as f64;
    let partial = if whole_word < words.len() {
        (words[whole_word].chars().count() as f64 * frac.clamp(0.0, 1.0)) as usize
    } else {
        0
    };
    char_offset_for_progress_parts(words, whole_word, partial)
}

/// A character offset as reading progress: the word index plus the
/// fraction of that word.
fn word_progress_for_char_offset(words: &Vec<String>, char_offset: usize) -> f64 {
    let (index, into, length) = locate_char_offset(words, char_offset);
    index as f64 + into as f64 / length as f64
}

#[test]
fn maps_progress_to_offsets_and_back() {
    let words = vec!["one".to_string(), "three".to_string()];
    assert_eq!(char_offset_for_word_progress(&words, 1.5), 6);
    assert!((word_progress_for_char_offset(&words, 6) - 1.4).abs() < 0.001);
}

#[test]
fn normalizes_for_speech_matching() {
    assert_eq!(normalize_for_matching("Hello, WORLD!  [pause]"), "hello world pause");
}

#[test]
fn compares_semver_parts() {
    assert!(is_version_newer("1.2.0", "1.1.9"));
    assert!(is_version_newer("1.2.1", "1.2.0"));
    assert!(!is_version_newer("1.2.0", "1.2.0"));
    assert!(!is_version_newer("1.1.9", "1.2.0"));
}

use std::io::Write;

use textream::director::{
    command_kind, generate_director_html, generate_token, handle_command, DirectorCommandKind,
    TOKEN_LENGTH,
};
use textream::documents::{
    document_kind, document_kind_of_path, encode_document, pages_from_document_json,
    to_ascii_lowercase, unopenable_reason, DocumentKind,
};
use textream::director::{decimal_string, generate_remote_html};
use textream::models::{
    DirectorCommand, FontColorPreset, FontSizePreset, ListeningMode, OverlayMode,
    SpeechBackendKind, StartReadingRequest,
};
use textream::numbers::{is_i64_text, parse_u32};
use textream::pptx::{
    extract_notes, extract_notes_from_archive, extract_notes_with_extension, extract_number,
    is_note_file, note_text_of_nodes, parse_note_xml, select_note_files, PptxError, XmlNode,
};
use textream::reading::{
    browser_state, director_state, has_next_page, jump_to_char, next_non_empty_page, next_page,
    page_fits_text,
    pages_fit, set_pages, start_reading, stop_reading, update_director_text,
    update_timer_progress, ReadingState,
};
use textream::shell::{
    launch_urls, menu_response, overlay_label, overlay_labels, overlay_resizable, overlay_route,
    MenuResponse,
};
use textream::speech::{
    apply_spoken_text, find_bytes, list_audio_inputs, list_speech_backends, load_speech_text,
    set_speech_backend, speech_state_from_parts, start_listening, stop_listening, SpeechManager,
};
use textream::text::{
    build_word_items, char_offset_for_progress_parts, is_annotation_word, is_cjk, is_whitespace_char,
    join_words,
    locate_char_offset, normalize_for_matching, split_text_into_words, text_is_blank,
    total_char_count, trim_text,
};
use textream::updates::{is_version_newer, update_status_from_release};

fn strings(items: &[&str]) -> Vec<String> {
    items.iter().map(|s| s.to_string()).collect()
}

fn command(kind: &str, text: Option<&str>, read: Option<usize>) -> Option<DirectorCommand> {
    Some(DirectorCommand {
        command_type: kind.to_string(),
        text: text.map(|t| t.to_string()),
        read_char_count: read,
    })
}

fn request(pages: &[&str], index: usize) -> StartReadingRequest {
    StartReadingRequest { pages: strings(pages), current_page_index: index }
}

// ----- text -----

#[test]
fn words_hold_the_non_white_space_characters_in_order() {
    let text = "  a b\t世c\n[pause]  ";
    let words = split_text_into_words(text);
    assert_eq!(words, vec!["a", "b", "世", "c", "[pause]"]);
    let without_space: String = text.chars().filter(|c| !c.is_whitespace()).collect();
    assert_eq!(words.concat(), without_space);
}

#[test]
fn splitting_blank_text_gives_no_words() {
    assert!(split_text_into_words("").is_empty());
    assert!(split_text_into_words(" \u{3000}\u{2028} ").is_empty());
}

#[test]
fn cjk_ranges_and_white_space() {
    assert!(is_cjk('世'));
    assert!(is_cjk('か'));
    assert!(is_cjk('한'));
    assert!(!is_cjk('a'));
    assert!(is_whitespace_char('\u{3000}'));
    assert!(is_whitespace_char('\u{85}'));
    assert!(!is_whitespace_char('\u{200B}'));
}

#[test]
fn trimming_removes_unicode_white_space() {
    assert_eq!(trim_text("\u{a0} hi there \n"), "hi there");
    assert_eq!(trim_text("   "), "");
    assert!(text_is_blank(" \t"));
    assert!(!text_is_blank(" x "));
}

#[test]
fn annotation_words() {
    assert!(textream::text::is_annotation_word("[]"));
    assert!(textream::text::is_annotation_word("..."));
    assert!(textream::text::is_annotation_word("["));
    assert!(!textream::text::is_annotation_word("[x"));
    assert!(!textream::text::is_annotation_word("é"));
}

#[test]
fn word_items_point_at_their_words() {
    let words = strings(&["one", "three", "[pause]"]);
    let items = build_word_items(&words);
    let joined = join_words(&words);
    assert_eq!(joined, "one three [pause]");
    assert_eq!(total_char_count(&words), 17);
    let chars: Vec<char> = joined.chars().collect();
    for (i, item) in items.iter().enumerate() {
        assert_eq!(item.id, i);
        let len = item.word.chars().count();
        let slice: String = chars[item.char_offset..item.char_offset + len].iter().collect();
        assert_eq!(slice, words[i]);
    }
    assert_eq!(items[1].char_offset, 4);
    assert!(items[2].is_annotation);
    assert!(!items[0].is_annotation);
    assert_eq!(total_char_count(&Vec::new()), 0);
}

#[test]
fn progress_round_trip_on_offsets() {
    let words = strings(&["one", "three", "é"]);
    let total = total_char_count(&words);
    for c in 0..=total + 3 {
        let (index, into, _) = locate_char_offset(&words, c);
        assert_eq!(char_offset_for_progress_parts(&words, index, into), c.min(total));
    }
    assert_eq!(locate_char_offset(&words, 4), (1, 0, 5));
    assert_eq!(locate_char_offset(&words, 3), (0, 3, 3));
    assert_eq!(locate_char_offset(&words, 50), (3, 0, 1));
    assert_eq!(char_offset_for_progress_parts(&words, 1, 0), 4);
    assert_eq!(char_offset_for_progress_parts(&words, 1, 99), 9);
    assert_eq!(char_offset_for_progress_parts(&words, 7, 2), total);
}

#[test]
fn normalising_lowercases_and_folds_space() {
    assert_eq!(normalize_for_matching("  Ä  ,B\tc  "), "ä b c");
    assert_eq!(normalize_for_matching("!!!"), "");
    let n = normalize_for_matching(" x  y -- z ");
    assert!(!n.starts_with(' ') && !n.ends_with(' ') && !n.contains("  "));
}

// ----- numbers and versions -----

#[test]
fn parsing_numbers_like_std() {
    assert_eq!(parse_u32("+5"), Some(5));
    assert_eq!(parse_u32("007"), Some(7));
    assert_eq!(parse_u32(""), None);
    assert_eq!(parse_u32("+"), None);
    assert_eq!(parse_u32("-1"), None);
    assert_eq!(parse_u32("4294967295"), Some(u32::MAX));
    assert_eq!(parse_u32("4294967296"), None);
    assert_eq!(parse_u32("1a"), None);
    assert!(is_i64_text("-9223372036854775808"));
    assert!(!is_i64_text("9223372036854775808"));
    assert!(is_i64_text("+12"));
    assert!(!is_i64_text("-"));
    assert!(!is_i64_text("1.5"));
}

#[test]
fn version_comparison_is_a_strict_order() {
    assert!(!is_version_newer("1.2", "1.2.0"));
    assert!(!is_version_newer("1.2.0", "1.2"));
    assert!(is_version_newer("1.10", "1.9"));
    assert!(!is_version_newer("1.x", "1.0"));
    assert!(is_version_newer("2", "1.99.99"));
    let a = "3.0.1";
    let b = "3.0";
    let c = "2.9";
    assert!(is_version_newer(a, b) && is_version_newer(b, c) && is_version_newer(a, c));
    assert!(!is_version_newer(b, a));
}

#[test]
fn update_status_strips_v_and_compares() {
    let s = update_status_from_release(
        "1.0.0".to_string(),
        Ok(("vv1.2.0".to_string(), "https://example.org/r".to_string())),
    );
    assert_eq!(s.latest_version.as_deref(), Some("1.2.0"));
    assert!(s.is_update_available);
    assert_eq!(s.release_url.as_deref(), Some("https://example.org/r"));
    assert!(s.error.is_none());
    let e = update_status_from_release("1.0.0".to_string(), Err("offline".to_string()));
    assert!(!e.is_update_available);
    assert_eq!(e.error.as_deref(), Some("offline"));
    assert!(e.latest_version.is_none());
}

// ----- reading -----

#[test]
fn next_page_skips_blank_pages_and_marks_them_read() {
    let mut state = ReadingState::default();
    set_pages(&mut state, request(&["one", " ", "", "two words"], 0), ListeningMode::Classic);
    assert!(state.has_next_page);
    assert!(next_page(&mut state).is_ok());
    assert_eq!(state.current_page_index, 3);
    assert_eq!(state.words, vec!["two", "words"]);
    assert_eq!(state.read_pages, vec![3]);
    assert!(!state.has_next_page);
    assert_eq!(next_page(&mut state), Err("No next page".to_string()));
    assert_eq!(state.current_page_index, 3);
    assert!(!has_next_page(&strings(&["a"]), 0));
}

#[test]
fn an_index_past_the_pages_has_no_next_page() {
    let pages = strings(&["a", "b"]);
    assert!(has_next_page(&pages, 0));
    assert!(!has_next_page(&pages, 5));
    assert!(!has_next_page(&pages, usize::MAX));
    assert_eq!(next_non_empty_page(&pages, usize::MAX), None);
    assert_eq!(next_non_empty_page(&pages, 0), Some(1));
}

#[test]
fn set_pages_with_no_pages_keeps_one_empty_page() {
    let mut state = ReadingState::default();
    set_pages(&mut state, request(&[], 5), ListeningMode::SilencePaused);
    assert_eq!(state.pages, vec![String::new()]);
    assert_eq!(state.current_page_index, 0);
    assert_eq!(state.listening_mode, ListeningMode::SilencePaused);
    set_pages(&mut state, request(&["a", "b"], 9), ListeningMode::Classic);
    assert_eq!(state.current_page_index, 1);
}

#[test]
fn start_reading_refuses_a_blank_page() {
    let mut state = ReadingState::default();
    let r = start_reading(&mut state, request(&["text", "  "], 1), ListeningMode::WordTracking);
    assert_eq!(r, Err("Current page is empty".to_string()));
    assert_eq!(state.pages, vec![String::new()]);
    let ok = start_reading(&mut state, request(&["text", "  "], 0), ListeningMode::WordTracking);
    assert!(ok.is_ok());
    assert!(state.is_running);
    assert_eq!(state.read_pages, vec![0]);
    let again = start_reading(&mut state, request(&["text"], 0), ListeningMode::WordTracking);
    assert!(again.is_ok());
    assert_eq!(state.read_pages, vec![0]);
}

#[test]
fn jumping_and_stopping() {
    let mut state = ReadingState::default();
    start_reading(&mut state, request(&["one three"], 0), ListeningMode::Classic).unwrap();
    assert_eq!(jump_to_char(&mut state, 6), (1, 2, 5));
    assert_eq!(state.recognized_char_count, 6);
    assert_eq!(jump_to_char(&mut state, 100), (1, 5, 5));
    assert_eq!(state.recognized_char_count, 9);
    update_timer_progress(&mut state, 1, 2);
    assert_eq!(state.recognized_char_count, 6);
    stop_reading(&mut state);
    assert!(!state.is_running);
    assert_eq!(state.recognized_char_count, 0);
}

#[test]
fn director_text_replaces_the_page() {
    let mut state = ReadingState::default();
    assert_eq!(
        update_director_text(&mut state, "   ".to_string(), 3),
        Err("Director text is empty".to_string())
    );
    update_director_text(&mut state, "  hello there  ".to_string(), 3).unwrap();
    assert_eq!(state.pages, vec!["hello there"]);
    assert!(state.is_running);
    assert_eq!(state.recognized_char_count, 3);
    update_director_text(&mut state, "hi".to_string(), 50).unwrap();
    assert_eq!(state.recognized_char_count, 2);
}

#[test]
fn states_sent_to_viewers() {
    let mut state = ReadingState::default();
    start_reading(&mut state, request(&["ab cd"], 0), ListeningMode::WordTracking).unwrap();
    jump_to_char(&mut state, 5);
    let b = browser_state(&state, FontColorPreset::Yellow, FontColorPreset::White);
    assert!(b.is_done && b.is_listening && b.highlight_words && b.is_active);
    assert_eq!(b.font_color, "rgb(255,214,10)");
    assert_eq!(b.cue_color, "#ffffff");
    assert_eq!(b.highlighted_char_count, 5);
    let d = director_state(&state, FontColorPreset::Green, FontColorPreset::Pink);
    assert_eq!(d.words, vec!["ab", "cd"]);
    assert_eq!(d.font_color, "rgb(51,214,74)");
    assert!(d.is_listening);
    let mut classic = ReadingState::default();
    start_reading(&mut classic, request(&["ab"], 0), ListeningMode::Classic).unwrap();
    let c = browser_state(&classic, FontColorPreset::Blue, FontColorPreset::Orange);
    assert!(!c.is_listening && !c.highlight_words && !c.is_done);
}

#[test]
fn page_size_checks() {
    assert!(page_fits_text("some words"));
    assert!(pages_fit(&strings(&["a", "b c"])));
}

// ----- speech -----

#[test]
fn spoken_text_moves_the_position() {
    let mut state = ReadingState::default();
    start_reading(&mut state, request(&["Hello, world. How are you?"], 0), ListeningMode::WordTracking)
        .unwrap();
    apply_spoken_text(&mut state, "hello WORLD".to_string());
    assert_eq!(state.recognized_char_count, 11);
    assert_eq!(state.last_spoken_text, "hello WORLD");
    apply_spoken_text(&mut state, "nothing like it".to_string());
    assert_eq!(state.recognized_char_count, 11);
    apply_spoken_text(&mut state, "?!".to_string());
    assert_eq!(state.recognized_char_count, 0);
}

#[test]
fn spoken_position_counts_bytes() {
    let mut state = ReadingState::default();
    start_reading(&mut state, request(&["世界 hello"], 0), ListeningMode::WordTracking).unwrap();
    apply_spoken_text(&mut state, "世".to_string());
    assert_eq!(state.recognized_char_count, 3);
    assert_eq!(find_bytes(b"abcabc", b"ca"), Some(2));
    assert_eq!(find_bytes(b"abc", b""), Some(0));
    assert_eq!(find_bytes(b"ab", b"abc"), None);
}

#[test]
fn speech_manager_and_backends() {
    let mut m = SpeechManager::default();
    start_listening(&mut m, false);
    assert!(!m.is_listening);
    assert_eq!(
        m.error.as_deref(),
        Some("Windows Native speech is only available on Windows builds.")
    );
    set_speech_backend(&mut m, SpeechBackendKind::WebSpeech);
    assert!(m.error.is_none());
    start_listening(&mut m, false);
    assert!(m.is_listening);
    stop_listening(&mut m);
    assert!(!m.is_listening);
    let backends = list_speech_backends(true);
    assert_eq!(backends.len(), 3);
    assert!(backends[0].available);
    assert_eq!(backends[0].detail, "Uses the Windows speech recognition stack.");
    assert!(!list_speech_backends(false)[0].available);
    let inputs = list_audio_inputs(true);
    assert_eq!(inputs[0].id, "default");
    assert_eq!(inputs[0].name, "Default Windows microphone");
    let reading = ReadingState::default();
    let s = speech_state_from_parts(&m, &reading);
    assert_eq!(s.backend, SpeechBackendKind::WebSpeech);
    assert!(!s.is_listening);
}

#[test]
fn loading_speech_text() {
    let mut state = ReadingState::default();
    assert!(!load_speech_text(&mut state, "  ".to_string()));
    assert_eq!(state.pages, vec![String::new()]);
    assert!(load_speech_text(&mut state, " say this ".to_string()));
    assert_eq!(state.pages, vec![" say this "]);
    assert_eq!(state.words, vec!["say", "this"]);
}

// ----- director and remote -----

#[test]
fn director_commands_after_authentication() {
    let mut state = ReadingState::default();
    assert!(!handle_command(command("setText", Some("x"), None), false, "t", &mut state));
    assert_eq!(state.pages, vec![String::new()]);
    assert!(!handle_command(None, false, "t", &mut state));
    assert!(handle_command(None, true, "t", &mut state));
    assert!(handle_command(command("setText", Some("  one two three "), None), true, "t", &mut state));
    assert_eq!(state.read_pages, vec![0]);
    assert_eq!(state.pages, vec!["one two three"]);
    state.recognized_char_count = 4;
    assert!(handle_command(command("updateText", Some("one two four"), None), true, "t", &mut state));
    assert_eq!(state.recognized_char_count, 4);
    assert!(handle_command(command("updateText", Some("one"), Some(9)), true, "t", &mut state));
    assert_eq!(state.recognized_char_count, 3);
    assert!(handle_command(command("stop", None, None), true, "t", &mut state));
    assert!(!state.is_running);
    assert!(handle_command(command("dance", None, None), true, "t", &mut state));
    assert_eq!(command_kind("updateText"), DirectorCommandKind::UpdateText);
    assert_eq!(command_kind("auth"), DirectorCommandKind::Other);
}

#[test]
fn tokens_are_alphanumeric() {
    let t = generate_token();
    assert_eq!(t.chars().count(), TOKEN_LENGTH);
    assert!(t.chars().all(|c| c.is_ascii_alphanumeric()));
    assert_ne!(generate_token(), t);
}

#[test]
fn pages_embed_port_and_token() {
    assert_eq!(decimal_string(0), "0");
    assert_eq!(decimal_string(7576), "7576");
    let d = generate_director_html(7576, "abc");
    assert!(d.contains("const token='abc',wsPort=7576,"));
    assert!(d.starts_with("<!doctype html>"));
    let r = generate_remote_html(7374);
    assert!(r.contains("location.hostname+':7374')"));
    assert!(r.contains("/^\\\\[.*\\\\]$/"));
}

// ----- documents -----

#[test]
fn documents_by_extension() {
    assert_eq!(document_kind(&Some("TeXtReAm".to_string())), DocumentKind::Textream);
    assert_eq!(document_kind(&Some("key".to_string())), DocumentKind::Keynote);
    assert_eq!(document_kind(&None), DocumentKind::Unsupported);
    assert_eq!(document_kind_of_path("dir/talk.PPTX"), DocumentKind::Pptx);
    assert_eq!(document_kind_of_path("notes"), DocumentKind::Unsupported);
    assert_eq!(
        unopenable_reason(DocumentKind::Keynote).as_deref(),
        Some("Keynote files cannot be imported directly. Export to PowerPoint (.pptx) first.")
    );
    assert_eq!(
        unopenable_reason(DocumentKind::Unsupported).as_deref(),
        Some("Unsupported file. Use .textream or .pptx.")
    );
    assert!(unopenable_reason(DocumentKind::Textream).is_none());
    assert_eq!(to_ascii_lowercase("ÄbC"), "Äbc");
}

#[test]
fn document_json_errors() {
    assert_eq!(pages_from_document_json("[]"), Err("Document has no pages".to_string()));
    let bad = pages_from_document_json("{").unwrap_err();
    assert!(bad.starts_with("Invalid .textream document: "));
    let pages = strings(&["a \"quoted\"\nline", "世界"]);
    let saved = encode_document(&pages);
    assert_eq!(pages_from_document_json(&saved), Ok(pages));
}

// ----- presentations -----

fn zip_with(entries: &[(&str, &str)]) -> Vec<u8> {
    let mut cursor = std::io::Cursor::new(Vec::new());
    {
        let mut w = zip::ZipWriter::new(&mut cursor);
        let options = zip::write::SimpleFileOptions::default()
            .compression_method(zip::CompressionMethod::Deflated);
        for (name, body) in entries {
            w.start_file(*name, options).unwrap();
            w.write_all(body.as_bytes()).unwrap();
        }
        w.finish().unwrap();
    }
    cursor.into_inner()
}

fn note(text: &str) -> String {
    format!(
        r#"<p:notes xmlns:p="p" xmlns:a="a"><p:sp><p:txBody><a:p><a:r><a:t>{}</a:t></a:r></a:p></p:txBody></p:sp></p:notes>"#,
        text
    )
}

#[test]
fn notes_come_in_slide_order_without_numbers() {
    let ten = note("Tenth");
    let two = note("  Second  ");
    let number = note("42");
    let bytes = zip_with(&[
        ("ppt/notesSlides/notesSlide10.xml", &ten),
        ("ppt/notesSlides/notesSlide2.xml", &two),
        ("ppt/notesSlides/notesSlide3.xml", &number),
        ("ppt/slides/slide1.xml", &note("not a note")),
    ]);
    assert_eq!(extract_notes_from_archive(&bytes).unwrap(), vec!["Second", "Tenth"]);
    assert_eq!(
        extract_notes_with_extension(Some("PPTX".to_string()), Ok(bytes.clone())).unwrap(),
        vec!["Second", "Tenth"]
    );
    assert_eq!(extract_notes("deck.pptx", Ok(bytes)).unwrap(), vec!["Second", "Tenth"]);
}

#[test]
fn notes_errors() {
    assert!(matches!(
        extract_notes("deck.txt", Ok(Vec::new())),
        Err(PptxError::UnsupportedFormat)
    ));
    assert!(matches!(
        extract_notes("deck", Err("unread".to_string())),
        Err(PptxError::UnsupportedFormat)
    ));
    assert!(matches!(
        extract_notes("C:\\talks\\notes.txt", Err("unread".to_string())),
        Err(PptxError::UnsupportedFormat)
    ));
    assert!(matches!(
        extract_notes_with_extension(Some("pptx".to_string()), Err("gone".to_string())),
        Err(PptxError::ExtractionFailed(ref m)) if m == "gone"
    ));
    assert!(matches!(
        extract_notes_from_archive(b"not a zip"),
        Err(PptxError::ExtractionFailed(_))
    ));
    let only_numbers = zip_with(&[("ppt/notesSlides/notesSlide1.xml", &note("7"))]);
    assert!(matches!(extract_notes_from_archive(&only_numbers), Err(PptxError::NoNotesFound)));
    let no_notes = zip_with(&[("ppt/slides/slide1.xml", "<a/>")]);
    assert!(matches!(extract_notes_from_archive(&no_notes), Err(PptxError::NoNotesFound)));
    assert_eq!(
        PptxError::ExtractionFailed("x".to_string()).message(),
        "Failed to extract notes: x"
    );
    assert_eq!(
        PptxError::NoNotesFound.message(),
        "No presenter notes found in this presentation."
    );
    assert_eq!(
        PptxError::UnsupportedFormat.message(),
        "Unsupported file format. Please drop a .pptx file."
    );
}

#[test]
fn note_file_selection_is_stable() {
    let names = strings(&[
        "ppt/notesSlides/notesSlide3.xml",
        "ppt/notesSlides/_rels/notesSlide1.xml.rels",
        "ppt/notesSlides/notesSlideA.xml",
        "ppt/notesSlides/notesSlide1.xml",
        "ppt/notesSlides/notesSlideB.xml",
    ]);
    assert_eq!(
        select_note_files(&names),
        vec![
            "ppt/notesSlides/notesSlideA.xml",
            "ppt/notesSlides/notesSlideB.xml",
            "ppt/notesSlides/notesSlide1.xml",
            "ppt/notesSlides/notesSlide3.xml",
        ]
    );
    assert!(is_note_file("ppt/notesSlides/notesSlide9.xml"));
    assert!(!is_note_file("ppt/notesSlides/notesSlide9.xml.rels"));
    assert_eq!(extract_number("ppt/notesSlides/notesSlide12.xml"), Some(12));
    assert_eq!(extract_number("abc"), None);
}

#[test]
fn note_xml_edge_cases() {
    assert_eq!(parse_note_xml("<not closed"), "");
    let xml = r#"<r xmlns:a="a"><a:p><a:t>one</a:t></a:p><sp><ph type="ftr"/><a:p><a:t>skip</a:t></a:p></sp><a:p><a:t>two</a:t><a:br/></a:p></r>"#;
    assert_eq!(parse_note_xml(xml), "one\ntwo\n");
}

// ----- shell -----

#[test]
fn menu_and_launch_addresses() {
    assert_eq!(menu_response("save-as"), MenuResponse::Forward("save-as".to_string()));
    assert_eq!(menu_response("about"), MenuResponse::Forward("settings".to_string()));
    assert_eq!(menu_response("help"), MenuResponse::OpenHelp);
    assert_eq!(menu_response("quit"), MenuResponse::Ignore);
    let args = strings(&["app.exe", "textream://read?text=hi", "--flag", "textream://x"]);
    assert_eq!(launch_urls(args), vec!["textream://read?text=hi", "textream://x"]);
}

#[test]
fn overlay_windows() {
    assert_eq!(overlay_label(OverlayMode::Floating), "textream-floating-overlay");
    assert_eq!(overlay_route(OverlayMode::Fullscreen), "overlay-fullscreen");
    assert!(overlay_resizable(OverlayMode::Floating));
    assert!(!overlay_resizable(OverlayMode::Pinned));
    assert_eq!(
        overlay_labels(),
        vec!["textream-pinned-overlay", "textream-floating-overlay", "textream-fullscreen-overlay"]
    );
}

#[test]
fn presets() {
    assert_eq!(FontSizePreset::Xs.point_size(), 14);
    assert_eq!(FontSizePreset::Xl.point_size(), 24);
    assert_eq!(FontColorPreset::Orange.css_color(), "rgb(255,158,10)");
}

// ----- laws on concrete values -----

#[test]
fn splitting_joined_words_gives_them_back() {
    let words = split_text_into_words("Hello世界 test 日本語abc  [pause]");
    assert_eq!(split_text_into_words(&join_words(&words)), words);
}

#[test]
fn progress_offsets_grow_and_end_at_the_total() {
    let words = strings(&["one", "three", "xy"]);
    let total = total_char_count(&words);
    assert_eq!(char_offset_for_progress_parts(&words, 0, 0), 0);
    assert_eq!(char_offset_for_progress_parts(&words, 3, 0), total);
    assert_eq!(char_offset_for_progress_parts(&words, 9, 4), total);
    let mut last = 0;
    for whole in 0..4 {
        for part in 0..7 {
            let offset = char_offset_for_progress_parts(&words, whole, part);
            assert!(offset >= last);
            assert!(offset <= total);
            last = offset;
        }
    }
}

#[test]
fn word_items_give_their_progress() {
    let words = strings(&["one", "three", "xy"]);
    let items = build_word_items(&words);
    for (k, item) in items.iter().enumerate() {
        let (index, into, _) = locate_char_offset(&words, item.char_offset);
        assert_eq!((index, into), (k, 0));
        assert_eq!(char_offset_for_progress_parts(&words, k, 0), item.char_offset);
    }
    assert_eq!(locate_char_offset(&words, 100), (3, 0, 1));
}

#[test]
fn normalising_ascii_is_lowercase_idempotent_and_ignores_case() {
    let text = "  Hello,\tWORLD!  [pause] 42x  ";
    let once = normalize_for_matching(text);
    assert_eq!(once, "hello world pause 42x");
    assert!(once.chars().all(|c| c == ' ' || c.is_ascii_lowercase() || c.is_ascii_digit()));
    assert_eq!(normalize_for_matching(&once), once);
    assert_eq!(normalize_for_matching(&text.to_ascii_uppercase()), once);
}

#[test]
fn plain_extensions_decide_the_kind_of_a_path() {
    assert_eq!(document_kind_of_path("C:\\Users\\me\\deck.pptx"), DocumentKind::Pptx);
    assert_eq!(document_kind_of_path("/home/me/talk.textream"), DocumentKind::Textream);
    assert_eq!(document_kind_of_path("deck.KEY"), DocumentKind::Keynote);
    assert!(matches!(
        extract_notes("C:\\Users\\me\\deck.PPTX", Err("missing".to_string())),
        Err(PptxError::ExtractionFailed(ref m)) if m == "missing"
    ));
}

#[test]
fn note_text_from_nodes() {
    fn element(name: &str, parent: Option<usize>, text: Option<&str>) -> XmlNode {
        XmlNode {
            is_element: true,
            name: name.to_string(),
            parent,
            type_attr: None,
            text: text.map(|t| t.to_string()),
        }
    }
    let nodes = vec![
        XmlNode { is_element: false, name: String::new(), parent: None, type_attr: None, text: None },
        element("notes", Some(0), None),
        element("sp", Some(1), None),
        element("p", Some(2), None),
        element("t", Some(3), Some("Hello")),
        element("br", Some(3), None),
        element("t", Some(3), Some("World")),
        element("p", Some(2), None),
        element("t", Some(7), Some("Again")),
    ];
    assert_eq!(note_text_of_nodes(&nodes), "Hello\nWorld\nAgain");
}

#[test]
fn ascii_annotation_words() {
    assert!(!is_annotation_word("hello"));
    assert!(!is_annotation_word("a1"));
    assert!(is_annotation_word("[Pause]"));
    assert!(is_annotation_word("--"));
    assert!(is_annotation_word(""));
}

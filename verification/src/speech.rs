use vstd::prelude::*;
use vstd::utf8::encode_utf8;

use crate::models::{AudioInputDevice, SpeechBackendInfo, SpeechBackendKind, SpeechState};
use crate::reading::{ReadingState, page_fits, rebuild_reading_content};
use crate::text::{is_blank, join_words, joined, normalize_for_matching, normalized, text_is_blank, trim};

verus! {

/// The chosen speech backend and whether it listens.
#[derive(Debug)]
pub struct SpeechManager {
    pub backend: SpeechBackendKind,
    pub is_listening: bool,
    pub error: Option<String>,
}

impl Default for SpeechManager {
    fn default() -> (r: Self)
        ensures
            r.backend == SpeechBackendKind::WindowsNative,
            !r.is_listening,
            r.error is None,
    {
        SpeechManager { backend: SpeechBackendKind::WindowsNative, is_listening: false, error: None }
    }
}

/// `needle` occurs in `hay` at byte `i`.
pub open spec fn occurs_at(hay: Seq<u8>, needle: Seq<u8>, i: int) -> bool {
    &&& 0 <= i
    &&& i + needle.len() <= hay.len()
    &&& hay.subrange(i, i + needle.len()) == needle
}

/// The first byte index, from `i` on, at which `needle` occurs in `hay`.
pub open spec fn first_occurrence_from(hay: Seq<u8>, needle: Seq<u8>, i: int) -> Option<int>
    decreases hay.len() + 1 - i,
{
    if i < 0 || i > hay.len() {
        None
    } else if occurs_at(hay, needle, i) {
        Some(i)
    } else {
        first_occurrence_from(hay, needle, i + 1)
    }
}

proof fn lemma_first_occurrence_skip(hay: Seq<u8>, needle: Seq<u8>, i: int, j: int)
    requires
        0 <= i <= j <= hay.len() + 1,
        forall|k: int| i <= k < j ==> !occurs_at(hay, needle, k),
    ensures
        first_occurrence_from(hay, needle, i) == first_occurrence_from(hay, needle, j),
    decreases j - i,
{
    if i < j {
        lemma_first_occurrence_skip(hay, needle, i + 1, j);
    }
}

proof fn lemma_first_occurrence_bound(hay: Seq<u8>, needle: Seq<u8>, i: int)
    requires
        0 <= i,
    ensures
        first_occurrence_from(hay, needle, i) matches Some(p) ==> occurs_at(hay, needle, p),
    decreases hay.len() + 1 - i,
{
    if i <= hay.len() && !occurs_at(hay, needle, i) {
        lemma_first_occurrence_bound(hay, needle, i + 1);
    }
}

/// Byte index of the first occurrence of `needle` in `hay`.
pub fn find_bytes(hay: &[u8], needle: &[u8]) -> (r: Option<usize>)
    ensures
        r matches Some(p) ==> first_occurrence_from(hay@, needle@, 0) == Some(p as int),
        r is None ==> first_occurrence_from(hay@, needle@, 0) is None,
{
    let h = hay.len();
    let m = needle.len();
    if m > h {
        proof {
            assert forall|k: int| 0 <= k < h + 1 implies !occurs_at(hay@, needle@, k) by {}
            lemma_first_occurrence_skip(hay@, needle@, 0, h + 1);
        }
        return None;
    }
    let last = h - m;
    let mut i: usize = 0;
    while i <= last
        invariant
            h == hay@.len(),
            m == needle@.len(),
            m <= h,
            last == h - m,
            i <= last + 1,
            forall|k: int| 0 <= k < i ==> !occurs_at(hay@, needle@, k),
        decreases last + 1 - i,
    {
        let mut k: usize = 0;
        let mut same = true;
        while k < m
            invariant
                h == hay@.len(),
                m == needle@.len(),
                i + m <= h,
                k <= m,
                same == (forall|t: int| 0 <= t < k ==> hay@[i + t] == needle@[t]),
            decreases m - k,
        {
            if hay[i + k] != needle[k] {
                same = false;
            }
            k = k + 1;
        }
        if same {
            proof {
                assert(hay@.subrange(i as int, i + m) =~= needle@);
                lemma_first_occurrence_skip(hay@, needle@, 0, i as int);
            }
            return Some(i);
        }
        proof {
            if occurs_at(hay@, needle@, i as int) {
                assert forall|t: int| 0 <= t < m implies hay@[i + t] == needle@[t] by {
                    assert(hay@.subrange(i as int, i + m)[t] == hay@[i + t]);
                }
            }
        }
        i = i + 1;
    }
    proof {
        assert forall|k: int| last < k < h + 1 implies !occurs_at(hay@, needle@, k) by {}
        lemma_first_occurrence_skip(hay@, needle@, 0, h + 1);
    }
    None
}

/// Where spoken text puts the reading position: the byte offset just past
/// the first place where the normalised speech occurs in the normalised
/// words (byte offsets of their UTF-8 encodings); none when it does not
/// occur.
pub open spec fn spoken_position(words: Seq<Seq<char>>, spoken: Seq<char>) -> Option<int> {
    let hay = encode_utf8(normalized(joined(words)));
    let needle = encode_utf8(normalized(spoken));
    match first_occurrence_from(hay, needle, 0) {
        Some(p) => Some(p + needle.len()),
        None => None,
    }
}

/// Records what was heard and, when the heard words occur in the page,
/// moves the reading position to just after them (capped at the total).
pub fn apply_spoken_text(state: &mut ReadingState, spoken_text: String)
    ensures
        final(state).last_spoken_text@ == spoken_text@,
        final(state).recognized_char_count == match spoken_position(
            old(state).words_view(),
            spoken_text@,
        ) {
            Some(p) => if p < old(state).total_char_count {
                p
            } else {
                old(state).total_char_count as int
            },
            None => old(state).recognized_char_count as int,
        },
        final(state).pages@ == old(state).pages@,
        final(state).current_page_index == old(state).current_page_index,
        final(state).read_pages@ == old(state).read_pages@,
        final(state).is_running == old(state).is_running,
        final(state).words@ == old(state).words@,
        final(state).word_items@ == old(state).word_items@,
        final(state).total_char_count == old(state).total_char_count,
        final(state).has_next_page == old(state).has_next_page,
        final(state).listening_mode == old(state).listening_mode,
        old(state).well_formed() ==> final(state).well_formed(),
{
    let normalized_spoken = normalize_for_matching(spoken_text.as_str());
    state.last_spoken_text = spoken_text;
    let collapsed = join_words(&state.words);
    let normalized_source = normalize_for_matching(collapsed.as_str());
    let hay = normalized_source.as_str().as_bytes();
    let needle = normalized_spoken.as_str().as_bytes();
    let hay_len = hay.len();
    let found = find_bytes(hay, needle);
    match found {
        Some(pos) => {
            proof {
                lemma_first_occurrence_bound(hay@, needle@, 0);
                assert(pos + needle@.len() <= hay_len);
            }
            let next = pos + needle.len();
            let total = state.total_char_count;
            state.recognized_char_count = if next < total { next } else { total };
        },
        None => {},
    }
}

fn literal(s: &str) -> (r: String)
    ensures
        r@ == s@,
{
    String::from_str(s)
}

/// The detail shown for the Windows backend.
pub open spec fn windows_native_detail(is_windows: bool) -> Seq<char> {
    if is_windows {
        "Uses the Windows speech recognition stack."@
    } else {
        "Available when this app is built and run on Windows."@
    }
}

/// The speech backends, in the order they are offered; only the Windows
/// backend can be available, and only on Windows.
pub fn list_speech_backends(is_windows: bool) -> (r: Vec<SpeechBackendInfo>)
    ensures
        r.len() == 3,
        r[0].id == SpeechBackendKind::WindowsNative,
        r[0].label@ == "Windows Native"@,
        r[0].available == is_windows,
        r[0].detail@ == windows_native_detail(is_windows),
        r[1].id == SpeechBackendKind::WebSpeech,
        r[1].label@ == "Web Speech"@,
        !r[1].available,
        r[1].detail@ == "Reserved fallback; WebView2 support is not guaranteed."@,
        r[2].id == SpeechBackendKind::LocalModel,
        r[2].label@ == "Local Model"@,
        !r[2].available,
        r[2].detail@ == "Reserved for a packaged Whisper/Vosk style backend."@,
{
    let mut v: Vec<SpeechBackendInfo> = Vec::new();
    let detail = if is_windows {
        literal("Uses the Windows speech recognition stack.")
    } else {
        literal("Available when this app is built and run on Windows.")
    };
    v.push(
        SpeechBackendInfo {
            id: SpeechBackendKind::WindowsNative,
            label: literal("Windows Native"),
            available: is_windows,
            detail,
        },
    );
    v.push(
        SpeechBackendInfo {
            id: SpeechBackendKind::WebSpeech,
            label: literal("Web Speech"),
            available: false,
            detail: literal("Reserved fallback; WebView2 support is not guaranteed."),
        },
    );
    v.push(
        SpeechBackendInfo {
            id: SpeechBackendKind::LocalModel,
            label: literal("Local Model"),
            available: false,
            detail: literal("Reserved for a packaged Whisper/Vosk style backend."),
        },
    );
    v
}

/// The microphones offered: only the default one.
pub fn list_audio_inputs(is_windows: bool) -> (r: Vec<AudioInputDevice>)
    ensures
        r.len() == 1,
        r[0].id@ == "default"@,
        r[0].name@ == (if is_windows {
            "Default Windows microphone"@
        } else {
            "Default microphone (Windows enumeration available on Windows builds)"@
        }),
{
    let name = if is_windows {
        literal("Default Windows microphone")
    } else {
        literal("Default microphone (Windows enumeration available on Windows builds)")
    };
    let mut v: Vec<AudioInputDevice> = Vec::new();
    v.push(AudioInputDevice { id: literal("default"), name });
    v
}

/// Chooses a backend and clears any error.
pub fn set_speech_backend(speech: &mut SpeechManager, backend: SpeechBackendKind)
    ensures
        final(speech).backend == backend,
        final(speech).error is None,
        final(speech).is_listening == old(speech).is_listening,
{
    speech.backend = backend;
    speech.error = None;
}

/// The error reported when the Windows backend is asked for elsewhere.
pub open spec fn windows_only_error() -> Seq<char> {
    "Windows Native speech is only available on Windows builds."@
}

/// Starts listening, unless the Windows backend is chosen on another
/// system; then it records why not.
pub fn start_listening(speech: &mut SpeechManager, is_windows: bool)
    ensures
        final(speech).backend == old(speech).backend,
        (old(speech).backend == SpeechBackendKind::WindowsNative && !is_windows) ==> {
            &&& !final(speech).is_listening
            &&& final(speech).error matches Some(e) && e@ == windows_only_error()
        },
        !(old(speech).backend == SpeechBackendKind::WindowsNative && !is_windows) ==> {
            &&& final(speech).is_listening
            &&& final(speech).error is None
        },
{
    if speech.backend == SpeechBackendKind::WindowsNative && !is_windows {
        speech.error = Some(literal("Windows Native speech is only available on Windows builds."));
        speech.is_listening = false;
    } else {
        speech.error = None;
        speech.is_listening = true;
    }
}

/// Stops listening.
pub fn stop_listening(speech: &mut SpeechManager)
    ensures
        final(speech).backend == old(speech).backend,
        !final(speech).is_listening,
        final(speech).error == old(speech).error,
{
    speech.is_listening = false;
}

/// Loads the text to be followed by speech as the only page, unless it is
/// blank; says whether it did.
pub fn load_speech_text(state: &mut ReadingState, text: String) -> (loaded: bool)
    requires
        page_fits(text@),
    ensures
        loaded == !is_blank(text@),
        !loaded ==> *final(state) == *old(state),
        loaded ==> {
            &&& final(state).pages_view() == seq![text@]
            &&& final(state).current_page_index == 0
            &&& final(state).read_pages@ == old(state).read_pages@
            &&& final(state).is_running == old(state).is_running
            &&& final(state).recognized_char_count == 0
            &&& final(state).last_spoken_text@ == Seq::<char>::empty()
            &&& final(state).listening_mode == old(state).listening_mode
            &&& final(state).content_matches_page()
        },
        old(state).well_formed() ==> final(state).well_formed(),
{
    if text_is_blank(text.as_str()) {
        return false;
    }
    let ghost t = text@;
    let mut pages: Vec<String> = Vec::new();
    pages.push(text);
    proof {
        assert(crate::text::string_seqs(pages@) =~= seq![t]);
    }
    state.pages = pages;
    state.current_page_index = 0;
    state.recognized_char_count = 0;
    state.last_spoken_text = String::new();
    rebuild_reading_content(state);
    true
}

/// What the interface is told about speech.
pub fn speech_state_from_parts(speech: &SpeechManager, reading: &ReadingState) -> (r: SpeechState)
    ensures
        r.backend == speech.backend,
        r.recognized_char_count == reading.recognized_char_count,
        r.last_spoken_text@ == reading.last_spoken_text@,
        r.is_listening == speech.is_listening,
        r.error is None <==> speech.error is None,
        r.error matches Some(e) ==> speech.error matches Some(f) && e@ == f@,
{
    let error = match &speech.error {
        Some(e) => Some(e.clone()),
        None => None,
    };
    SpeechState {
        backend: speech.backend,
        recognized_char_count: reading.recognized_char_count,
        last_spoken_text: reading.last_spoken_text.clone(),
        is_listening: speech.is_listening,
        error,
    }
}

/// The search for a needle from `i` on finds its first occurrence there, and
/// finds nothing only when it occurs nowhere from `i` on.
proof fn lemma_first_occurrence(hay: Seq<u8>, needle: Seq<u8>, i: int)
    requires
        0 <= i,
    ensures
        first_occurrence_from(hay, needle, i) matches Some(q) ==> {
            &&& i <= q
            &&& q + needle.len() <= hay.len()
            &&& hay.subrange(q, q + needle.len()) == needle
            &&& forall|k: int|
                i <= k < q && k + needle.len() <= hay.len() ==> #[trigger] hay.subrange(
                    k,
                    k + needle.len(),
                ) != needle
        },
        first_occurrence_from(hay, needle, i) is None ==> forall|k: int|
            i <= k && k + needle.len() <= hay.len() ==> #[trigger] hay.subrange(k, k + needle.len())
                != needle,
    decreases hay.len() + 1 - i,
{
    if i <= hay.len() && !occurs_at(hay, needle, i) {
        lemma_first_occurrence(hay, needle, i + 1);
    }
}

/// Speech moves the reading to the end of the first place where the whole
/// heard phrase stands in the page: with the page and the speech both
/// normalised and taken as UTF-8 bytes, the new position is the start of
/// the first occurrence of the entire phrase plus the phrase's length, and
/// there is a new position exactly when the phrase occurs at all.
pub proof fn law_speech_finds_the_whole_phrase(words: Seq<Seq<char>>, spoken: Seq<char>)
    ensures
        ({
            let page = encode_utf8(normalized(joined(words)));
            let phrase = encode_utf8(normalized(spoken));
            &&& spoken_position(words, spoken) is Some <==> exists|k: int|
                0 <= k && k + phrase.len() <= page.len() && #[trigger] page.subrange(
                    k,
                    k + phrase.len(),
                ) == phrase
            &&& spoken_position(words, spoken) matches Some(p) ==> {
                let start = p - phrase.len();
                &&& 0 <= start
                &&& p <= page.len()
                &&& page.subrange(start, p) == phrase
                &&& forall|k: int|
                    0 <= k < start ==> #[trigger] page.subrange(k, k + phrase.len()) != phrase
            }
        }),
{
    let page = encode_utf8(normalized(joined(words)));
    let phrase = encode_utf8(normalized(spoken));
    lemma_first_occurrence(page, phrase, 0);
}

} // verus!

use vstd::prelude::*;

verus! {

/// Text size presets offered for the prompter text.
#[derive(Debug, Clone, Copy, PartialEq, Eq, Structural)]
pub enum FontSizePreset {
    Xs,
    Sm,
    Lg,
    Xl,
}

/// Point size that each preset stands for.
pub open spec fn point_size_of(preset: FontSizePreset) -> u16 {
    match preset {
        FontSizePreset::Xs => 14,
        FontSizePreset::Sm => 16,
        FontSizePreset::Lg => 20,
        FontSizePreset::Xl => 24,
    }
}

impl FontSizePreset {
    pub fn point_size(&self) -> (r: u16)
        ensures
            r == point_size_of(*self),
    {
        match self {
            FontSizePreset::Xs => 14,
            FontSizePreset::Sm => 16,
            FontSizePreset::Lg => 20,
            FontSizePreset::Xl => 24,
        }
    }
}

/// Font families offered for the prompter text.
#[derive(Debug, Clone, Copy, PartialEq, Eq, Structural)]
pub enum FontFamilyPreset {
    Sans,
    Serif,
    Mono,
    Dyslexia,
}

/// Colour presets for the text and for cue words.
#[derive(Debug, Clone, Copy, PartialEq, Eq, Structural)]
pub enum FontColorPreset {
    White,
    Yellow,
    Green,
    Blue,
    Pink,
    Orange,
}

/// The CSS colour value of each preset.
pub open spec fn css_color_of(preset: FontColorPreset) -> Seq<char> {
    match preset {
        FontColorPreset::White => "#ffffff"@,
        FontColorPreset::Yellow => "rgb(255,214,10)"@,
        FontColorPreset::Green => "rgb(51,214,74)"@,
        FontColorPreset::Blue => "rgb(79,140,255)"@,
        FontColorPreset::Pink => "rgb(255,97,145)"@,
        FontColorPreset::Orange => "rgb(255,158,10)"@,
    }
}

impl FontColorPreset {
    pub fn css_color(&self) -> (r: &'static str)
        ensures
            r@ == css_color_of(*self),
    {
        match self {
            FontColorPreset::White => "#ffffff",
            FontColorPreset::Yellow => "rgb(255,214,10)",
            FontColorPreset::Green => "rgb(51,214,74)",
            FontColorPreset::Blue => "rgb(79,140,255)",
            FontColorPreset::Pink => "rgb(255,97,145)",
            FontColorPreset::Orange => "rgb(255,158,10)",
        }
    }
}

/// How strongly cue text is shown.
#[derive(Debug, Clone, Copy, PartialEq, Eq, Structural)]
pub enum CueBrightness {
    Dim,
    Low,
    Medium,
    Bright,
}

/// Where the prompter overlay is shown.
#[derive(Debug, Clone, Copy, PartialEq, Eq, Structural)]
pub enum OverlayMode {
    Pinned,
    Floating,
    Fullscreen,
}

/// Which display a pinned overlay follows.
#[derive(Debug, Clone, Copy, PartialEq, Eq, Structural)]
pub enum NotchDisplayMode {
    FollowMouse,
    FixedDisplay,
}

/// What an external display shows.
#[derive(Debug, Clone, Copy, PartialEq, Eq, Structural)]
pub enum ExternalDisplayMode {
    Off,
    Teleprompter,
    Mirror,
}

/// Axis along which the external display is mirrored.
#[derive(Debug, Clone, Copy, PartialEq, Eq, Structural)]
pub enum MirrorAxis {
    Horizontal,
    Vertical,
    Both,
}

/// How the reading position advances.
#[derive(Debug, Clone, Copy, PartialEq, Eq, Structural)]
pub enum ListeningMode {
    WordTracking,
    Classic,
    SilencePaused,
}

/// The speech recognition backends the application knows of.
#[derive(Debug, Clone, Copy, PartialEq, Eq, Structural)]
pub enum SpeechBackendKind {
    WindowsNative,
    WebSpeech,
    LocalModel,
}

/// One word of the current page with its position in the space-joined text.
#[derive(Debug)]
pub struct WordItem {
    pub id: usize,
    pub word: String,
    pub char_offset: usize,
    pub is_annotation: bool,
}

/// Pages handed over when reading starts, with the page to start on.
#[derive(Debug)]
pub struct StartReadingRequest {
    pub pages: Vec<String>,
    pub current_page_index: usize,
}

/// Where a document is to be saved, and its pages.
#[derive(Debug)]
pub struct SaveDocumentRequest {
    pub path: String,
    pub pages: Vec<String>,
}

/// Description of a speech backend as shown in the settings.
#[derive(Debug)]
pub struct SpeechBackendInfo {
    pub id: SpeechBackendKind,
    pub label: String,
    pub available: bool,
    pub detail: String,
}

/// A command sent by a director client over the socket.
#[derive(Debug)]
pub struct DirectorCommand {
    pub command_type: String,
    pub text: Option<String>,
    pub read_char_count: Option<usize>,
}

/// A microphone the user can pick.
#[derive(Debug)]
pub struct AudioInputDevice {
    pub id: String,
    pub name: String,
}

/// Outcome of an update check.
#[derive(Debug)]
pub struct UpdateStatus {
    pub current_version: String,
    pub latest_version: Option<String>,
    pub release_url: Option<String>,
    pub is_update_available: bool,
    pub error: Option<String>,
}

/// What a remote viewer is sent about the reading: the words, how far they
/// are read, and how to show them.
#[derive(Debug)]
pub struct BrowserState {
    pub words: Vec<String>,
    pub highlighted_char_count: usize,
    pub total_char_count: usize,
    pub is_listening: bool,
    pub is_done: bool,
    pub font_color: String,
    pub cue_color: String,
    pub has_next_page: bool,
    pub is_active: bool,
    pub highlight_words: bool,
    pub last_spoken_text: String,
}

/// What a director client is sent about the reading.
#[derive(Debug)]
pub struct DirectorState {
    pub words: Vec<String>,
    pub highlighted_char_count: usize,
    pub total_char_count: usize,
    pub is_active: bool,
    pub is_done: bool,
    pub is_listening: bool,
    pub font_color: String,
    pub cue_color: String,
    pub last_spoken_text: String,
}

/// What the interface is told about speech recognition.
#[derive(Debug)]
pub struct SpeechState {
    pub backend: SpeechBackendKind,
    pub recognized_char_count: usize,
    pub last_spoken_text: String,
    pub is_listening: bool,
    pub error: Option<String>,
}

} // verus!

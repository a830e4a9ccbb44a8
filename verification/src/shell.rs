use vstd::prelude::*;

use crate::models::OverlayMode;
use crate::text::{has_prefix, same_text, starts_with_text, string_seqs};

verus! {

/// The address scheme under which the application is opened with text.
pub const LAUNCH_URL_PREFIX: &'static str = "textream://";

/// The arguments that are launch addresses, in order.
pub open spec fn launch_urls_of(args: Seq<Seq<char>>) -> Seq<Seq<char>> {
    args.filter(|a: Seq<char>| has_prefix(a, LAUNCH_URL_PREFIX@))
}

/// Keeps the command-line arguments that are launch addresses.
pub fn launch_urls(args: Vec<String>) -> (r: Vec<String>)
    ensures
        string_seqs(r@) == launch_urls_of(string_seqs(args@)),
{
    let ghost all = string_seqs(args@);
    let n = args.len();
    let mut kept: Vec<String> = Vec::new();
    for i in 0..n
        invariant
            n == args.len(),
            all == string_seqs(args@),
            string_seqs(kept@) == launch_urls_of(all.take(i as int)),
    {
        proof {
            assert(all.take(i + 1) =~= all.take(i as int).push(all[i as int]));
            all.take(i as int).lemma_filter_push(
                all[i as int],
                |a: Seq<char>| has_prefix(a, LAUNCH_URL_PREFIX@),
            );
        }
        if starts_with_text(args[i].as_str(), LAUNCH_URL_PREFIX) {
            let ghost before = kept@;
            kept.push(args[i].clone());
            assert(string_seqs(kept@) =~= string_seqs(before).push(all[i as int]));
        }
    }
    assert(all.take(n as int) =~= all);
    kept
}

/// The project page opened from the help menu.
pub const HELP_URL: &'static str = "https://github.com/yourpapayouknow/TextreamWindows";

/// What a menu item does.
#[derive(Debug, PartialEq, Eq)]
pub enum MenuResponse {
    /// Tell the interface to perform the action with this name.
    Forward(String),
    /// Open the help page.
    OpenHelp,
    /// Nothing.
    Ignore,
}

/// The action name forwarded for a menu item, if any.
pub open spec fn forwarded_action(id: Seq<char>) -> Option<Seq<char>> {
    if id == "settings"@ || id == "check-updates"@ || id == "open"@ || id == "save"@ || id
        == "save-as"@ || id == "add-page"@ {
        Some(id)
    } else if id == "about"@ {
        Some("settings"@)
    } else {
        None
    }
}

/// Maps a menu item to what it does: most items are forwarded under their
/// own name, "about" shows the settings, "help" opens the project page.
pub fn menu_response(id: &str) -> (r: MenuResponse)
    ensures
        forwarded_action(id@) matches Some(a) ==> r matches MenuResponse::Forward(f) && f@ == a,
        forwarded_action(id@) is None && id@ == "help"@ ==> r == MenuResponse::OpenHelp,
        forwarded_action(id@) is None && id@ != "help"@ ==> r == MenuResponse::Ignore,
{
    if same_text(id, "settings") || same_text(id, "check-updates") || same_text(id, "open")
        || same_text(id, "save") || same_text(id, "save-as") || same_text(id, "add-page") {
        MenuResponse::Forward(String::from_str(id))
    } else if same_text(id, "about") {
        MenuResponse::Forward(String::from_str("settings"))
    } else if same_text(id, "help") {
        MenuResponse::OpenHelp
    } else {
        MenuResponse::Ignore
    }
}

/// The window label of each overlay mode.
pub open spec fn overlay_label_of(mode: OverlayMode) -> Seq<char> {
    match mode {
        OverlayMode::Pinned => "textream-pinned-overlay"@,
        OverlayMode::Floating => "textream-floating-overlay"@,
        OverlayMode::Fullscreen => "textream-fullscreen-overlay"@,
    }
}

pub fn overlay_label(mode: OverlayMode) -> (r: &'static str)
    ensures
        r@ == overlay_label_of(mode),
{
    match mode {
        OverlayMode::Pinned => "textream-pinned-overlay",
        OverlayMode::Floating => "textream-floating-overlay",
        OverlayMode::Fullscreen => "textream-fullscreen-overlay",
    }
}

/// The interface route shown in each overlay mode.
pub open spec fn overlay_route_of(mode: OverlayMode) -> Seq<char> {
    match mode {
        OverlayMode::Pinned => "overlay-pinned"@,
        OverlayMode::Floating => "overlay-floating"@,
        OverlayMode::Fullscreen => "overlay-fullscreen"@,
    }
}

pub fn overlay_route(mode: OverlayMode) -> (r: &'static str)
    ensures
        r@ == overlay_route_of(mode),
{
    match mode {
        OverlayMode::Pinned => "overlay-pinned",
        OverlayMode::Floating => "overlay-floating",
        OverlayMode::Fullscreen => "overlay-fullscreen",
    }
}

/// Only the floating overlay can be resized.
pub fn overlay_resizable(mode: OverlayMode) -> (r: bool)
    ensures
        r == (mode == OverlayMode::Floating),
{
    mode == OverlayMode::Floating
}

/// The labels of all overlay windows, to close them.
pub fn overlay_labels() -> (r: Vec<&'static str>)
    ensures
        r@.len() == 3,
        r@[0]@ == overlay_label_of(OverlayMode::Pinned),
        r@[1]@ == overlay_label_of(OverlayMode::Floating),
        r@[2]@ == overlay_label_of(OverlayMode::Fullscreen),
{
    let mut v: Vec<&'static str> = Vec::new();
    v.push(overlay_label(OverlayMode::Pinned));
    v.push(overlay_label(OverlayMode::Floating));
    v.push(overlay_label(OverlayMode::Fullscreen));
    v
}

} // verus!

use vstd::prelude::*;
use rand::Rng;

use crate::models::DirectorCommand;
use crate::reading::{ReadingState, page_fits, rebuild_reading_content};
use crate::text::{
    char_count, is_blank, law_trim_empty_iff_blank, same_text, string_from_chars, string_seqs, trim,
    trim_text,
};

verus! {

/// An ASCII letter or digit.
pub open spec fn is_ascii_alphanumeric_byte(b: u8) -> bool {
    ||| 0x30 <= b <= 0x39
    ||| 0x41 <= b <= 0x5A
    ||| 0x61 <= b <= 0x7A
}

/// Samples `rand::distributions::Alphanumeric` with the thread-local
/// generator. The crate documents the distribution as uniform over the
/// ASCII letters and digits; which byte comes out is left open.
#[verifier::external_body]
fn random_alphanumeric_byte() -> (b: u8)
    ensures
        is_ascii_alphanumeric_byte(b),
{
    rand::thread_rng().sample(rand::distributions::Alphanumeric)
}

/// Length of the secret a director client must present.
pub const TOKEN_LENGTH: usize = 64;

/// A fresh random token: 64 ASCII letters and digits.
pub fn generate_token() -> (token: String)
    ensures
        token@.len() == TOKEN_LENGTH,
        forall|i: int|
            0 <= i < token@.len() ==> is_ascii_alphanumeric_byte(#[trigger] token@[i] as u8)
                && (token@[i] as u32) < 0x80,
{
    let mut chars: Vec<char> = Vec::new();
    for i in 0..TOKEN_LENGTH
        invariant
            chars@.len() == i,
            forall|k: int|
                0 <= k < i ==> is_ascii_alphanumeric_byte(#[trigger] chars@[k] as u8)
                    && (chars@[k] as u32) < 0x80,
    {
        let b = random_alphanumeric_byte();
        let c = b as char;
        proof {
            assert((c as u32) == b as u32);
            assert(c as u8 == b);
        }
        chars.push(c);
    }
    string_from_chars(chars.as_slice())
}

/// What an authenticated command asks for.
#[derive(Debug, Clone, Copy, PartialEq, Eq, Structural)]
pub enum DirectorCommandKind {
    SetText,
    UpdateText,
    Stop,
    Other,
}

/// The kind of a command, by its `type` field.
pub open spec fn command_kind_of(command_type: Seq<char>) -> DirectorCommandKind {
    if command_type == "setText"@ {
        DirectorCommandKind::SetText
    } else if command_type == "updateText"@ {
        DirectorCommandKind::UpdateText
    } else if command_type == "stop"@ {
        DirectorCommandKind::Stop
    } else {
        DirectorCommandKind::Other
    }
}

pub fn command_kind(command_type: &str) -> (k: DirectorCommandKind)
    ensures
        k == command_kind_of(command_type@),
{
    if same_text(command_type, "setText") {
        DirectorCommandKind::SetText
    } else if same_text(command_type, "updateText") {
        DirectorCommandKind::UpdateText
    } else if same_text(command_type, "stop") {
        DirectorCommandKind::Stop
    } else {
        DirectorCommandKind::Other
    }
}

/// A command that may load text carries text whose trimmed page fits.
pub open spec fn command_text_fits(command: Option<DirectorCommand>) -> bool {
    command matches Some(c) ==> (c.text matches Some(t) ==> page_fits(trim(t@)))
}

/// The change an authenticated director command makes to the reading.
pub open spec fn director_command_applied(
    before: ReadingState,
    c: DirectorCommand,
    after: ReadingState,
) -> bool {
    let kind = command_kind_of(c.command_type@);
    if kind == DirectorCommandKind::SetText && c.text is Some && trim(c.text->0@).len() > 0 {
        let t = trim(c.text->0@);
        &&& after.pages_view() == seq![t]
        &&& after.current_page_index == 0
        &&& after.read_pages@ == seq![0usize]
        &&& after.is_running
        &&& after.recognized_char_count == 0
        &&& after.last_spoken_text@ == Seq::<char>::empty()
        &&& after.listening_mode == before.listening_mode
        &&& after.content_matches_page()
    } else if kind == DirectorCommandKind::UpdateText && c.text is Some && trim(c.text->0@).len() > 0 {
        let t = trim(c.text->0@);
        let wanted = match c.read_char_count {
            Some(n) => n as int,
            None => before.recognized_char_count as int,
        };
        let capped = if wanted < t.len() { wanted } else { t.len() as int };
        &&& after.pages_view() == seq![t]
        &&& after.current_page_index == 0
        &&& after.read_pages@ == before.read_pages@
        &&& after.is_running
        &&& after.recognized_char_count == (if capped < after.total_char_count {
            capped
        } else {
            after.total_char_count as int
        })
        &&& after.last_spoken_text@ == before.last_spoken_text@
        &&& after.listening_mode == before.listening_mode
        &&& after.content_matches_page()
    } else if kind == DirectorCommandKind::Stop {
        &&& after.pages@ == before.pages@
        &&& after.current_page_index == before.current_page_index
        &&& after.read_pages@ == before.read_pages@
        &&& !after.is_running
        &&& after.words@ == before.words@
        &&& after.word_items@ == before.word_items@
        &&& after.total_char_count == before.total_char_count
        &&& after.recognized_char_count == before.recognized_char_count
        &&& after.has_next_page == before.has_next_page
        &&& after.listening_mode == before.listening_mode
        &&& after.last_spoken_text@ == before.last_spoken_text@
    } else {
        after == before
    }
}

fn single_page(text: &str) -> (r: Vec<String>)
    ensures
        string_seqs(r@) == seq![text@],
        r@.len() == 1,
        r@[0]@ == text@,
{
    let mut pages: Vec<String> = Vec::new();
    pages.push(String::from_str(text));
    assert(string_seqs(pages@) =~= seq![text@]);
    pages
}

/// Handles one command of a director client and returns whether the
/// connection is authenticated afterwards. Before authentication only an
/// `auth` command carrying the token is accepted, and it changes nothing
/// else; afterwards `setText`, `updateText` and `stop` act on the reading.
/// A message that could not be read as a command (`None`) changes nothing.
pub fn handle_command(
    command: Option<DirectorCommand>,
    authenticated: bool,
    token: &str,
    state: &mut ReadingState,
) -> (r: bool)
    requires
        command_text_fits(command),
    ensures
        command is None ==> r == authenticated && *final(state) == *old(state),
        command matches Some(c) ==> (!authenticated ==> {
            &&& r == (c.command_type@ == "auth"@ && c.text is Some && c.text->0@ == token@)
            &&& *final(state) == *old(state)
        }),
        command matches Some(c) ==> (authenticated ==> {
            &&& r
            &&& director_command_applied(*old(state), c, *final(state))
        }),
        old(state).well_formed() ==> final(state).well_formed(),
{
    let c = match command {
        None => {
            return authenticated;
        },
        Some(c) => c,
    };
    if !authenticated {
        let is_auth = same_text(c.command_type.as_str(), "auth");
        let matches_token = match &c.text {
            Some(t) => same_text(t.as_str(), token),
            None => false,
        };
        return is_auth && matches_token;
    }
    let kind = command_kind(c.command_type.as_str());
    if kind == DirectorCommandKind::SetText {
        if let Some(text) = &c.text {
            let trimmed = trim_text(text.as_str());
            if char_count(trimmed) > 0 {
                state.pages = single_page(trimmed);
                proof {
                    assert(command_text_fits(Some(c)));
                    assert(page_fits(trim(text@)));
                }
                state.current_page_index = 0;
                let mut read: Vec<usize> = Vec::new();
                read.push(0);
                state.read_pages = read;
                state.is_running = true;
                state.recognized_char_count = 0;
                state.last_spoken_text = String::new();
                rebuild_reading_content(state);
                assert(state.read_pages@ =~= seq![0usize]);
            }
        }
    } else if kind == DirectorCommandKind::UpdateText {
        if let Some(text) = &c.text {
            let trimmed = trim_text(text.as_str());
            let len = char_count(trimmed);
            if len > 0 {
                let wanted = match c.read_char_count {
                    Some(n) => n,
                    None => state.recognized_char_count,
                };
                state.pages = single_page(trimmed);
                proof {
                    assert(command_text_fits(Some(c)));
                    assert(page_fits(trim(text@)));
                }
                state.current_page_index = 0;
                state.is_running = true;
                state.recognized_char_count = if wanted < len { wanted } else { len };
                rebuild_reading_content(state);
            }
        }
    } else if kind == DirectorCommandKind::Stop {
        state.is_running = false;
    }
    true
}

/// A director's `setText` with text that is not blank replaces the script
/// by that text, trimmed, and restarts reading at its very beginning,
/// whatever the position was before.
pub proof fn law_set_text_restarts_reading(before: ReadingState, c: DirectorCommand, after: ReadingState)
    requires
        director_command_applied(before, c, after),
        c.command_type@ == "setText"@,
        c.text matches Some(t) && !is_blank(t@),
    ensures
        after.recognized_char_count == 0,
        after.is_running,
        after.current_page_index == 0,
        after.pages_view() == seq![trim(c.text->0@)],
        after.read_pages@ == seq![0usize],
        after.last_spoken_text@ == Seq::<char>::empty(),
        after.listening_mode == before.listening_mode,
{
    law_trim_empty_iff_blank(c.text->0@);
}

/// A director's `updateText` with text that is not blank replaces the
/// script by that text, trimmed, keeps reading, and keeps the position it
/// is sent (or the old one when none is sent), cut down to the length of
/// the new text and to its total.
pub proof fn law_update_text_keeps_position(before: ReadingState, c: DirectorCommand, after: ReadingState)
    requires
        director_command_applied(before, c, after),
        c.command_type@ == "updateText"@,
        c.text matches Some(t) && !is_blank(t@),
    ensures
        after.is_running,
        after.current_page_index == 0,
        after.pages_view() == seq![trim(c.text->0@)],
        after.read_pages@ == before.read_pages@,
        ({
            let wanted = match c.read_char_count {
                Some(n) => n as int,
                None => before.recognized_char_count as int,
            };
            &&& after.recognized_char_count <= wanted
            &&& after.recognized_char_count <= trim(c.text->0@).len()
            &&& after.recognized_char_count <= after.total_char_count
            &&& (after.recognized_char_count == wanted || after.recognized_char_count == trim(
                c.text->0@,
            ).len() || after.recognized_char_count == after.total_char_count)
        }),
{
    reveal_strlit("setText");
    reveal_strlit("updateText");
    assert("updateText"@.len() != "setText"@.len());
    assert(command_kind_of(c.command_type@) == DirectorCommandKind::UpdateText);
    law_trim_empty_iff_blank(c.text->0@);
}

/// A director's `stop` pauses reading and changes nothing else: the script,
/// the words and the position stay as they were.
pub proof fn law_stop_only_pauses(before: ReadingState, c: DirectorCommand, after: ReadingState)
    requires
        director_command_applied(before, c, after),
        c.command_type@ == "stop"@,
    ensures
        !after.is_running,
        after.pages@ == before.pages@,
        after.current_page_index == before.current_page_index,
        after.words@ == before.words@,
        after.recognized_char_count == before.recognized_char_count,
        after.total_char_count == before.total_char_count,
{
    reveal_strlit("setText");
    reveal_strlit("updateText");
    reveal_strlit("stop");
    assert("stop"@.len() != "setText"@.len());
    assert("stop"@.len() != "updateText"@.len());
    assert(command_kind_of(c.command_type@) == DirectorCommandKind::Stop);
}

/// A director's `setText` or `updateText` with blank or missing text, and
/// any command of another type, changes nothing.
pub proof fn law_other_commands_change_nothing(before: ReadingState, c: DirectorCommand, after: ReadingState)
    requires
        director_command_applied(before, c, after),
        c.command_type@ != "stop"@,
        c.command_type@ == "setText"@ || c.command_type@ == "updateText"@ ==> !(c.text matches Some(
            t,
        ) && !is_blank(t@)),
    ensures
        after == before,
{
    if let Some(t) = c.text {
        law_trim_empty_iff_blank(t@);
    }
}

/// Text of the director page before the token.
pub const DIRECTOR_HTML_HEAD: &'static str = r#"<!doctype html>
<html lang="en"><head><meta charset="utf-8"><meta name="viewport" content="width=device-width,initial-scale=1">
<title>Textream Director</title>
<style>
body{margin:0;background:#09090b;color:white;font:500 16px/1.5 system-ui,-apple-system,Segoe UI,sans-serif;display:flex;flex-direction:column;height:100vh}
header,footer{padding:12px 16px;border-color:rgba(255,255,255,.1);background:#111114}header{border-bottom:1px solid rgba(255,255,255,.1)}footer{border-top:1px solid rgba(255,255,255,.1);display:flex;gap:10px;align-items:center}
#editor{flex:1;padding:18px;outline:none;overflow:auto;white-space:pre-wrap;font-size:18px;line-height:1.7}button{border:0;border-radius:8px;padding:10px 18px;font-weight:700;color:white;background:#2563eb}button.stop{background:#dc2626}#status{opacity:.55}
</style></head><body>
<header><strong>Textream Director</strong> <span id="status">Connecting...</span></header>
<div id="editor" contenteditable="true" data-placeholder="Type or paste script here"></div>
<footer><button id="go">Go</button><button class="stop" id="stop">Stop</button><span id="progress"></span></footer>
<script>
const token='"#;

/// Text of the director page between the token and the socket port.
pub const DIRECTOR_HTML_MIDDLE: &'static str = r#"',wsPort="#;

/// Text of the director page after the socket port.
pub const DIRECTOR_HTML_TAIL: &'static str = r#",editor=document.getElementById('editor'),status=document.getElementById('status'),progress=document.getElementById('progress');
let ws,active=false,readCount=0;
function send(o){if(ws&&ws.readyState===1)ws.send(JSON.stringify(o));}
function connect(){ws=new WebSocket('ws://'+location.hostname+':'+wsPort);ws.onopen=()=>{status.textContent='Connected';send({type:'auth',text:token})};ws.onclose=()=>{status.textContent='Reconnecting...';setTimeout(connect,1200)};ws.onmessage=e=>{const s=JSON.parse(e.data);active=s.isActive;readCount=s.highlightedCharCount||0;progress.textContent=s.totalCharCount?Math.round(readCount/s.totalCharCount*100)+'%':'';}}
document.getElementById('go').onclick=()=>send({type:'setText',text:editor.innerText});
document.getElementById('stop').onclick=()=>send({type:'stop'});
editor.addEventListener('input',()=>{if(active)send({type:'updateText',text:editor.innerText,readCharCount:readCount})});
connect();
</script></body></html>"#;

/// Decimal digits of a number, most significant first, without leading
/// zeros ("0" for zero).
pub open spec fn decimal(n: nat) -> Seq<char>
    decreases n,
{
    if n < 10 {
        seq![(n + 0x30) as char]
    } else {
        decimal(n / 10).push(((n % 10) + 0x30) as char)
    }
}

/// The decimal representation of a number.
pub fn decimal_string(n: u64) -> (r: String)
    ensures
        r@ == decimal(n as nat),
{
    // digits are collected least significant first
    let mut digits: Vec<char> = Vec::new();
    let mut m = n;
    while m >= 10
        invariant
            m <= n,
            decimal(n as nat) =~= decimal(m as nat) + digits@.reverse(),
        decreases m,
    {
        let c = char_from_digit((m % 10) as u32);
        let ghost before = digits@;
        digits.push(c);
        proof {
            assert(decimal(m as nat) == decimal((m / 10) as nat).push(c));
            assert(digits@.reverse() =~= seq![c] + before.reverse());
            assert(decimal(m as nat) + before.reverse() =~= decimal((m / 10) as nat)
                + digits@.reverse());
        }
        m = m / 10;
    }
    let c = char_from_digit(m as u32);
    let ghost before = digits@;
    digits.push(c);
    proof {
        assert(decimal(m as nat) =~= seq![c]);
        assert(digits@.reverse() =~= seq![c] + before.reverse());
    }
    let mut out: Vec<char> = Vec::new();
    let k = digits.len();
    let mut i = k;
    while i > 0
        invariant
            i <= k,
            k == digits@.len(),
            out@ =~= digits@.reverse().take((k - i) as int),
        decreases i,
    {
        i = i - 1;
        out.push(digits[i]);
        assert(out@ =~= digits@.reverse().take((k - i) as int));
    }
    assert(digits@.reverse().take(k as int) =~= digits@.reverse());
    string_from_chars(out.as_slice())
}

fn char_from_digit(d: u32) -> (c: char)
    requires
        d < 10,
    ensures
        c == (d + 0x30) as char,
{
    let b = (d + 0x30) as u8;
    b as char
}

fn append_str(out: &mut String, s: &str)
    ensures
        final(out)@ == old(out)@ + s@,
{
    out.append(s);
}

/// The page served to director clients: it connects to the socket on
/// `ws_port` and authenticates with `token`.
pub fn generate_director_html(ws_port: u16, token: &str) -> (html: String)
    ensures
        html@ == DIRECTOR_HTML_HEAD@ + token@ + DIRECTOR_HTML_MIDDLE@ + decimal(ws_port as nat)
            + DIRECTOR_HTML_TAIL@,
{
    let mut html = String::from_str(DIRECTOR_HTML_HEAD);
    append_str(&mut html, token);
    append_str(&mut html, DIRECTOR_HTML_MIDDLE);
    let port = decimal_string(ws_port as u64);
    append_str(&mut html, port.as_str());
    append_str(&mut html, DIRECTOR_HTML_TAIL);
    html
}

/// Text of the remote viewer page before the socket port.
pub const REMOTE_HTML_HEAD: &'static str = r#"<!doctype html>
<html lang="en">
<head>
<meta charset="utf-8">
<meta name="viewport" content="width=device-width,initial-scale=1">
<title>Textream Remote</title>
<style>
body{margin:0;background:#050506;color:white;font:600 22px/1.7 system-ui,-apple-system,Segoe UI,sans-serif}
#app{min-height:100vh;padding:28px;display:flex;align-items:center;justify-content:center}
.word{opacity:.25;margin-right:.35em}.word.read{opacity:1;color:var(--font-color,#fff)}.cue{color:var(--cue-color,#fff)}
.empty{opacity:.45;font-size:15px}
</style>
</head>
<body><main id="app"><div class="empty">Connecting...</div></main>
<script>
const app=document.getElementById('app');
const ws=new WebSocket('ws://'+location.hostname+':"#;

/// Text of the remote viewer page after the socket port.
pub const REMOTE_HTML_TAIL: &'static str = r#"');
ws.onmessage=(event)=>{
  const s=JSON.parse(event.data);
  if(!s.isActive){app.innerHTML='<div class="empty">Waiting for Textream...</div>';return;}
  document.documentElement.style.setProperty('--font-color',s.fontColor);
  document.documentElement.style.setProperty('--cue-color',s.cueColor);
  let offset=0;
  app.innerHTML='<div>'+s.words.map(w=>{
    const read=offset<s.highlightedCharCount;
    const cue=/^\\[.*\\]$/.test(w);
    const html='<span class="word '+(read?'read ':'')+(cue?'cue':'')+'">'+w+'</span>';
    offset+=w.length+1;
    return html;
  }).join('')+'</div>';
};
ws.onclose=()=>app.innerHTML='<div class="empty">Disconnected</div>';
</script></body></html>"#;

/// The page served to remote viewers: it connects to the socket on
/// `ws_port` and shows the words it is sent.
pub fn generate_remote_html(ws_port: u16) -> (html: String)
    ensures
        html@ == REMOTE_HTML_HEAD@ + decimal(ws_port as nat) + REMOTE_HTML_TAIL@,
{
    let mut html = String::from_str(REMOTE_HTML_HEAD);
    let port = decimal_string(ws_port as u64);
    append_str(&mut html, port.as_str());
    append_str(&mut html, REMOTE_HTML_TAIL);
    html
}

} // verus!

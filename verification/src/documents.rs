use vstd::prelude::*;

use crate::text::{chars_of, string_from_chars, string_seqs};

verus! {

/// ASCII upper-case letters mapped to lower case; other characters kept.
pub open spec fn ascii_lower(c: char) -> char {
    if 0x41 <= (c as u32) <= 0x5A {
        ((c as u32) + 0x20) as char
    } else {
        c
    }
}

/// The text with ASCII letters in lower case.
pub open spec fn ascii_lowercase(s: Seq<char>) -> Seq<char> {
    s.map_values(|c: char| ascii_lower(c))
}

fn lower_char(c: char) -> (r: char)
    ensures
        r == ascii_lower(c),
{
    let u = c as u32;
    if 0x41 <= u && u <= 0x5A {
        let b = (u + 0x20) as u8;
        b as char
    } else {
        c
    }
}

/// The text with ASCII letters in lower case.
pub fn to_ascii_lowercase(s: &str) -> (r: String)
    ensures
        r@ == ascii_lowercase(s@),
{
    let cs = chars_of(s);
    let n = cs.len();
    let mut out: Vec<char> = Vec::new();
    for i in 0..n
        invariant
            n == cs@.len(),
            cs@ == s@,
            out@ =~= ascii_lowercase(s@).take(i as int),
    {
        out.push(lower_char(cs[i]));
        assert(out@ =~= ascii_lowercase(s@).take(i + 1));
    }
    assert(ascii_lowercase(s@).take(n as int) =~= ascii_lowercase(s@));
    string_from_chars(out.as_slice())
}

/// A path separator on any platform: a slash, and also a backslash on
/// Windows.
pub open spec fn is_path_sep(c: char) -> bool {
    c == '/' || c == '\\'
}

/// `e` is the extension of `path` on every platform: the path ends in a
/// dot followed by `e`, which is not empty and holds no dot, separator or
/// drive colon; the character before that dot is neither a separator nor
/// a colon; and the path does not begin with two separators (the form of
/// Windows network and device paths).
pub open spec fn plain_extension(path: Seq<char>, e: Seq<char>) -> bool {
    let n = path.len() as int;
    let m = e.len() as int;
    &&& m > 0
    &&& n >= m + 2
    &&& path.subrange(n - m, n) == e
    &&& path[n - m - 1] == '.'
    &&& !is_path_sep(path[n - m - 2])
    &&& path[n - m - 2] != ':'
    &&& forall|i: int| 0 <= i < m ==> #[trigger] e[i] != '.' && !is_path_sep(e[i]) && e[i] != ':'
    &&& !(is_path_sep(path[0]) && is_path_sep(path[1]))
}

/// The extension of a path (the part of its file name after the last
/// dot), as `std::path::Path::extension` gives it. Which part that is
/// depends in general on the path syntax of the platform the code runs
/// on, so the result is not named. As std documents it, an extension holds
/// no dot, and a path without a dot has none; and for a path whose final
/// component is plainly `name.e` (see `plain_extension`), Unix and Windows
/// both give `e`.
#[verifier::external_body]
pub(crate) fn path_extension(path: &str) -> (r: Option<String>)
    ensures
        r matches Some(e) ==> !e@.contains('.'),
        !path@.contains('.') ==> r is None,
        r is Some || forall|e: Seq<char>| !#[trigger] plain_extension(path@, e),
        r matches Some(x) ==> forall|e: Seq<char>| #[trigger] plain_extension(path@, e) ==> x@ == e,
{
    std::path::Path::new(path).extension().map(|e| e.to_string_lossy().into_owned())
}

/// The kinds of file a document can be opened from.
#[derive(Debug, Clone, Copy, PartialEq, Eq, Structural)]
pub enum DocumentKind {
    Textream,
    Pptx,
    Keynote,
    Unsupported,
}

/// The kind of file, by its extension in any ASCII case.
pub open spec fn document_kind_of(ext: Option<Seq<char>>) -> DocumentKind {
    match ext {
        Some(e) => if ascii_lowercase(e) == "textream"@ {
            DocumentKind::Textream
        } else if ascii_lowercase(e) == "pptx"@ {
            DocumentKind::Pptx
        } else if ascii_lowercase(e) == "key"@ {
            DocumentKind::Keynote
        } else {
            DocumentKind::Unsupported
        },
        None => DocumentKind::Unsupported,
    }
}

pub open spec fn optional_view(o: Option<String>) -> Option<Seq<char>> {
    match o {
        Some(s) => Some(s@),
        None => None,
    }
}

/// The kind of file that has this extension.
pub fn document_kind(ext: &Option<String>) -> (k: DocumentKind)
    ensures
        k == document_kind_of(optional_view(*ext)),
{
    match ext {
        Some(e) => {
            let lower = to_ascii_lowercase(e.as_str());
            if crate::text::same_text(lower.as_str(), "textream") {
                DocumentKind::Textream
            } else if crate::text::same_text(lower.as_str(), "pptx") {
                DocumentKind::Pptx
            } else if crate::text::same_text(lower.as_str(), "key") {
                DocumentKind::Keynote
            } else {
                DocumentKind::Unsupported
            }
        },
        None => DocumentKind::Unsupported,
    }
}

/// The kind of file at a path. It goes by `path_extension`, whose result
/// depends in general on the platform: the kind is that of some extension
/// without a dot, a path without a dot is unsupported, and a path with a
/// plain extension has the kind of that extension.
pub fn document_kind_of_path(path: &str) -> (k: DocumentKind)
    ensures
        exists|e: Option<Seq<char>>|
            k == document_kind_of(e) && (e matches Some(x) ==> !x.contains('.')),
        !path@.contains('.') ==> k == DocumentKind::Unsupported,
        forall|e: Seq<char>| #[trigger] plain_extension(path@, e) ==> k == document_kind_of(Some(e)),
{
    let ext = path_extension(path);
    document_kind(&ext)
}

/// The message for a file that cannot be opened, by its kind; none for
/// kinds that can be opened.
pub open spec fn unopenable_message(kind: DocumentKind) -> Option<Seq<char>> {
    match kind {
        DocumentKind::Keynote => Some(
            "Keynote files cannot be imported directly. Export to PowerPoint (.pptx) first."@,
        ),
        DocumentKind::Unsupported => Some("Unsupported file. Use .textream or .pptx."@),
        _ => None,
    }
}

pub fn unopenable_reason(kind: DocumentKind) -> (r: Option<String>)
    ensures
        optional_view(r) == unopenable_message(kind),
{
    match kind {
        DocumentKind::Keynote => Some(
            String::from_str(
                "Keynote files cannot be imported directly. Export to PowerPoint (.pptx) first.",
            ),
        ),
        DocumentKind::Unsupported => Some(String::from_str("Unsupported file. Use .textream or .pptx.")),
        _ => None,
    }
}

/// The pages that a JSON text holds as an array of strings, as
/// `serde_json::from_str::<Vec<String>>` reads it, or the message of its
/// error.
pub uninterp spec fn json_string_list(data: Seq<char>) -> Result<Seq<Seq<char>>, Seq<char>>;

/// Reads JSON with `serde_json::from_str::<Vec<String>>`; the result, with
/// the error as its display text, is named `json_string_list`. The second
/// clause states that text written by `serde_json::to_string_pretty` for a
/// list of strings is read back as the same strings.
#[verifier::external_body]
fn parse_json_string_list(data: &str) -> (r: Result<Vec<String>, String>)
    ensures
        match r {
            Ok(v) => json_string_list(data@) == Ok::<Seq<Seq<char>>, Seq<char>>(string_seqs(v@)),
            Err(e) => json_string_list(data@) == Err::<Seq<Seq<char>>, Seq<char>>(e@),
        },
        r matches Ok(v) || forall|p: Seq<Seq<char>>| data@ != #[trigger] pretty_json_string_list(p),
        r matches Ok(v) ==> forall|p: Seq<Seq<char>>|
            data@ == #[trigger] pretty_json_string_list(p) ==> string_seqs(v@) == p,
{
    serde_json::from_str::<Vec<String>>(data).map_err(|e| e.to_string())
}

/// The JSON text `serde_json::to_string_pretty` writes for a list of
/// strings.
pub uninterp spec fn pretty_json_string_list(pages: Seq<Seq<char>>) -> Seq<char>;

/// Writes pages with `serde_json::to_string_pretty` as a JSON array of
/// strings; the result is named `pretty_json_string_list`. Serialising a
/// vector of strings into memory cannot fail in serde_json.
#[verifier::external_body]
fn write_json_string_list(pages: &Vec<String>) -> (r: String)
    ensures
        r@ == pretty_json_string_list(string_seqs(pages@)),
{
    serde_json::to_string_pretty(pages).unwrap_or_default()
}

/// What opening a `.textream` document with this text gives: its pages,
/// or an error when it is not a JSON array of strings or has no pages.
pub open spec fn document_pages(data: Seq<char>) -> Result<Seq<Seq<char>>, Seq<char>> {
    match json_string_list(data) {
        Err(e) => Err("Invalid .textream document: "@ + e),
        Ok(pages) => if pages.len() == 0 {
            Err("Document has no pages"@)
        } else {
            Ok(pages)
        },
    }
}

/// Reads the pages of a `.textream` document.
pub fn pages_from_document_json(data: &str) -> (r: Result<Vec<String>, String>)
    ensures
        match r {
            Ok(v) => document_pages(data@) == Ok::<Seq<Seq<char>>, Seq<char>>(string_seqs(v@)),
            Err(e) => document_pages(data@) == Err::<Seq<Seq<char>>, Seq<char>>(e@),
        },
        forall|p: Seq<Seq<char>>|
            data@ == #[trigger] pretty_json_string_list(p) && p.len() > 0 ==> (r matches Ok(v)
                && string_seqs(v@) == p),
{
    match parse_json_string_list(data) {
        Err(e) => {
            let mut m = String::from_str("Invalid .textream document: ");
            m.append(e.as_str());
            Err(m)
        },
        Ok(pages) => {
            if pages.len() == 0 {
                Err(String::from_str("Document has no pages"))
            } else {
                Ok(pages)
            }
        },
    }
}

/// The text a `.textream` document is saved as.
pub fn encode_document(pages: &Vec<String>) -> (r: String)
    ensures
        r@ == pretty_json_string_list(string_seqs(pages@)),
{
    write_json_string_list(pages)
}

} // verus!

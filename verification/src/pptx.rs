use std::io::Read;

use vstd::prelude::*;

use crate::documents::{ascii_lowercase, optional_view, path_extension, plain_extension};
use crate::numbers::{is_ascii_digit, is_i64_text, parse_u32, parse_u32_spec, parses_as_i64};
use crate::text::{
    chars_of, ends_with_text, has_prefix, has_suffix, same_text, starts_with_text,
    string_from_chars, string_seqs, trim, trim_text,
};

verus! {

// ---------------------------------------------------------------------------
// Errors
// ---------------------------------------------------------------------------

/// Why presenter notes could not be taken from a file.
#[derive(Debug)]
pub enum PptxError {
    UnsupportedFormat,
    ExtractionFailed(String),
    NoNotesFound,
}

/// The message shown for an error.
pub open spec fn pptx_error_message(e: PptxError) -> Seq<char> {
    match e {
        PptxError::UnsupportedFormat => "Unsupported file format. Please drop a .pptx file."@,
        PptxError::ExtractionFailed(detail) => "Failed to extract notes: "@ + detail@,
        PptxError::NoNotesFound => "No presenter notes found in this presentation."@,
    }
}

impl PptxError {
    /// The message shown for this error.
    pub fn message(&self) -> (r: String)
        ensures
            r@ == pptx_error_message(*self),
    {
        match self {
            PptxError::UnsupportedFormat => String::from_str(
                "Unsupported file format. Please drop a .pptx file.",
            ),
            PptxError::ExtractionFailed(detail) => {
                let mut m = String::from_str("Failed to extract notes: ");
                m.append(detail.as_str());
                m
            },
            PptxError::NoNotesFound => String::from_str(
                "No presenter notes found in this presentation.",
            ),
        }
    }
}

// ---------------------------------------------------------------------------
// Which archive entries hold notes, and in which order
// ---------------------------------------------------------------------------

/// Archive entries that hold the notes of a slide.
pub open spec fn is_note_file_name(name: Seq<char>) -> bool {
    has_prefix(name, "ppt/notesSlides/notesSlide"@) && has_suffix(name, ".xml"@)
}

pub fn is_note_file(name: &str) -> (r: bool)
    ensures
        r == is_note_file_name(name@),
{
    starts_with_text(name, "ppt/notesSlides/notesSlide") && ends_with_text(name, ".xml")
}

/// The decimal digits of a text, in order.
pub open spec fn ascii_digits(s: Seq<char>) -> Seq<char> {
    s.filter(|c: char| is_ascii_digit(c))
}

/// The number in an entry name: all its digits read together.
pub fn extract_number(name: &str) -> (r: Option<u32>)
    ensures
        r == parse_u32_spec(ascii_digits(name@)),
{
    let chars = chars_of(name);
    let n = chars.len();
    let mut digits: Vec<char> = Vec::new();
    for i in 0..n
        invariant
            n == chars@.len(),
            chars@ == name@,
            digits@ == ascii_digits(name@.take(i as int)),
    {
        let c = chars[i];
        proof {
            assert(name@.take(i + 1) =~= name@.take(i as int).push(c));
            name@.take(i as int).lemma_filter_push(c, |c: char| is_ascii_digit(c));
        }
        let u = c as u32;
        if 0x30 <= u && u <= 0x39 {
            digits.push(c);
        }
    }
    assert(name@.take(n as int) =~= name@);
    let text = string_from_chars(digits.as_slice());
    parse_u32(text.as_str())
}

/// The slide number an entry is ordered by: its number, or zero when it
/// has none that fits.
pub open spec fn note_key(name: Seq<char>) -> int {
    match parse_u32_spec(ascii_digits(name)) {
        Some(v) => v as int,
        None => 0,
    }
}

/// `x` placed after every entry whose key is not larger than its own.
pub open spec fn insert_by_key(sorted: Seq<Seq<char>>, x: Seq<char>) -> Seq<Seq<char>>
    decreases sorted.len(),
{
    if sorted.len() == 0 {
        seq![x]
    } else if note_key(sorted.last()) <= note_key(x) {
        sorted.push(x)
    } else {
        insert_by_key(sorted.drop_last(), x).push(sorted.last())
    }
}

/// The entries ordered by slide number; entries with the same number keep
/// their order.
pub open spec fn sort_by_note_number(s: Seq<Seq<char>>) -> Seq<Seq<char>>
    decreases s.len(),
{
    if s.len() == 0 {
        s
    } else {
        insert_by_key(sort_by_note_number(s.drop_last()), s.last())
    }
}

/// Entries in order of slide number.
pub open spec fn sorted_by_note_number(s: Seq<Seq<char>>) -> bool {
    forall|i: int, j: int| 0 <= i < j < s.len() ==> note_key(s[i]) <= note_key(s[j])
}

/// The entries with slide number `k`, in order.
pub open spec fn with_key(s: Seq<Seq<char>>, k: int) -> Seq<Seq<char>> {
    s.filter(|n: Seq<char>| note_key(n) == k)
}

proof fn lemma_insert_by_key(sorted: Seq<Seq<char>>, x: Seq<char>)
    requires
        sorted_by_note_number(sorted),
    ensures
        sorted_by_note_number(insert_by_key(sorted, x)),
        insert_by_key(sorted, x).to_multiset() =~= sorted.to_multiset().insert(x),
        forall|k: int|
            #[trigger] with_key(insert_by_key(sorted, x), k) == if note_key(x) == k {
                with_key(sorted, k).push(x)
            } else {
                with_key(sorted, k)
            },
    decreases sorted.len(),
{
    broadcast use vstd::seq_lib::group_to_multiset_ensures;

    let r = insert_by_key(sorted, x);
    if sorted.len() == 0 {
        assert forall|k: int| #[trigger] with_key(r, k) == if note_key(x) == k {
            with_key(sorted, k).push(x)
        } else {
            with_key(sorted, k)
        } by {
            sorted.lemma_filter_push(x, |n: Seq<char>| note_key(n) == k);
            assert(sorted.push(x) =~= r);
        }
    } else if note_key(sorted.last()) <= note_key(x) {
        assert(r == sorted.push(x));
        assert forall|i: int, j: int| 0 <= i < j < r.len() implies note_key(r[i]) <= note_key(r[j]) by {
            if j == sorted.len() {
                if i < sorted.len() - 1 {
                    assert(note_key(sorted[i]) <= note_key(sorted[sorted.len() - 1]));
                }
            }
        }
        assert forall|k: int| #[trigger] with_key(r, k) == if note_key(x) == k {
            with_key(sorted, k).push(x)
        } else {
            with_key(sorted, k)
        } by {
            sorted.lemma_filter_push(x, |n: Seq<char>| note_key(n) == k);
        }
    } else {
        let p = sorted.drop_last();
        let l = sorted.last();
        assert(sorted =~= p.push(l));
        assert(sorted_by_note_number(p)) by {
            assert forall|i: int, j: int| 0 <= i < j < p.len() implies note_key(p[i]) <= note_key(p[j]) by {
                assert(p[i] == sorted[i] && p[j] == sorted[j]);
            }
        }
        lemma_insert_by_key(p, x);
        let q = insert_by_key(p, x);
        assert(r == q.push(l));
        lemma_insert_keys_bounded(p, x, note_key(l));
        assert forall|i: int, j: int| 0 <= i < j < r.len() implies note_key(r[i]) <= note_key(r[j]) by {
            if j == q.len() {
                assert(r[i] == q[i]);
            } else {
                assert(r[i] == q[i] && r[j] == q[j]);
            }
        }
        assert(r.to_multiset() =~= q.to_multiset().insert(l));
        assert(sorted.to_multiset() =~= p.to_multiset().insert(l));
        assert forall|k: int| #[trigger] with_key(r, k) == if note_key(x) == k {
            with_key(sorted, k).push(x)
        } else {
            with_key(sorted, k)
        } by {
            q.lemma_filter_push(l, |n: Seq<char>| note_key(n) == k);
            p.lemma_filter_push(l, |n: Seq<char>| note_key(n) == k);
            assert(with_key(q, k) == if note_key(x) == k {
                with_key(p, k).push(x)
            } else {
                with_key(p, k)
            });
        }
    }
}

/// Every entry after inserting `x` has a key at most `bound`, when `x` and
/// all entries do.
proof fn lemma_insert_keys_bounded(sorted: Seq<Seq<char>>, x: Seq<char>, bound: int)
    requires
        note_key(x) <= bound,
        forall|i: int| 0 <= i < sorted.len() ==> note_key(#[trigger] sorted[i]) <= bound,
    ensures
        forall|i: int|
            0 <= i < insert_by_key(sorted, x).len() ==> note_key(
                #[trigger] insert_by_key(sorted, x)[i],
            ) <= bound,
    decreases sorted.len(),
{
    if sorted.len() > 0 && note_key(sorted.last()) > note_key(x) {
        let p = sorted.drop_last();
        assert forall|i: int| 0 <= i < p.len() implies note_key(#[trigger] p[i]) <= bound by {
            assert(p[i] == sorted[i]);
        }
        lemma_insert_keys_bounded(p, x, bound);
        let q = insert_by_key(p, x);
        assert forall|i: int| 0 <= i < insert_by_key(sorted, x).len() implies note_key(
            #[trigger] insert_by_key(sorted, x)[i],
        ) <= bound by {
            if i < q.len() {
                assert(insert_by_key(sorted, x)[i] == q[i]);
            }
        }
    } else if sorted.len() > 0 {
        assert forall|i: int| 0 <= i < insert_by_key(sorted, x).len() implies note_key(
            #[trigger] insert_by_key(sorted, x)[i],
        ) <= bound by {
            if i < sorted.len() {
                assert(insert_by_key(sorted, x)[i] == sorted[i]);
            }
        }
    }
}

/// Ordering by slide number is a stable sort: the result is in order of
/// slide number, holds the same entries, and entries with the same number
/// keep their order.
pub proof fn law_sort_by_note_number(s: Seq<Seq<char>>)
    ensures
        sorted_by_note_number(sort_by_note_number(s)),
        sort_by_note_number(s).to_multiset() =~= s.to_multiset(),
        forall|k: int| #[trigger] with_key(sort_by_note_number(s), k) == with_key(s, k),
    decreases s.len(),
{
    broadcast use vstd::seq_lib::group_to_multiset_ensures;

    if s.len() == 0 {
    } else {
        let p = s.drop_last();
        law_sort_by_note_number(p);
        lemma_insert_by_key(sort_by_note_number(p), s.last());
        assert(s =~= p.push(s.last()));
        assert forall|k: int| #[trigger] with_key(sort_by_note_number(s), k) == with_key(s, k) by {
            p.lemma_filter_push(s.last(), |n: Seq<char>| note_key(n) == k);
            assert(with_key(sort_by_note_number(p), k) == with_key(p, k));
        }
    }
}

/// The note entries of an archive, ordered by slide number.
pub open spec fn note_files(names: Seq<Seq<char>>) -> Seq<Seq<char>> {
    sort_by_note_number(names.filter(|n: Seq<char>| is_note_file_name(n)))
}

proof fn lemma_insert_at(sorted: Seq<Seq<char>>, x: Seq<char>, j: int)
    requires
        0 <= j <= sorted.len(),
        forall|k: int| j <= k < sorted.len() ==> note_key(#[trigger] sorted[k]) > note_key(x),
        j == 0 || note_key(sorted[j - 1]) <= note_key(x),
    ensures
        insert_by_key(sorted, x) == sorted.insert(j, x),
    decreases sorted.len() - j,
{
    if sorted.len() == 0 {
        assert(sorted.insert(j, x) =~= seq![x]);
    } else if j == sorted.len() {
        assert(sorted.insert(j, x) =~= sorted.push(x));
    } else {
        let p = sorted.drop_last();
        assert forall|k: int| j <= k < p.len() implies note_key(#[trigger] p[k]) > note_key(x) by {
            assert(p[k] == sorted[k]);
        }
        if j > 0 {
            assert(p[j - 1] == sorted[j - 1]);
        }
        lemma_insert_at(p, x, j);
        assert(sorted.insert(j, x) =~= p.insert(j, x).push(sorted.last()));
    }
}

/// Orders note entries by slide number, keeping the order of entries with
/// the same number.
pub fn sort_note_files(names: Vec<String>) -> (r: Vec<String>)
    ensures
        string_seqs(r@) == sort_by_note_number(string_seqs(names@)),
{
    let ghost input = string_seqs(names@);
    let n = names.len();
    let mut sorted: Vec<String> = Vec::new();
    let mut keys: Vec<u32> = Vec::new();
    for i in 0..n
        invariant
            n == names.len(),
            input == string_seqs(names@),
            keys@.len() == sorted@.len(),
            forall|k: int| 0 <= k < keys@.len() ==> keys@[k] as int == note_key(#[trigger] sorted@[k]@),
            string_seqs(sorted@) == sort_by_note_number(input.take(i as int)),
    {
        let name = names[i].clone();
        let key: u32 = match extract_number(name.as_str()) {
            Some(v) => v,
            None => 0,
        };
        let ghost x = name@;
        let mut j = sorted.len();
        while j > 0 && keys[j - 1] > key
            invariant
                j <= sorted@.len(),
                keys@.len() == sorted@.len(),
                forall|k: int| 0 <= k < keys@.len() ==> keys@[k] as int == note_key(#[trigger] sorted@[k]@),
                forall|k: int| j <= k < sorted@.len() ==> note_key(#[trigger] sorted@[k]@) > key,
            decreases j,
        {
            j = j - 1;
        }
        proof {
            let ss = string_seqs(sorted@);
            assert forall|k: int| j <= k < ss.len() implies note_key(#[trigger] ss[k]) > note_key(x) by {
                assert(ss[k] == sorted@[k]@);
            }
            if j > 0 {
                assert(ss[j - 1] == sorted@[j - 1]@);
            }
            lemma_insert_at(ss, x, j as int);
            assert(input.take(i + 1).drop_last() =~= input.take(i as int));
            assert(input.take(i + 1).last() == x);
        }
        let ghost before = sorted@;
        sorted.insert(j, name);
        keys.insert(j, key);
        proof {
            assert(string_seqs(sorted@) =~= string_seqs(before).insert(j as int, x));
            assert forall|k: int| 0 <= k < keys@.len() implies keys@[k] as int == note_key(
                #[trigger] sorted@[k]@,
            ) by {
                if k < j {
                    assert(sorted@[k] == before[k]);
                } else if k > j {
                    assert(sorted@[k] == before[k - 1]);
                }
            }
        }
    }
    assert(input.take(n as int) =~= input);
    sorted
}

/// Keeps the note entries of an archive listing, ordered by slide number.
pub fn select_note_files(names: &Vec<String>) -> (r: Vec<String>)
    ensures
        string_seqs(r@) == note_files(string_seqs(names@)),
{
    let ghost all = string_seqs(names@);
    let n = names.len();
    let mut kept: Vec<String> = Vec::new();
    for i in 0..n
        invariant
            n == names.len(),
            all == string_seqs(names@),
            string_seqs(kept@) == all.take(i as int).filter(|n: Seq<char>| is_note_file_name(n)),
    {
        proof {
            assert(all.take(i + 1) =~= all.take(i as int).push(all[i as int]));
            all.take(i as int).lemma_filter_push(all[i as int], |n: Seq<char>| is_note_file_name(n));
        }
        if is_note_file(names[i].as_str()) {
            let ghost before = kept@;
            kept.push(names[i].clone());
            assert(string_seqs(kept@) =~= string_seqs(before).push(all[i as int]));
        }
    }
    assert(all.take(n as int) =~= all);
    sort_note_files(kept)
}

// ---------------------------------------------------------------------------
// The notes XML
// ---------------------------------------------------------------------------

/// One node of a parsed XML document, in document order: whether it is an
/// element, its local name (empty when it is not an element), the index of
/// its parent, its `type` attribute, and its text as `roxmltree` gives it
/// (for an element, the text of a first child that is text).
#[derive(Debug)]
pub struct XmlNode {
    pub is_element: bool,
    pub name: String,
    pub parent: Option<usize>,
    pub type_attr: Option<String>,
    pub text: Option<String>,
}

/// The contents of an `XmlNode`.
pub struct XmlNodeView {
    pub is_element: bool,
    pub name: Seq<char>,
    pub parent: Option<usize>,
    pub type_attr: Option<Seq<char>>,
    pub text: Option<Seq<char>>,
}

pub open spec fn optional_text(o: Option<String>) -> Option<Seq<char>> {
    match o {
        Some(s) => Some(s@),
        None => None,
    }
}

impl View for XmlNode {
    type V = XmlNodeView;

    open spec fn view(&self) -> XmlNodeView {
        XmlNodeView {
            is_element: self.is_element,
            name: self.name@,
            parent: self.parent,
            type_attr: optional_text(self.type_attr),
            text: optional_text(self.text),
        }
    }
}

pub open spec fn nodes_view(v: Seq<XmlNode>) -> Seq<XmlNodeView> {
    v.map_values(|n: XmlNode| n@)
}

/// The nodes of an XML text as `roxmltree` parses it (every node of the
/// document, from the root, in document order), or none when it does not
/// parse.
pub uninterp spec fn xml_document_nodes(xml: Seq<char>) -> Option<Seq<XmlNodeView>>;

/// Parses XML with `roxmltree::Document::parse` and lists every node of
/// the document in document order, with what the notes logic reads of it;
/// the result is named `xml_document_nodes`.
#[verifier::external_body]
fn parse_xml_nodes(xml: &str) -> (r: Option<Vec<XmlNode>>)
    ensures
        match r {
            Some(v) => xml_document_nodes(xml@) == Some(nodes_view(v@)),
            None => xml_document_nodes(xml@) is None,
        },
{
    let doc = roxmltree::Document::parse(xml).ok()?;
    Some(
        doc.descendants().map(
            |n| XmlNode {
                is_element: n.is_element(),
                name: n.tag_name().name().to_string(),
                parent: n.parent().map(|p| p.id().get_usize()),
                type_attr: n.attribute("type").map(|a| a.to_string()),
                text: n.text().map(|t| t.to_string()),
            },
        ).collect(),
    )
}

/// Node `i` is an element with local name `name`.
pub open spec fn is_named(nodes: Seq<XmlNodeView>, i: int, name: Seq<char>) -> bool {
    0 <= i < nodes.len() && nodes[i].is_element && nodes[i].name == name
}

/// Node `a` is `j` or one of its ancestors, found within `fuel` steps up.
pub open spec fn reaches(nodes: Seq<XmlNodeView>, j: int, a: int, fuel: nat) -> bool
    decreases fuel,
{
    if !(0 <= j < nodes.len()) {
        false
    } else if j == a {
        true
    } else if fuel == 0 {
        false
    } else {
        match nodes[j].parent {
            Some(p) => reaches(nodes, p as int, a, (fuel - 1) as nat),
            None => false,
        }
    }
}

/// Node `j` lies within node `a` (is `a` or a descendant of it).
pub open spec fn within(nodes: Seq<XmlNodeView>, j: int, a: int) -> bool {
    reaches(nodes, j, a, nodes.len())
}

/// The nearest of `j` and its ancestors that is an element named `name`.
pub open spec fn nearest_named(nodes: Seq<XmlNodeView>, j: int, name: Seq<char>, fuel: nat) -> Option<
    int,
>
    decreases fuel,
{
    if !(0 <= j < nodes.len()) {
        None
    } else if is_named(nodes, j, name) {
        Some(j)
    } else if fuel == 0 {
        None
    } else {
        match nodes[j].parent {
            Some(p) => nearest_named(nodes, p as int, name, (fuel - 1) as nat),
            None => None,
        }
    }
}

/// Placeholder kinds whose text is not part of the notes: slide number,
/// slide image, date, header and footer.
pub open spec fn is_skipped_placeholder(kind: Option<Seq<char>>) -> bool {
    match kind {
        Some(k) => k == "sldNum"@ || k == "sldImg"@ || k == "dt"@ || k == "hdr"@ || k == "ftr"@,
        None => false,
    }
}

/// The shape holds a placeholder of a skipped kind.
pub open spec fn shape_has_skipped_placeholder(nodes: Seq<XmlNodeView>, shape: int) -> bool {
    exists|j: int|
        0 <= j < nodes.len() && within(nodes, j, shape) && is_named(nodes, j, "ph"@)
            && is_skipped_placeholder(#[trigger] nodes[j].type_attr)
}

/// A paragraph is skipped when its shape is a skipped placeholder.
pub open spec fn skip_paragraph(nodes: Seq<XmlNodeView>, p: int) -> bool {
    match nearest_named(nodes, p, "sp"@, nodes.len()) {
        Some(shape) => shape_has_skipped_placeholder(nodes, shape),
        None => false,
    }
}

/// What node `j` adds to the text of a paragraph: the text of a run, or a
/// line break.
pub open spec fn text_piece(nodes: Seq<XmlNodeView>, j: int) -> Seq<char> {
    if is_named(nodes, j, "t"@) {
        match nodes[j].text {
            Some(t) => t,
            None => Seq::empty(),
        }
    } else if is_named(nodes, j, "br"@) {
        seq!['\n']
    } else {
        Seq::empty()
    }
}

/// The text of paragraph `p` gathered from the nodes before `k`.
pub open spec fn paragraph_text_upto(nodes: Seq<XmlNodeView>, p: int, k: int) -> Seq<char>
    decreases k,
{
    if k <= 0 {
        Seq::empty()
    } else {
        paragraph_text_upto(nodes, p, k - 1) + (if within(nodes, k - 1, p) {
            text_piece(nodes, k - 1)
        } else {
            Seq::empty()
        })
    }
}

/// The text of the paragraphs among the nodes before `k`, one entry each.
pub open spec fn paragraphs_upto(nodes: Seq<XmlNodeView>, k: int) -> Seq<Seq<char>>
    decreases k,
{
    if k <= 0 {
        Seq::empty()
    } else if is_named(nodes, k - 1, "p"@) && !skip_paragraph(nodes, k - 1) {
        paragraphs_upto(nodes, k - 1).push(paragraph_text_upto(nodes, k - 1, nodes.len() as int))
    } else {
        paragraphs_upto(nodes, k - 1)
    }
}

/// Lines joined by line breaks.
pub open spec fn joined_lines(ls: Seq<Seq<char>>) -> Seq<char>
    decreases ls.len(),
{
    if ls.len() == 0 {
        Seq::empty()
    } else if ls.len() == 1 {
        ls[0]
    } else {
        joined_lines(ls.drop_last()) + seq!['\n'] + ls.last()
    }
}

/// The notes text of a notes slide: its paragraphs, one per line, without
/// those of slide number, slide image, date, header and footer
/// placeholders; nothing when the XML does not parse.
pub open spec fn note_text(xml: Seq<char>) -> Seq<char> {
    match xml_document_nodes(xml) {
        Some(nodes) => nodes_note_text(nodes),
        None => Seq::empty(),
    }
}

/// The notes text of a parsed notes slide: its paragraphs, one per line,
/// without those of skipped placeholders.
pub open spec fn nodes_note_text(nodes: Seq<XmlNodeView>) -> Seq<char> {
    joined_lines(paragraphs_upto(nodes, nodes.len() as int))
}

fn within_node(nodes: &Vec<XmlNode>, j: usize, a: usize) -> (r: bool)
    ensures
        r == within(nodes_view(nodes@), j as int, a as int),
{
    let ghost ns = nodes_view(nodes@);
    let n = nodes.len();
    let mut cur = j;
    let mut fuel = n;
    loop
        invariant
            n == nodes.len(),
            ns == nodes_view(nodes@),
            fuel <= n,
            reaches(ns, j as int, a as int, n as nat) == reaches(ns, cur as int, a as int, fuel as nat),
        decreases fuel,
    {
        if cur >= n {
            return false;
        }
        if cur == a {
            return true;
        }
        if fuel == 0 {
            return false;
        }
        assert(ns[cur as int].parent == nodes@[cur as int].parent);
        match nodes[cur].parent {
            Some(p) => {
                cur = p;
                fuel = fuel - 1;
            },
            None => {
                return false;
            },
        }
    }
}

fn nearest_shape(nodes: &Vec<XmlNode>, j: usize) -> (r: Option<usize>)
    ensures
        match r {
            Some(s) => nearest_named(nodes_view(nodes@), j as int, "sp"@, nodes@.len() as nat)
                == Some(s as int),
            None => nearest_named(nodes_view(nodes@), j as int, "sp"@, nodes@.len() as nat) is None,
        },
{
    let ghost ns = nodes_view(nodes@);
    let n = nodes.len();
    let mut cur = j;
    let mut fuel = n;
    loop
        invariant
            n == nodes.len(),
            ns == nodes_view(nodes@),
            fuel <= n,
            nearest_named(ns, j as int, "sp"@, n as nat) == nearest_named(
                ns,
                cur as int,
                "sp"@,
                fuel as nat,
            ),
        decreases fuel,
    {
        if cur >= n {
            return None;
        }
        if node_is_named(nodes, cur, "sp") {
            return Some(cur);
        }
        if fuel == 0 {
            return None;
        }
        assert(ns[cur as int].parent == nodes@[cur as int].parent);
        match nodes[cur].parent {
            Some(p) => {
                cur = p;
                fuel = fuel - 1;
            },
            None => {
                return None;
            },
        }
    }
}

fn node_is_named(nodes: &Vec<XmlNode>, i: usize, name: &str) -> (r: bool)
    ensures
        r == is_named(nodes_view(nodes@), i as int, name@),
{
    if i >= nodes.len() {
        return false;
    }
    let node = &nodes[i];
    node.is_element && same_text(node.name.as_str(), name)
}

fn is_skipped_kind(kind: &Option<String>) -> (r: bool)
    ensures
        r == is_skipped_placeholder(optional_text(*kind)),
{
    match kind {
        Some(k) => {
            let k = k.as_str();
            same_text(k, "sldNum") || same_text(k, "sldImg") || same_text(k, "dt") || same_text(
                k,
                "hdr",
            ) || same_text(k, "ftr")
        },
        None => false,
    }
}

fn should_skip_shape(nodes: &Vec<XmlNode>, p: usize) -> (r: bool)
    ensures
        r == skip_paragraph(nodes_view(nodes@), p as int),
{
    let ghost ns = nodes_view(nodes@);
    let shape = match nearest_shape(nodes, p) {
        Some(s) => s,
        None => {
            return false;
        },
    };
    let n = nodes.len();
    for j in 0..n
        invariant
            n == nodes.len(),
            ns == nodes_view(nodes@),
            nearest_named(ns, p as int, "sp"@, ns.len() as nat) == Some(shape as int),
            forall|k: int|
                0 <= k < j ==> !(within(ns, k, shape as int) && is_named(ns, k, "ph"@)
                    && is_skipped_placeholder(#[trigger] ns[k].type_attr)),
    {
        assert(ns[j as int].type_attr == optional_text(nodes@[j as int].type_attr));
        if within_node(nodes, j, shape) && node_is_named(nodes, j, "ph") && is_skipped_kind(
            &nodes[j].type_attr,
        ) {
            assert(is_skipped_placeholder(ns[j as int].type_attr));
            assert(shape_has_skipped_placeholder(ns, shape as int));
            return true;
        }
    }
    false
}

fn push_chars(out: &mut Vec<char>, s: &str)
    ensures
        final(out)@ == old(out)@ + s@,
{
    let cs = chars_of(s);
    let m = cs.len();
    let ghost start = out@;
    for k in 0..m
        invariant
            m == cs@.len(),
            cs@ == s@,
            out@ == start + s@.take(k as int),
    {
        out.push(cs[k]);
        assert(s@.take(k + 1) =~= s@.take(k as int).push(cs@[k as int]));
    }
    assert(s@.take(m as int) =~= s@);
}

fn paragraph_text(nodes: &Vec<XmlNode>, p: usize) -> (r: Vec<char>)
    ensures
        r@ == paragraph_text_upto(nodes_view(nodes@), p as int, nodes@.len() as int),
{
    let ghost ns = nodes_view(nodes@);
    let n = nodes.len();
    let mut out: Vec<char> = Vec::new();
    for j in 0..n
        invariant
            n == nodes.len(),
            ns == nodes_view(nodes@),
            out@ == paragraph_text_upto(ns, p as int, j as int),
    {
        if within_node(nodes, j, p) {
            if node_is_named(nodes, j, "t") {
                assert(ns[j as int].text == optional_text(nodes@[j as int].text));
                match &nodes[j].text {
                    Some(t) => push_chars(&mut out, t.as_str()),
                    None => {},
                }
            } else if node_is_named(nodes, j, "br") {
                out.push('\n');
            }
        }
        assert(out@ =~= paragraph_text_upto(ns, p as int, j + 1));
    }
    out
}

fn join_lines(lines: &Vec<Vec<char>>) -> (r: Vec<char>)
    ensures
        r@ == joined_lines(crate::text::char_vecs(lines@)),
{
    let ghost ls = crate::text::char_vecs(lines@);
    let n = lines.len();
    let mut r: Vec<char> = Vec::new();
    for i in 0..n
        invariant
            n == lines.len(),
            ls == crate::text::char_vecs(lines@),
            r@ == joined_lines(ls.take(i as int)),
    {
        let ghost before = r@;
        if i > 0 {
            r.push('\n');
        }
        let w = &lines[i];
        let m = w.len();
        for k in 0..m
            invariant
                m == w.len(),
                r@ == before + (if i > 0 { seq!['\n'] } else { Seq::<char>::empty() }) + w@.take(
                    k as int,
                ),
        {
            r.push(w[k]);
            assert(w@.take(k + 1) =~= w@.take(k as int).push(w[k as int]));
        }
        proof {
            assert(w@.take(m as int) =~= w@);
            let t = ls.take(i + 1);
            assert(t.drop_last() =~= ls.take(i as int));
            assert(t.last() == w@);
            assert(r@ =~= joined_lines(t));
        }
    }
    assert(ls.take(n as int) =~= ls);
    r
}

/// The notes text of a parsed notes slide, given its nodes in document
/// order.
pub fn note_text_of_nodes(nodes: &Vec<XmlNode>) -> (r: String)
    ensures
        r@ == nodes_note_text(nodes_view(nodes@)),
{
    let ghost ns = nodes_view(nodes@);
    let n = nodes.len();
    let mut paragraphs: Vec<Vec<char>> = Vec::new();
    for i in 0..n
        invariant
            n == nodes.len(),
            ns == nodes_view(nodes@),
            crate::text::char_vecs(paragraphs@) == paragraphs_upto(ns, i as int),
    {
        let ghost before = crate::text::char_vecs(paragraphs@);
        if node_is_named(nodes, i, "p") && !should_skip_shape(nodes, i) {
            let text = paragraph_text(nodes, i);
            paragraphs.push(text);
            assert(crate::text::char_vecs(paragraphs@) =~= before.push(
                paragraph_text_upto(ns, i as int, n as int),
            ));
        }
    }
    let joined = join_lines(&paragraphs);
    string_from_chars(joined.as_slice())
}

/// The notes text of one notes slide, as `note_text` describes it.
pub fn parse_note_xml(xml: &str) -> (r: String)
    ensures
        r@ == note_text(xml@),
{
    match parse_xml_nodes(xml) {
        Some(nodes) => note_text_of_nodes(&nodes),
        None => String::new(),
    }
}

/// The page a notes slide gives: its trimmed notes text.
pub open spec fn note_page(xml: Seq<char>) -> Seq<char> {
    trim(note_text(xml))
}

/// A notes text is kept as a page unless it is empty or just a number.
pub open spec fn keeps_page(page: Seq<char>) -> bool {
    page.len() > 0 && !parses_as_i64(page)
}

fn note_page_of(xml: &str) -> (r: String)
    ensures
        r@ == note_page(xml@),
{
    let text = parse_note_xml(xml);
    String::from_str(trim_text(text.as_str()))
}

/// Whether a notes text becomes a page.
pub fn keep_note_page(page: &str) -> (r: bool)
    ensures
        r == keeps_page(page@),
{
    crate::text::char_count(page) > 0 && !is_i64_text(page)
}

// ---------------------------------------------------------------------------
// Reading the archive
// ---------------------------------------------------------------------------

/// The number of entries of a zip archive, as `zip::ZipArchive::new` and
/// `ZipArchive::len` give it, or the message of the error of opening it.
pub uninterp spec fn zip_entry_count(bytes: Seq<u8>) -> Result<usize, Seq<char>>;

/// The name of the entry at `index` of a zip archive, as
/// `zip::ZipArchive::new`, `by_index` and `ZipFile::name` give it, or the
/// message of the error.
pub uninterp spec fn zip_entry_name(bytes: Seq<u8>, index: usize) -> Result<Seq<char>, Seq<char>>;

/// The names of the first `k` entries, or the error of the first entry
/// that cannot be read.
pub open spec fn zip_entry_names_upto(bytes: Seq<u8>, k: nat) -> Result<Seq<Seq<char>>, Seq<char>>
    decreases k,
{
    if k == 0 {
        Ok(Seq::empty())
    } else {
        match zip_entry_names_upto(bytes, (k - 1) as nat) {
            Err(e) => Err(e),
            Ok(names) => match zip_entry_name(bytes, (k - 1) as usize) {
                Err(e) => Err(e),
                Ok(name) => Ok(names.push(name)),
            },
        }
    }
}

/// The names of all entries of a zip archive, by index, or the message of
/// the first error.
pub open spec fn zip_entry_names(bytes: Seq<u8>) -> Result<Seq<Seq<char>>, Seq<char>> {
    match zip_entry_count(bytes) {
        Err(e) => Err(e),
        Ok(n) => zip_entry_names_upto(bytes, n as nat),
    }
}

/// Opens the archive with `zip::ZipArchive::new` and counts its entries
/// with `len`; the error becomes its display text. The result is named
/// `zip_entry_count`.
#[verifier::external_body]
fn read_zip_entry_count(bytes: &[u8]) -> (r: Result<usize, String>)
    ensures
        match r {
            Ok(n) => zip_entry_count(bytes@) == Ok::<usize, Seq<char>>(n),
            Err(e) => zip_entry_count(bytes@) == Err::<usize, Seq<char>>(e@),
        },
{
    let archive = zip::ZipArchive::new(std::io::Cursor::new(bytes)).map_err(|e| e.to_string())?;
    Ok(archive.len())
}

/// Opens the archive with `zip::ZipArchive::new` and reads the name of
/// the entry at `index` with `by_index` and `ZipFile::name`; errors become
/// their display text. The result is named `zip_entry_name`.
#[verifier::external_body]
fn read_zip_entry_name(bytes: &[u8], index: usize) -> (r: Result<String, String>)
    ensures
        match r {
            Ok(t) => zip_entry_name(bytes@, index) == Ok::<Seq<char>, Seq<char>>(t@),
            Err(e) => zip_entry_name(bytes@, index) == Err::<Seq<char>, Seq<char>>(e@),
        },
{
    let mut archive = zip::ZipArchive::new(std::io::Cursor::new(bytes)).map_err(|e| e.to_string())?;
    let entry = archive.by_index(index).map_err(|e| e.to_string())?;
    Ok(entry.name().to_string())
}

/// An error among the first `k` entries is the error of the first `m`,
/// for every `m` from `k` on.
proof fn lemma_entry_names_err(bytes: Seq<u8>, k: nat, m: nat)
    requires
        k <= m,
        zip_entry_names_upto(bytes, k) is Err,
    ensures
        zip_entry_names_upto(bytes, m) == zip_entry_names_upto(bytes, k),
    decreases m - k,
{
    if k < m {
        lemma_entry_names_err(bytes, k, (m - 1) as nat);
    }
}

/// Lists the entry names of a zip archive, in index order.
fn read_zip_entry_names(bytes: &[u8]) -> (r: Result<Vec<String>, String>)
    ensures
        match r {
            Ok(v) => zip_entry_names(bytes@) == Ok::<Seq<Seq<char>>, Seq<char>>(string_seqs(v@)),
            Err(e) => zip_entry_names(bytes@) == Err::<Seq<Seq<char>>, Seq<char>>(e@),
        },
{
    let n = read_zip_entry_count(bytes)?;
    let mut names: Vec<String> = Vec::new();
    proof {
        assert(string_seqs(names@) =~= Seq::<Seq<char>>::empty());
    }
    for i in 0..n
        invariant
            zip_entry_count(bytes@) == Ok::<usize, Seq<char>>(n),
            names@.len() == i,
            zip_entry_names_upto(bytes@, i as nat) == Ok::<Seq<Seq<char>>, Seq<char>>(
                string_seqs(names@),
            ),
    {
        match read_zip_entry_name(bytes, i) {
            Ok(name) => {
                let ghost before = names@;
                let ghost text = name@;
                names.push(name);
                assert(string_seqs(names@) =~= string_seqs(before).push(text));
                assert(zip_entry_names_upto(bytes@, (i + 1) as nat) == Ok::<
                    Seq<Seq<char>>,
                    Seq<char>,
                >(string_seqs(before).push(text)));
            },
            Err(e) => {
                proof {
                    lemma_entry_names_err(bytes@, (i + 1) as nat, n as nat);
                }
                return Err(e);
            },
        }
    }
    Ok(names)
}

/// The text of the named entry of a zip archive, as
/// `ZipArchive::by_name` and `Read::read_to_string` give it, or the message
/// of the error.
pub uninterp spec fn zip_entry_text(bytes: Seq<u8>, name: Seq<char>) -> Result<Seq<char>, Seq<char>>;

/// Opens the archive with `zip::ZipArchive::new`, finds the entry with
/// `by_name` and reads it with `read_to_string`; errors become their
/// display text. The result is named `zip_entry_text`.
#[verifier::external_body]
fn read_zip_entry_text(bytes: &[u8], name: &str) -> (r: Result<String, String>)
    ensures
        match r {
            Ok(t) => zip_entry_text(bytes@, name@) == Ok::<Seq<char>, Seq<char>>(t@),
            Err(e) => zip_entry_text(bytes@, name@) == Err::<Seq<char>, Seq<char>>(e@),
        },
{
    let mut archive = zip::ZipArchive::new(std::io::Cursor::new(bytes)).map_err(|e| e.to_string())?;
    let mut entry = archive.by_name(name).map_err(|e| e.to_string())?;
    let mut text = String::new();
    entry.read_to_string(&mut text).map_err(|e| e.to_string())?;
    Ok(text)
}

/// The pages the note entries give, in order, or the error of the first
/// entry that cannot be read.
pub open spec fn read_note_pages(bytes: Seq<u8>, files: Seq<Seq<char>>) -> Result<
    Seq<Seq<char>>,
    Seq<char>,
>
    decreases files.len(),
{
    if files.len() == 0 {
        Ok(Seq::empty())
    } else {
        match read_note_pages(bytes, files.drop_last()) {
            Err(e) => Err(e),
            Ok(pages) => match zip_entry_text(bytes, files.last()) {
                Err(e) => Err(e),
                Ok(xml) => Ok(
                    if keeps_page(note_page(xml)) {
                        pages.push(note_page(xml))
                    } else {
                        pages
                    },
                ),
            },
        }
    }
}

/// What taking the notes of a file gives.
pub enum NotesOutcome {
    Pages(Seq<Seq<char>>),
    Unsupported,
    Failed(Seq<char>),
    NoNotes,
}

/// The outcome that a result stands for.
pub open spec fn notes_result(r: Result<Vec<String>, PptxError>) -> NotesOutcome {
    match r {
        Ok(pages) => NotesOutcome::Pages(string_seqs(pages@)),
        Err(PptxError::UnsupportedFormat) => NotesOutcome::Unsupported,
        Err(PptxError::ExtractionFailed(e)) => NotesOutcome::Failed(e@),
        Err(PptxError::NoNotesFound) => NotesOutcome::NoNotes,
    }
}

/// The notes of a presentation archive: one page per notes slide that has
/// text other than a bare number, in slide order.
pub open spec fn archive_notes(bytes: Seq<u8>) -> NotesOutcome {
    match zip_entry_names(bytes) {
        Err(e) => NotesOutcome::Failed(e),
        Ok(names) => {
            let files = note_files(names);
            if files.len() == 0 {
                NotesOutcome::NoNotes
            } else {
                match read_note_pages(bytes, files) {
                    Err(e) => NotesOutcome::Failed(e),
                    Ok(pages) => if pages.len() == 0 {
                        NotesOutcome::NoNotes
                    } else {
                        NotesOutcome::Pages(pages)
                    },
                }
            }
        },
    }
}

/// A page as notes give it: not empty, not a bare number, and without white
/// space at either end.
pub open spec fn proper_note_page(page: Seq<char>) -> bool {
    &&& page.len() > 0
    &&& !parses_as_i64(page)
    &&& !crate::text::is_white_space(page[0])
    &&& !crate::text::is_white_space(page.last())
}

proof fn lemma_read_note_pages_proper(bytes: Seq<u8>, files: Seq<Seq<char>>)
    ensures
        read_note_pages(bytes, files) matches Ok(pages) ==> forall|i: int|
            0 <= i < pages.len() ==> proper_note_page(#[trigger] pages[i]),
    decreases files.len(),
{
    if files.len() > 0 {
        lemma_read_note_pages_proper(bytes, files.drop_last());
        if let Ok(xml) = zip_entry_text(bytes, files.last()) {
            crate::text::law_trim_ends(note_text(xml));
        }
    }
}

/// Every page taken from a presentation is not empty, not a bare number,
/// and has no white space at either end.
pub proof fn law_note_pages_are_proper(bytes: Seq<u8>)
    ensures
        archive_notes(bytes) matches NotesOutcome::Pages(pages) ==> pages.len() > 0 && forall|i: int|
            0 <= i < pages.len() ==> proper_note_page(#[trigger] pages[i]),
{
    if let Ok(names) = zip_entry_names(bytes) {
        lemma_read_note_pages_proper(bytes, note_files(names));
    }
}

/// Takes the presenter notes out of the bytes of a presentation.
pub fn extract_notes_from_archive(bytes: &[u8]) -> (r: Result<Vec<String>, PptxError>)
    ensures
        notes_result(r) == archive_notes(bytes@),
{
    let names = match read_zip_entry_names(bytes) {
        Ok(v) => v,
        Err(e) => {
            return Err(PptxError::ExtractionFailed(e));
        },
    };
    let files = select_note_files(&names);
    if files.len() == 0 {
        return Err(PptxError::NoNotesFound);
    }
    let ghost fs = string_seqs(files@);
    let n = files.len();
    let mut pages: Vec<String> = Vec::new();
    proof {
        assert(fs.take(0) =~= Seq::<Seq<char>>::empty());
        assert(string_seqs(pages@) =~= Seq::<Seq<char>>::empty());
    }
    for i in 0..n
        invariant
            n == files.len(),
            n > 0,
            fs == string_seqs(files@),
            zip_entry_names(bytes@) == Ok::<Seq<Seq<char>>, Seq<char>>(string_seqs(names@)),
            fs == note_files(string_seqs(names@)),
            read_note_pages(bytes@, fs.take(i as int)) == Ok::<Seq<Seq<char>>, Seq<char>>(
                string_seqs(pages@),
            ),
    {
        proof {
            assert(fs.take(i + 1).drop_last() =~= fs.take(i as int));
            assert(fs.take(i + 1).last() == files@[i as int]@);
        }
        let xml = match read_zip_entry_text(bytes, files[i].as_str()) {
            Ok(t) => t,
            Err(e) => {
                proof {
                    lemma_read_note_pages_err(bytes@, fs, i as int + 1);
                }
                return Err(PptxError::ExtractionFailed(e));
            },
        };
        let page = note_page_of(xml.as_str());
        if keep_note_page(page.as_str()) {
            let ghost before = pages@;
            pages.push(page);
            assert(string_seqs(pages@) =~= string_seqs(before).push(note_page(xml@)));
        }
    }
    assert(fs.take(n as int) =~= fs);
    if pages.len() == 0 {
        Err(PptxError::NoNotesFound)
    } else {
        Ok(pages)
    }
}

/// An error while reading the entries up to `k` is the error of the whole.
proof fn lemma_read_note_pages_err(bytes: Seq<u8>, files: Seq<Seq<char>>, k: int)
    requires
        0 <= k <= files.len(),
        read_note_pages(bytes, files.take(k)) is Err,
    ensures
        read_note_pages(bytes, files) == read_note_pages(bytes, files.take(k)),
    decreases files.len() - k,
{
    if k < files.len() {
        let t = files.take(k + 1);
        assert(t.drop_last() =~= files.take(k));
        lemma_read_note_pages_err(bytes, files, k + 1);
    } else {
        assert(files.take(k) =~= files);
    }
}

/// The extension of a presentation, in any ASCII case.
pub open spec fn is_pptx_extension(ext: Option<Seq<char>>) -> bool {
    ext matches Some(e) && ascii_lowercase(e) == "pptx"@
}

/// Takes the notes of a file, given the extension of its path and its
/// contents (or the message of the error of reading it): files that are
/// not presentations are refused before their contents are looked at.
pub fn extract_notes_with_extension(ext: Option<String>, file: Result<Vec<u8>, String>) -> (r:
    Result<Vec<String>, PptxError>)
    ensures
        !is_pptx_extension(optional_view(ext)) ==> notes_result(r) == NotesOutcome::Unsupported,
        is_pptx_extension(optional_view(ext)) ==> notes_result(r) == match file {
            Err(e) => NotesOutcome::Failed(e@),
            Ok(bytes) => archive_notes(bytes@),
        },
{
    let is_pptx = match &ext {
        Some(e) => {
            let lower = crate::documents::to_ascii_lowercase(e.as_str());
            same_text(lower.as_str(), "pptx")
        },
        None => false,
    };
    if !is_pptx {
        return Err(PptxError::UnsupportedFormat);
    }
    match file {
        Err(e) => Err(PptxError::ExtractionFailed(e)),
        Ok(bytes) => extract_notes_from_archive(bytes.as_slice()),
    }
}

/// Takes the notes of the file at `path`, given its contents. The
/// extension comes from `path_extension`, whose result depends on the
/// platform: the result is either the refusal of an unsupported format or
/// what the contents give; a path without a dot, or with a plain extension
/// other than `pptx`, is refused whatever the contents, and a path with a
/// plain `pptx` extension (in any ASCII case) gives what the contents give.
pub fn extract_notes(path: &str, file: Result<Vec<u8>, String>) -> (r: Result<Vec<String>, PptxError>)
    ensures
        notes_result(r) == NotesOutcome::Unsupported || notes_result(r) == match file {
            Err(e) => NotesOutcome::Failed(e@),
            Ok(bytes) => archive_notes(bytes@),
        },
        !path@.contains('.') ==> notes_result(r) == NotesOutcome::Unsupported,
        forall|e: Seq<char>|
            #[trigger] plain_extension(path@, e) && ascii_lowercase(e) != "pptx"@ ==> notes_result(r)
                == NotesOutcome::Unsupported,
        forall|e: Seq<char>|
            #[trigger] plain_extension(path@, e) && ascii_lowercase(e) == "pptx"@ ==> notes_result(r)
                == match file {
                Err(x) => NotesOutcome::Failed(x@),
                Ok(bytes) => archive_notes(bytes@),
            },
{
    let ext = path_extension(path);
    extract_notes_with_extension(ext, file)
}

/// Reading one more notes entry adds its trimmed notes text as a page,
/// unless that text is empty or is an integer (such as a bare slide
/// number); any other text, even one that starts with digits, is kept.
pub proof fn law_note_kept_unless_empty_or_integer(
    bytes: Seq<u8>,
    files: Seq<Seq<char>>,
    f: Seq<char>,
)
    requires
        read_note_pages(bytes, files) is Ok,
        zip_entry_text(bytes, f) is Ok,
    ensures
        ({
            let pages = read_note_pages(bytes, files)->Ok_0;
            let text = trim(note_text(zip_entry_text(bytes, f)->Ok_0));
            read_note_pages(bytes, files.push(f)) == Ok::<Seq<Seq<char>>, Seq<char>>(
                if text.len() > 0 && !parses_as_i64(text) {
                    pages.push(text)
                } else {
                    pages
                },
            )
        }),
{
    assert(files.push(f).drop_last() =~= files);
    assert(files.push(f).last() == f);
}

} // verus!

use vstd::prelude::*;

use crate::documents::ascii_lower;
use crate::models::WordItem;

verus! {

// ---------------------------------------------------------------------------
// Character classes
// ---------------------------------------------------------------------------

/// Code points that are read one character at a time: CJK ideographs,
/// kana and hangul syllables.
pub open spec fn is_cjk_char(c: char) -> bool {
    let u = c as u32;
    ||| 0x4E00 <= u <= 0x9FFF
    ||| 0x3400 <= u <= 0x4DBF
    ||| 0x20000 <= u <= 0x2A6DF
    ||| 0x2A700 <= u <= 0x2B73F
    ||| 0x2B740 <= u <= 0x2B81F
    ||| 0x2B820 <= u <= 0x2CEAF
    ||| 0xF900 <= u <= 0xFAFF
    ||| 0x2F800 <= u <= 0x2FA1F
    ||| 0x3040 <= u <= 0x309F
    ||| 0x30A0 <= u <= 0x30FF
    ||| 0xAC00 <= u <= 0xD7AF
}

pub fn is_cjk(ch: char) -> (r: bool)
    ensures
        r == is_cjk_char(ch),
{
    let u = ch as u32;
    (0x4E00 <= u && u <= 0x9FFF) || (0x3400 <= u && u <= 0x4DBF) || (0x20000 <= u && u <= 0x2A6DF)
        || (0x2A700 <= u && u <= 0x2B73F) || (0x2B740 <= u && u <= 0x2B81F) || (0x2B820 <= u && u
        <= 0x2CEAF) || (0xF900 <= u && u <= 0xFAFF) || (0x2F800 <= u && u <= 0x2FA1F) || (0x3040
        <= u && u <= 0x309F) || (0x30A0 <= u && u <= 0x30FF) || (0xAC00 <= u && u <= 0xD7AF)
}

/// The Unicode `White_Space` property: the characters on which text is
/// split into tokens and which trimming removes.
pub open spec fn is_white_space(c: char) -> bool {
    let u = c as u32;
    ||| 0x9 <= u <= 0xD
    ||| u == 0x20
    ||| u == 0x85
    ||| u == 0xA0
    ||| u == 0x1680
    ||| 0x2000 <= u <= 0x200A
    ||| u == 0x2028
    ||| u == 0x2029
    ||| u == 0x202F
    ||| u == 0x205F
    ||| u == 0x3000
}

pub fn is_whitespace_char(c: char) -> (r: bool)
    ensures
        r == is_white_space(c),
{
    let u = c as u32;
    (0x9 <= u && u <= 0xD) || u == 0x20 || u == 0x85 || u == 0xA0 || u == 0x1680 || (0x2000 <= u
        && u <= 0x200A) || u == 0x2028 || u == 0x2029 || u == 0x202F || u == 0x205F || u == 0x3000
}

/// Whether a character is alphabetic or numeric in the sense of Unicode,
/// as `char::is_alphanumeric` decides it.
pub uninterp spec fn alphanumeric(c: char) -> bool;

/// An ASCII letter or digit.
pub open spec fn is_ascii_alnum(c: char) -> bool {
    let u = c as u32;
    ||| 0x30 <= u <= 0x39
    ||| 0x41 <= u <= 0x5A
    ||| 0x61 <= u <= 0x7A
}

/// A character of the ASCII range.
pub open spec fn is_ascii_char(c: char) -> bool {
    (c as u32) < 0x80
}

/// Calls `char::is_alphanumeric`; its result is named `alphanumeric`.
/// std documents it as the Unicode `Alphabetic` property or a numeric
/// general category; in the ASCII range those are exactly the letters and
/// the digits.
#[verifier::external_body]
fn char_is_alphanumeric(c: char) -> (r: bool)
    ensures
        r == alphanumeric(c),
        is_ascii_char(c) ==> r == is_ascii_alnum(c),
{
    c.is_alphanumeric()
}

/// The characters of the Unicode lowercase mapping of a character, as
/// `char::to_lowercase` yields them.
pub uninterp spec fn lowercase(c: char) -> Seq<char>;

/// Calls `char::to_lowercase` and collects what it yields; the result is
/// named `lowercase`. std documents it as the Unicode lowercase mapping,
/// and a character without one as yielding itself; in the ASCII range the
/// mapping takes the upper-case letters to the lower-case ones.
#[verifier::external_body]
fn char_to_lowercase(c: char) -> (r: Vec<char>)
    ensures
        r@ == lowercase(c),
        is_ascii_char(c) ==> r@ == seq![ascii_lower(c)],
{
    c.to_lowercase().collect()
}

/// Appends a character with `String::push`, which adds exactly that
/// character at the end.
#[verifier::external_body]
fn push_char(s: &mut String, c: char)
    ensures
        final(s)@ == old(s)@.push(c),
{
    s.push(c);
}

/// A `String` that holds exactly these characters, in order.
pub(crate) fn string_from_chars(v: &[char]) -> (s: String)
    ensures
        s@ == v@,
{
    let mut s = String::new();
    let n = v.len();
    for i in 0..n
        invariant
            n == v@.len(),
            s@ == v@.take(i as int),
    {
        push_char(&mut s, v[i]);
        assert(v@.take(i + 1) =~= v@.take(i as int).push(v@[i as int]));
    }
    assert(v@.take(n as int) =~= v@);
    s
}

pub fn chars_of(s: &str) -> (v: Vec<char>)
    ensures
        v@ == s@,
{
    let mut v: Vec<char> = Vec::new();
    for c in it: s.chars()
        invariant
            v@ == it.seq().take(it.index() as int),
            it.seq() == s@,
    {
        v.push(c);
    }
    v
}

/// Two strings hold the same characters.
pub fn same_text(a: &str, b: &str) -> (r: bool)
    ensures
        r == (a@ == b@),
{
    let x = chars_of(a);
    let y = chars_of(b);
    if x.len() != y.len() {
        return false;
    }
    let n = x.len();
    for i in 0..n
        invariant
            n == x@.len(),
            n == y@.len(),
            x@ == a@,
            y@ == b@,
            forall|k: int| 0 <= k < i ==> x@[k] == y@[k],
    {
        if x[i] != y[i] {
            return false;
        }
    }
    assert(x@ =~= y@);
    true
}

/// `p` is a prefix of `s`.
pub open spec fn has_prefix(s: Seq<char>, p: Seq<char>) -> bool {
    p.len() <= s.len() && s.subrange(0, p.len() as int) == p
}

/// `p` is a suffix of `s`.
pub open spec fn has_suffix(s: Seq<char>, p: Seq<char>) -> bool {
    p.len() <= s.len() && s.subrange(s.len() - p.len(), s.len() as int) == p
}

pub fn starts_with_text(s: &str, p: &str) -> (r: bool)
    ensures
        r == has_prefix(s@, p@),
{
    let x = chars_of(s);
    let y = chars_of(p);
    if y.len() > x.len() {
        return false;
    }
    let m = y.len();
    for i in 0..m
        invariant
            m == y@.len(),
            m <= x@.len(),
            x@ == s@,
            y@ == p@,
            forall|k: int| 0 <= k < i ==> x@[k] == y@[k],
    {
        if x[i] != y[i] {
            assert(s@.subrange(0, m as int)[i as int] == x@[i as int]);
            return false;
        }
    }
    assert(s@.subrange(0, m as int) =~= p@);
    true
}

pub fn ends_with_text(s: &str, p: &str) -> (r: bool)
    ensures
        r == has_suffix(s@, p@),
{
    let x = chars_of(s);
    let y = chars_of(p);
    if y.len() > x.len() {
        return false;
    }
    let m = y.len();
    let off = x.len() - m;
    for i in 0..m
        invariant
            m == y@.len(),
            off + m == x.len(),
            x@ == s@,
            y@ == p@,
            forall|k: int| 0 <= k < i ==> x@[off + k] == y@[k],
    {
        if x[off + i] != y[i] {
            assert(s@.subrange(off as int, s@.len() as int)[i as int] == x@[off + i]);
            return false;
        }
    }
    assert(s@.subrange(off as int, s@.len() as int) =~= p@);
    true
}

/// Number of characters (not bytes) of a string.
pub fn char_count(s: &str) -> (n: usize)
    ensures
        n == s@.len(),
{
    s.unicode_len()
}

// ---------------------------------------------------------------------------
// Tokenising
// ---------------------------------------------------------------------------

/// Appends the pending token, if it is not empty.
pub open spec fn flush(done: Seq<Seq<char>>, buf: Seq<char>) -> Seq<Seq<char>> {
    if buf.len() == 0 {
        done
    } else {
        done.push(buf)
    }
}

/// One step of the left-to-right scan: white space ends the pending token;
/// with `split_cjk`, a CJK character ends it and forms a token of its own;
/// any other character extends it.
pub open spec fn scan_step(
    st: (Seq<Seq<char>>, Seq<char>),
    c: char,
    split_cjk: bool,
) -> (Seq<Seq<char>>, Seq<char>) {
    if is_white_space(c) {
        (flush(st.0, st.1), Seq::empty())
    } else if split_cjk && is_cjk_char(c) {
        (flush(st.0, st.1).push(seq![c]), Seq::empty())
    } else {
        (st.0, st.1.push(c))
    }
}

/// State of the scan after all characters of `s`: finished tokens and the
/// pending one.
pub open spec fn scan(s: Seq<char>, split_cjk: bool) -> (Seq<Seq<char>>, Seq<char>)
    decreases s.len(),
{
    if s.len() == 0 {
        (Seq::empty(), Seq::empty())
    } else {
        scan_step(scan(s.drop_last(), split_cjk), s.last(), split_cjk)
    }
}

pub open spec fn tokens(s: Seq<char>, split_cjk: bool) -> Seq<Seq<char>> {
    flush(scan(s, split_cjk).0, scan(s, split_cjk).1)
}

/// The words of a text: maximal runs of non-white-space characters, where
/// every CJK character is a word by itself.
pub open spec fn split_words(s: Seq<char>) -> Seq<Seq<char>> {
    tokens(s, true)
}

/// The maximal runs of non-white-space characters of a text.
pub open spec fn whitespace_split(s: Seq<char>) -> Seq<Seq<char>> {
    tokens(s, false)
}

/// The contents of a vector of character vectors.
pub open spec fn char_vecs(v: Seq<Vec<char>>) -> Seq<Seq<char>> {
    v.map_values(|w: Vec<char>| w@)
}

fn tokenize(text: &Vec<char>, split_cjk: bool) -> (r: Vec<Vec<char>>)
    ensures
        char_vecs(r@) == tokens(text@, split_cjk),
{
    let mut done: Vec<Vec<char>> = Vec::new();
    let mut buf: Vec<char> = Vec::new();
    let n = text.len();
    for i in 0..n
        invariant
            n == text.len(),
            (char_vecs(done@), buf@) == scan(text@.take(i as int), split_cjk),
    {
        let c = text[i];
        let ghost before = (char_vecs(done@), buf@);
        proof {
            assert(text@.take(i + 1).drop_last() =~= text@.take(i as int));
            assert(text@.take(i + 1).last() == c);
        }
        if is_whitespace_char(c) {
            if buf.len() > 0 {
                done.push(buf);
                buf = Vec::new();
            }
        } else if split_cjk && is_cjk(c) {
            if buf.len() > 0 {
                done.push(buf);
                buf = Vec::new();
            }
            let mut single: Vec<char> = Vec::new();
            single.push(c);
            done.push(single);
        } else {
            buf.push(c);
        }
        proof {
            let after = scan_step(before, c, split_cjk);
            assert(char_vecs(done@) =~= after.0);
            assert(buf@ =~= after.1);
        }
    }
    proof {
        assert(text@.take(n as int) =~= text@);
    }
    let ghost before = (char_vecs(done@), buf@);
    if buf.len() > 0 {
        done.push(buf);
    }
    proof {
        assert(char_vecs(done@) =~= flush(before.0, before.1));
    }
    done
}

/// The contents of a vector of strings.
pub open spec fn string_seqs(v: Seq<String>) -> Seq<Seq<char>> {
    v.map_values(|s: String| s@)
}

fn strings_from_tokens(toks: &Vec<Vec<char>>) -> (r: Vec<String>)
    ensures
        string_seqs(r@) == char_vecs(toks@),
{
    let mut r: Vec<String> = Vec::new();
    let n = toks.len();
    for i in 0..n
        invariant
            n == toks.len(),
            string_seqs(r@) =~= char_vecs(toks@).take(i as int),
    {
        let s = string_from_chars(toks[i].as_slice());
        assert(s@ == char_vecs(toks@)[i as int]);
        let ghost prev = r@;
        r.push(s);
        assert(r@ =~= prev.push(s));
        assert(string_seqs(r@) =~= string_seqs(prev).push(s@));
        assert(char_vecs(toks@).take(i + 1) =~= char_vecs(toks@).take(i as int).push(char_vecs(toks@)[i as int]));
    }
    proof {
        assert(char_vecs(toks@).take(n as int) =~= char_vecs(toks@));
    }
    r
}

pub fn split_text_into_words(text: &str) -> (words: Vec<String>)
    ensures
        string_seqs(words@) == split_words(text@),
{
    let chars = chars_of(text);
    let toks = tokenize(&chars, true);
    strings_from_tokens(&toks)
}

// ---------------------------------------------------------------------------
// Trimming
// ---------------------------------------------------------------------------

/// Number of white-space characters at the start of `s`.
pub open spec fn leading_ws(s: Seq<char>) -> nat
    decreases s.len(),
{
    if s.len() > 0 && is_white_space(s[0]) {
        1 + leading_ws(s.drop_first())
    } else {
        0
    }
}

/// Number of white-space characters at the end of `s`.
pub open spec fn trailing_ws(s: Seq<char>) -> nat
    decreases s.len(),
{
    if s.len() > 0 && is_white_space(s.last()) {
        1 + trailing_ws(s.drop_last())
    } else {
        0
    }
}

/// `s` without leading and trailing white space.
pub open spec fn trim(s: Seq<char>) -> Seq<char> {
    if leading_ws(s) >= s.len() {
        Seq::empty()
    } else {
        s.subrange(leading_ws(s) as int, s.len() - trailing_ws(s))
    }
}

/// A text that holds nothing but white space (or nothing at all).
pub open spec fn is_blank(s: Seq<char>) -> bool {
    forall|i: int| 0 <= i < s.len() ==> is_white_space(#[trigger] s[i])
}

pub proof fn lemma_leading_ws(s: Seq<char>, i: int)
    requires
        0 <= i <= s.len(),
        forall|k: int| 0 <= k < i ==> is_white_space(#[trigger] s[k]),
        i == s.len() || !is_white_space(s[i]),
    ensures
        leading_ws(s) == i,
    decreases i,
{
    if i > 0 {
        let t = s.drop_first();
        assert forall|k: int| 0 <= k < i - 1 implies is_white_space(#[trigger] t[k]) by {
            assert(t[k] == s[k + 1]);
        }
        if i < s.len() {
            assert(t[i - 1] == s[i]);
        }
        lemma_leading_ws(t, i - 1);
        assert(is_white_space(s[0]));
    }
}

pub proof fn lemma_trailing_ws(s: Seq<char>, j: int)
    requires
        0 <= j <= s.len(),
        forall|k: int| j <= k < s.len() ==> is_white_space(#[trigger] s[k]),
        j == 0 || !is_white_space(s[j - 1]),
    ensures
        trailing_ws(s) == s.len() - j,
    decreases s.len() - j,
{
    if j < s.len() {
        let t = s.drop_last();
        assert forall|k: int| j <= k < t.len() implies is_white_space(#[trigger] t[k]) by {
            assert(t[k] == s[k]);
        }
        if j > 0 {
            assert(t[j - 1] == s[j - 1]);
        }
        lemma_trailing_ws(t, j);
        assert(is_white_space(s.last()));
    }
}

/// Trimming leaves nothing exactly when the text is blank.
pub proof fn law_trim_empty_iff_blank(s: Seq<char>)
    ensures
        trim(s).len() == 0 <==> is_blank(s),
{
    let n = s.len() as int;
    if is_blank(s) {
        lemma_leading_ws(s, n);
    } else {
        let i = choose|i: int| 0 <= i < n && !is_white_space(s[i]);
        lemma_first_non_ws(s, i);
    }
}

/// When some character is not white space, the leading white space stops
/// before it and trimming keeps something.
pub proof fn lemma_first_non_ws(s: Seq<char>, i: int)
    requires
        0 <= i < s.len(),
        !is_white_space(s[i]),
    ensures
        leading_ws(s) <= i,
        s.len() - trailing_ws(s) > i,
        trim(s).len() > 0,
    decreases i,
{
    if i > 0 && is_white_space(s[0]) {
        let t = s.drop_first();
        assert(t[i - 1] == s[i]);
        lemma_first_non_ws(t, i - 1);
    }
    lemma_last_non_ws(s, i);
}

proof fn lemma_last_non_ws(s: Seq<char>, i: int)
    requires
        0 <= i < s.len(),
        !is_white_space(s[i]),
    ensures
        s.len() - trailing_ws(s) > i,
    decreases s.len(),
{
    if i < s.len() - 1 && is_white_space(s.last()) {
        let t = s.drop_last();
        assert(t[i] == s[i]);
        lemma_last_non_ws(t, i);
    }
}

proof fn lemma_leading_stop(s: Seq<char>)
    ensures
        leading_ws(s) <= s.len(),
        leading_ws(s) < s.len() ==> !is_white_space(s[leading_ws(s) as int]),
    decreases s.len(),
{
    if s.len() > 0 && is_white_space(s[0]) {
        let t = s.drop_first();
        lemma_leading_stop(t);
        if leading_ws(t) < t.len() {
            assert(t[leading_ws(t) as int] == s[leading_ws(s) as int]);
        }
    }
}

proof fn lemma_trailing_stop(s: Seq<char>)
    ensures
        trailing_ws(s) <= s.len(),
        trailing_ws(s) < s.len() ==> !is_white_space(s[s.len() - 1 - trailing_ws(s)]),
    decreases s.len(),
{
    if s.len() > 0 && is_white_space(s.last()) {
        let t = s.drop_last();
        lemma_trailing_stop(t);
        if trailing_ws(t) < t.len() {
            assert(t[t.len() - 1 - trailing_ws(t)] == s[s.len() - 1 - trailing_ws(s)]);
        }
    }
}

/// Trimmed text that is not empty starts and ends with a character that is
/// not white space.
pub proof fn law_trim_ends(s: Seq<char>)
    ensures
        trim(s).len() > 0 ==> !is_white_space(trim(s)[0]) && !is_white_space(trim(s).last()),
{
    lemma_leading_stop(s);
    lemma_trailing_stop(s);
    if leading_ws(s) < s.len() {
        lemma_first_non_ws(s, leading_ws(s) as int);
        let t = trim(s);
        assert(t[0] == s[leading_ws(s) as int]);
        assert(t.last() == s[s.len() - 1 - trailing_ws(s)]);
    }
}

pub fn trim_text(s: &str) -> (r: &str)
    ensures
        r@ == trim(s@),
{
    let chars = chars_of(s);
    let n = chars.len();
    let mut i: usize = 0;
    while i < n && is_whitespace_char(chars[i])
        invariant
            n == chars@.len(),
            chars@ == s@,
            i <= n,
            forall|k: int| 0 <= k < i ==> is_white_space(#[trigger] s@[k]),
        decreases n - i,
    {
        i = i + 1;
    }
    proof {
        lemma_leading_ws(s@, i as int);
    }
    if i == n {
        return s.substring_char(n, n);
    }
    let mut j: usize = n;
    while j > i && is_whitespace_char(chars[j - 1])
        invariant
            n == chars@.len(),
            chars@ == s@,
            i < j <= n || (j == i),
            i < n,
            !is_white_space(s@[i as int]),
            forall|k: int| j <= k < n ==> is_white_space(#[trigger] s@[k]),
        decreases j,
    {
        j = j - 1;
    }
    proof {
        if j == i {
            assert(false);
        }
        lemma_trailing_ws(s@, j as int);
    }
    s.substring_char(i, j)
}

/// Whether a text holds nothing but white space.
pub fn text_is_blank(s: &str) -> (r: bool)
    ensures
        r == is_blank(s@),
{
    let chars = chars_of(s);
    let n = chars.len();
    for i in 0..n
        invariant
            n == chars@.len(),
            chars@ == s@,
            forall|k: int| 0 <= k < i ==> is_white_space(#[trigger] s@[k]),
    {
        if !is_whitespace_char(chars[i]) {
            return false;
        }
    }
    true
}

// ---------------------------------------------------------------------------
// Annotations
// ---------------------------------------------------------------------------

/// A word is a cue (an annotation) when it is bracketed, like `[pause]`, or
/// when none of its characters is a letter or a digit.
pub open spec fn is_annotation(w: Seq<char>) -> bool {
    ||| (w.len() > 0 && w[0] == '[' && w.last() == ']')
    ||| forall|i: int| 0 <= i < w.len() ==> !alphanumeric(#[trigger] w[i])
}

/// The annotation rule on ASCII words: bracketed, or without any ASCII
/// letter or digit.
pub open spec fn is_ascii_annotation(w: Seq<char>) -> bool {
    ||| (w.len() > 0 && w[0] == '[' && w.last() == ']')
    ||| forall|i: int| 0 <= i < w.len() ==> !is_ascii_alnum(#[trigger] w[i])
}

pub fn is_annotation_word(word: &str) -> (r: bool)
    ensures
        r == is_annotation(word@),
        is_ascii_text(word@) ==> r == is_ascii_annotation(word@),
{
    let chars = chars_of(word);
    let n = chars.len();
    if n > 0 && chars[0] == '[' && chars[n - 1] == ']' {
        return true;
    }
    assert(!(word@.len() > 0 && word@[0] == '[' && word@.last() == ']'));
    for i in 0..n
        invariant
            n == chars@.len(),
            chars@ == word@,
            !(word@.len() > 0 && word@[0] == '[' && word@.last() == ']'),
            forall|k: int| 0 <= k < i ==> !alphanumeric(#[trigger] word@[k]),
            is_ascii_text(word@) ==> forall|k: int| 0 <= k < i ==> !is_ascii_alnum(#[trigger] word@[k]),
    {
        proof {
            if is_ascii_text(word@) {
                assert(is_ascii_char(word@[i as int]));
            }
        }
        if char_is_alphanumeric(chars[i]) {
            assert(alphanumeric(word@[i as int]));
            return false;
        }
    }
    true
}

// ---------------------------------------------------------------------------
// Character offsets of words
// ---------------------------------------------------------------------------

/// The words joined by single spaces.
pub open spec fn joined(ws: Seq<Seq<char>>) -> Seq<char>
    decreases ws.len(),
{
    if ws.len() == 0 {
        Seq::empty()
    } else if ws.len() == 1 {
        ws[0]
    } else {
        joined(ws.drop_last()) + seq![' '] + ws.last()
    }
}

/// Character count of the words joined by single spaces.
pub open spec fn total_chars(ws: Seq<Seq<char>>) -> int {
    joined(ws).len() as int
}

/// Offset of word `i` in the joined text: each earlier word counts its
/// characters and one separating space.
pub open spec fn word_start(ws: Seq<Seq<char>>, i: int) -> int
    decreases i,
{
    if i <= 0 {
        0
    } else {
        word_start(ws, i - 1) + ws[i - 1].len() + 1
    }
}

/// All offsets that the word computations reach fit in `usize`.
pub open spec fn offsets_fit(ws: Seq<Seq<char>>) -> bool {
    word_start(ws, ws.len() as int) <= usize::MAX
}

pub proof fn lemma_word_start_mono(ws: Seq<Seq<char>>, i: int, j: int)
    requires
        0 <= i <= j,
    ensures
        word_start(ws, i) <= word_start(ws, j),
    decreases j - i,
{
    if i < j {
        lemma_word_start_mono(ws, i, j - 1);
    }
}

pub proof fn lemma_word_start_prefix(ws: Seq<Seq<char>>, i: int, m: int)
    requires
        0 <= i <= m <= ws.len(),
    ensures
        word_start(ws.take(m), i) == word_start(ws, i),
    decreases i,
{
    if i > 0 {
        lemma_word_start_prefix(ws, i - 1, m);
        assert(ws.take(m)[i - 1] == ws[i - 1]);
    }
}

/// For at least one word, the joined text is one character shorter than
/// the offset just after the last word.
pub proof fn lemma_joined_len(ws: Seq<Seq<char>>)
    ensures
        ws.len() > 0 ==> joined(ws).len() + 1 == word_start(ws, ws.len() as int),
        ws.len() == 0 ==> joined(ws).len() == 0,
    decreases ws.len(),
{
    let n = ws.len() as int;
    if n == 1 {
        assert(word_start(ws, 0) == 0);
        assert(word_start(ws, 1) == ws[0].len() + 1);
    } else if n > 1 {
        let p = ws.drop_last();
        lemma_joined_len(p);
        assert(p =~= ws.take(n - 1));
        lemma_word_start_prefix(ws, n - 1, n - 1);
        assert(word_start(p, n - 1) == word_start(ws, n - 1));
        assert(joined(ws) == joined(p) + seq![' '] + ws.last());
        assert(word_start(ws, n) == word_start(ws, n - 1) + ws[n - 1].len() + 1);
    }
}

pub proof fn lemma_offsets_fit_total(ws: Seq<Seq<char>>)
    requires
        offsets_fit(ws),
    ensures
        total_chars(ws) <= usize::MAX,
        forall|i: int| 0 <= i <= ws.len() ==> word_start(ws, i) <= usize::MAX,
{
    lemma_joined_len(ws);
    assert forall|i: int| 0 <= i <= ws.len() implies word_start(ws, i) <= usize::MAX by {
        lemma_word_start_mono(ws, i, ws.len() as int);
    }
}

/// Character count of the words joined by single spaces.
pub fn total_char_count(words: &Vec<String>) -> (r: usize)
    requires
        total_chars(string_seqs(words@)) <= usize::MAX,
    ensures
        r == total_chars(string_seqs(words@)),
{
    let ghost ws = string_seqs(words@);
    let n = words.len();
    let mut acc: usize = 0;
    proof {
        lemma_joined_len(ws);
    }
    for i in 0..n
        invariant
            n == words.len(),
            ws == string_seqs(words@),
            total_chars(ws) <= usize::MAX,
            n > 0 ==> joined(ws).len() + 1 == word_start(ws, n as int),
            i == 0 ==> acc == 0,
            i > 0 ==> acc + 1 == word_start(ws, i as int),
    {
        let len = char_count(words[i].as_str());
        proof {
            lemma_word_start_mono(ws, i + 1, n as int);
            assert(len == ws[i as int].len());
            assert(word_start(ws, i + 1) == word_start(ws, i as int) + ws[i as int].len() + 1);
            assert(word_start(ws, 0) == 0);
        }
        if i > 0 {
            acc = acc + 1;
        }
        acc = acc + len;
    }
    proof {
        lemma_joined_len(ws);
    }
    acc
}

/// The item that describes word `i` of `ws`.
pub open spec fn word_item_matches(item: WordItem, ws: Seq<Seq<char>>, i: int) -> bool {
    &&& item.id == i
    &&& item.word@ == ws[i]
    &&& item.char_offset == word_start(ws, i)
    &&& item.is_annotation == is_annotation(ws[i])
}

/// The items that describe the words `ws`, in order.
pub open spec fn word_items_match(items: Seq<WordItem>, ws: Seq<Seq<char>>) -> bool {
    &&& items.len() == ws.len()
    &&& forall|i: int| 0 <= i < ws.len() ==> word_item_matches(#[trigger] items[i], ws, i)
}

pub fn build_word_items(words: &Vec<String>) -> (items: Vec<WordItem>)
    requires
        offsets_fit(string_seqs(words@)),
    ensures
        word_items_match(items@, string_seqs(words@)),
{
    let ghost ws = string_seqs(words@);
    let n = words.len();
    let mut offset: usize = 0;
    let mut items: Vec<WordItem> = Vec::new();
    for i in 0..n
        invariant
            n == words.len(),
            ws == string_seqs(words@),
            offsets_fit(ws),
            offset == word_start(ws, i as int),
            items.len() == i,
            forall|k: int| 0 <= k < i ==> word_item_matches(#[trigger] items@[k], ws, k),
    {
        let len = char_count(words[i].as_str());
        let is_annotation = is_annotation_word(words[i].as_str());
        proof {
            lemma_word_start_mono(ws, i + 1, n as int);
        }
        let item = WordItem {
            id: i,
            word: words[i].clone(),
            char_offset: offset,
            is_annotation,
        };
        items.push(item);
        offset = offset + len + 1;
    }
    items
}

/// The character offset reached after `whole` words plus `partial`
/// characters of the next one (at most its length), capped at the total.
pub open spec fn progress_offset(ws: Seq<Seq<char>>, whole: int, partial: int) -> int {
    let n = ws.len() as int;
    let base = word_start(ws, if whole < n { whole } else { n });
    let extra = if whole < n {
        if partial < ws[whole].len() { partial } else { ws[whole].len() as int }
    } else {
        0
    };
    if base + extra < total_chars(ws) { base + extra } else { total_chars(ws) }
}

/// Offset in the joined words that a reading progress of `whole_word` full
/// words and `partial_chars` characters of the next word stands for.
pub fn char_offset_for_progress_parts(
    words: &Vec<String>,
    whole_word: usize,
    partial_chars: usize,
) -> (r: usize)
    requires
        offsets_fit(string_seqs(words@)),
    ensures
        r == progress_offset(string_seqs(words@), whole_word as int, partial_chars as int),
{
    let ghost ws = string_seqs(words@);
    let n = words.len();
    proof {
        lemma_offsets_fit_total(ws);
    }
    let total = total_char_count(words);
    let limit = if whole_word < n { whole_word } else { n };
    let mut offset: usize = 0;
    for i in 0..limit
        invariant
            n == words.len(),
            limit <= n,
            ws == string_seqs(words@),
            offsets_fit(ws),
            offset == word_start(ws, i as int),
    {
        let len = char_count(words[i].as_str());
        proof {
            lemma_word_start_mono(ws, i + 1, n as int);
        }
        offset = offset + len + 1;
    }
    if whole_word < n {
        let len = char_count(words[whole_word].as_str());
        let extra = if partial_chars < len { partial_chars } else { len };
        proof {
            lemma_word_start_mono(ws, whole_word + 1, n as int);
        }
        offset = offset + extra;
    }
    if offset < total { offset } else { total }
}

/// Offset just after word `i` in the joined text.
pub open spec fn word_end(ws: Seq<Seq<char>>, i: int) -> int {
    word_start(ws, i) + ws[i].len()
}

/// The first word, from index `i` on, that ends at or after offset `c`
/// (the word count when there is none).
pub open spec fn located_word_from(ws: Seq<Seq<char>>, c: int, i: int) -> int
    decreases ws.len() - i,
{
    if i >= ws.len() {
        ws.len() as int
    } else if c <= word_end(ws, i) {
        i
    } else {
        located_word_from(ws, c, i + 1)
    }
}

/// Reading progress at offset `c`, as the index of the word it falls in,
/// how far into that word it is, and that word's length (at least one);
/// past the last word: the word count, zero and one.
pub open spec fn word_progress_parts(ws: Seq<Seq<char>>, c: int) -> (int, int, int) {
    let k = located_word_from(ws, c, 0);
    if k < ws.len() {
        (
            k,
            if c >= word_start(ws, k) { c - word_start(ws, k) } else { 0 },
            if ws[k].len() >= 1 { ws[k].len() as int } else { 1 },
        )
    } else {
        (ws.len() as int, 0, 1)
    }
}

proof fn lemma_located_skip(ws: Seq<Seq<char>>, c: int, i: int)
    requires
        0 <= i <= ws.len(),
        forall|j: int| 0 <= j < i ==> c > #[trigger] word_end(ws, j),
    ensures
        located_word_from(ws, c, 0) == located_word_from(ws, c, i),
    decreases i,
{
    if i > 0 {
        lemma_located_skip(ws, c, i - 1);
    }
}

proof fn lemma_located_props(ws: Seq<Seq<char>>, c: int, i: int)
    requires
        0 <= i <= ws.len(),
    ensures
        i <= located_word_from(ws, c, i) <= ws.len(),
        forall|j: int| i <= j < located_word_from(ws, c, i) ==> c > #[trigger] word_end(ws, j),
        located_word_from(ws, c, i) < ws.len() ==> c <= word_end(ws, located_word_from(ws, c, i)),
    decreases ws.len() - i,
{
    if i < ws.len() && c > word_end(ws, i) {
        lemma_located_props(ws, c, i + 1);
    }
}

/// Where a character offset falls among the words, as `word_progress_parts`
/// describes; the reading progress is `index + into / length`.
pub fn locate_char_offset(words: &Vec<String>, char_offset: usize) -> (r: (usize, usize, usize))
    requires
        offsets_fit(string_seqs(words@)),
    ensures
        (r.0 as int, r.1 as int, r.2 as int) == word_progress_parts(
            string_seqs(words@),
            char_offset as int,
        ),
{
    let ghost ws = string_seqs(words@);
    let n = words.len();
    let mut offset: usize = 0;
    for i in 0..n
        invariant
            n == words.len(),
            ws == string_seqs(words@),
            offsets_fit(ws),
            offset == word_start(ws, i as int),
            forall|j: int| 0 <= j < i ==> char_offset > #[trigger] word_end(ws, j),
    {
        let len = char_count(words[i].as_str());
        proof {
            lemma_word_start_mono(ws, i + 1, n as int);
        }
        let end = offset + len;
        if char_offset <= end {
            proof {
                lemma_located_skip(ws, char_offset as int, i as int);
            }
            let into = if char_offset >= offset { char_offset - offset } else { 0 };
            let den = if len >= 1 { len } else { 1 };
            return (i, into, den);
        }
        offset = end + 1;
    }
    proof {
        lemma_located_skip(ws, char_offset as int, n as int);
    }
    (n, 0, 1)
}

/// The item of word `i` points at that word in the space-joined text, and
/// the joined text is as long as `total_chars` says.
pub proof fn law_word_offsets_point_at_words(ws: Seq<Seq<char>>, i: int)
    requires
        0 <= i < ws.len(),
    ensures
        word_end(ws, i) <= total_chars(ws),
        joined(ws).subrange(word_start(ws, i), word_end(ws, i)) == ws[i],
    decreases ws.len(),
{
    let n = ws.len() as int;
    lemma_joined_len(ws);
    if n == 1 {
        assert(word_start(ws, 0) == 0);
        assert(joined(ws).subrange(0, ws[0].len() as int) =~= ws[0]);
    } else {
        let p = ws.drop_last();
        lemma_joined_len(p);
        assert(p =~= ws.take(n - 1));
        lemma_word_start_prefix(ws, n - 1, n - 1);
        assert(joined(ws) == joined(p) + seq![' '] + ws.last());
        if i < n - 1 {
            law_word_offsets_point_at_words(p, i);
            lemma_word_start_prefix(ws, i, n - 1);
            assert(p[i] == ws[i]);
            assert(word_start(p, i) == word_start(ws, i));
            assert(word_end(p, i) == word_end(ws, i));
            assert(word_end(ws, i) <= joined(p).len());
            lemma_word_start_mono(ws, 0, i);
            assert(joined(ws).subrange(word_start(ws, i), word_end(ws, i)) =~= joined(p).subrange(
                word_start(p, i),
                word_end(p, i),
            ));
            lemma_word_start_mono(ws, i + 1, n - 1);
        } else {
            assert(word_start(ws, n - 1) == joined(p).len() + 1);
            assert(joined(ws).subrange(word_start(ws, i), word_end(ws, i)) =~= ws.last());
        }
    }
}

/// Turning a character offset into reading progress and back gives the
/// offset again, capped at the total.
pub proof fn law_progress_round_trip(ws: Seq<Seq<char>>, c: int)
    requires
        c >= 0,
    ensures
        progress_offset(ws, word_progress_parts(ws, c).0, word_progress_parts(ws, c).1) == (if c
            < total_chars(ws) {
            c
        } else {
            total_chars(ws)
        }),
{
    let n = ws.len() as int;
    lemma_located_props(ws, c, 0);
    lemma_joined_len(ws);
    let k = located_word_from(ws, c, 0);
    if k < n {
        lemma_word_start_mono(ws, k + 1, n);
        if k > 0 {
            assert(c > word_end(ws, k - 1));
        }
    } else if n > 0 {
        assert(c > word_end(ws, n - 1));
    }
}

/// The offset where a word starts is read as that word, zero characters in;
/// and zero characters into a word is the offset where it starts.
pub proof fn law_word_start_progress(ws: Seq<Seq<char>>, k: int)
    requires
        0 <= k < ws.len(),
    ensures
        word_progress_parts(ws, word_start(ws, k)).0 == k,
        word_progress_parts(ws, word_start(ws, k)).1 == 0,
        progress_offset(ws, k, 0) == word_start(ws, k),
{
    let c = word_start(ws, k);
    lemma_located_props(ws, c, 0);
    let j = located_word_from(ws, c, 0);
    if j < k {
        lemma_word_start_mono(ws, j + 1, k);
        assert(c > word_end(ws, j));
    }
    law_word_offsets_point_at_words(ws, k);
}

/// The item of each word stands for the progress of that word, zero
/// characters in, and that progress leads back to the item's offset.
pub proof fn law_word_items_progress(items: Seq<WordItem>, ws: Seq<Seq<char>>, k: int)
    requires
        word_items_match(items, ws),
        0 <= k < ws.len(),
    ensures
        word_progress_parts(ws, items[k].char_offset as int).0 == k,
        word_progress_parts(ws, items[k].char_offset as int).1 == 0,
        progress_offset(ws, k, 0) == items[k].char_offset,
{
    assert(word_item_matches(items[k], ws, k));
    law_word_start_progress(ws, k);
}

/// Reading progress lies between zero and the word count: the word index
/// is at most the count, the characters into a word are at most its
/// length (which is at least one), and past the joined text the progress
/// is the word count, zero characters in.
pub proof fn law_progress_bounds(ws: Seq<Seq<char>>, c: int)
    requires
        c >= 0,
    ensures
        0 <= word_progress_parts(ws, c).0 <= ws.len(),
        word_progress_parts(ws, c).2 >= 1,
        0 <= word_progress_parts(ws, c).1,
        word_progress_parts(ws, c).0 < ws.len() ==> word_progress_parts(ws, c).1 <= word_progress_parts(
            ws,
            c,
        ).2,
        word_progress_parts(ws, c).0 == ws.len() ==> word_progress_parts(ws, c).1 == 0,
        c > total_chars(ws) ==> word_progress_parts(ws, c) == (ws.len() as int, 0int, 1int),
{
    let n = ws.len() as int;
    lemma_located_props(ws, c, 0);
    let k = located_word_from(ws, c, 0);
    if c > total_chars(ws) && k < n {
        law_word_offsets_point_at_words(ws, k);
    }
}

/// Reading further never moves the offset back: more whole words, or as
/// many whole words and more characters of the next, give an offset at
/// least as large.
pub proof fn law_progress_offset_monotone(ws: Seq<Seq<char>>, w1: int, p1: int, w2: int, p2: int)
    requires
        0 <= w1,
        0 <= p1,
        0 <= p2,
        w1 < w2 || (w1 == w2 && p1 <= p2),
    ensures
        progress_offset(ws, w1, p1) <= progress_offset(ws, w2, p2),
{
    let n = ws.len() as int;
    if w1 < w2 && w1 < n {
        let m = if w2 < n { w2 } else { n };
        lemma_word_start_mono(ws, w1 + 1, m);
        lemma_word_start_mono(ws, 0, w1);
    }
}

/// No progress is the start of the text, and progress past the last word
/// is its end.
pub proof fn law_progress_offset_ends(ws: Seq<Seq<char>>, w: int, p: int)
    requires
        0 <= p,
    ensures
        progress_offset(ws, 0, 0) == 0,
        w >= ws.len() ==> progress_offset(ws, w, p) == total_chars(ws),
{
    lemma_joined_len(ws);
}

// ---------------------------------------------------------------------------
// Normalising spoken and written text for matching
// ---------------------------------------------------------------------------

/// Letters, digits and white space of `s`, each replaced by its lowercase
/// mapping; everything else dropped.
pub open spec fn keep_and_lower(s: Seq<char>) -> Seq<char>
    decreases s.len(),
{
    if s.len() == 0 {
        Seq::empty()
    } else {
        keep_and_lower(s.drop_last()) + (if alphanumeric(s.last()) || is_white_space(s.last()) {
            lowercase(s.last())
        } else {
            Seq::empty()
        })
    }
}

/// The text as it is compared with speech: lowercased letters and digits,
/// words separated by single spaces.
pub open spec fn normalized(s: Seq<char>) -> Seq<char> {
    joined(whitespace_split(keep_and_lower(s)))
}

/// A text of ASCII characters only.
pub open spec fn is_ascii_text(s: Seq<char>) -> bool {
    forall|i: int| 0 <= i < s.len() ==> is_ascii_char(#[trigger] s[i])
}

/// `keep_and_lower` as it is on ASCII text: letters, digits and white
/// space, with the letters in lower case.
pub open spec fn ascii_keep_lower(s: Seq<char>) -> Seq<char>
    decreases s.len(),
{
    if s.len() == 0 {
        Seq::empty()
    } else {
        ascii_keep_lower(s.drop_last()) + (if is_ascii_alnum(s.last()) || is_white_space(s.last()) {
            seq![ascii_lower(s.last())]
        } else {
            Seq::empty()
        })
    }
}

/// `normalized` as it is on ASCII text.
pub open spec fn ascii_normalized(s: Seq<char>) -> Seq<char> {
    joined(whitespace_split(ascii_keep_lower(s)))
}

fn join_with_spaces(toks: &Vec<Vec<char>>) -> (r: Vec<char>)
    ensures
        r@ == joined(char_vecs(toks@)),
{
    let ghost ws = char_vecs(toks@);
    let n = toks.len();
    let mut r: Vec<char> = Vec::new();
    for i in 0..n
        invariant
            n == toks.len(),
            ws == char_vecs(toks@),
            r@ == joined(ws.take(i as int)),
    {
        let ghost before = r@;
        if i > 0 {
            r.push(' ');
        }
        let w = &toks[i];
        let m = w.len();
        for k in 0..m
            invariant
                m == w.len(),
                r@ == before + (if i > 0 { seq![' '] } else { Seq::<char>::empty() }) + w@.take(
                    k as int,
                ),
        {
            r.push(w[k]);
            assert(w@.take(k + 1) =~= w@.take(k as int).push(w[k as int]));
        }
        proof {
            assert(w@.take(m as int) =~= w@);
            let t = ws.take(i + 1);
            assert(t.drop_last() =~= ws.take(i as int));
            assert(t.last() == w@);
            if i == 0 {
                assert(r@ =~= joined(t));
            } else {
                assert(r@ =~= joined(t));
            }
        }
    }
    proof {
        assert(ws.take(n as int) =~= ws);
    }
    r
}

/// The words joined by single spaces.
pub fn join_words(words: &Vec<String>) -> (r: String)
    ensures
        r@ == joined(string_seqs(words@)),
{
    let n = words.len();
    let mut toks: Vec<Vec<char>> = Vec::new();
    for i in 0..n
        invariant
            n == words.len(),
            char_vecs(toks@) =~= string_seqs(words@).take(i as int),
    {
        let cs = chars_of(words[i].as_str());
        let ghost prev = toks@;
        toks.push(cs);
        assert(toks@ =~= prev.push(cs));
        assert(char_vecs(toks@) =~= char_vecs(prev).push(cs@));
        assert(string_seqs(words@).take(i + 1) =~= string_seqs(words@).take(i as int).push(
            string_seqs(words@)[i as int],
        ));
    }
    assert(string_seqs(words@).take(n as int) =~= string_seqs(words@));
    let chars = join_with_spaces(&toks);
    string_from_chars(chars.as_slice())
}

pub fn normalize_for_matching(input: &str) -> (r: String)
    ensures
        r@ == normalized(input@),
        is_ascii_text(input@) ==> r@ == ascii_normalized(input@),
{
    let chars = chars_of(input);
    let n = chars.len();
    let mut kept: Vec<char> = Vec::new();
    for i in 0..n
        invariant
            n == chars@.len(),
            chars@ == input@,
            kept@ == keep_and_lower(input@.take(i as int)),
            is_ascii_text(input@) ==> kept@ == ascii_keep_lower(input@.take(i as int)),
    {
        let c = chars[i];
        proof {
            if is_ascii_text(input@) {
                assert(is_ascii_char(input@[i as int]));
            }
        }
        proof {
            assert(input@.take(i + 1).drop_last() =~= input@.take(i as int));
        }
        let ghost before = kept@;
        if char_is_alphanumeric(c) || is_whitespace_char(c) {
            let low = char_to_lowercase(c);
            let m = low.len();
            for k in 0..m
                invariant
                    m == low.len(),
                    kept@ == before + low@.take(k as int),
            {
                kept.push(low[k]);
                assert(low@.take(k + 1) =~= low@.take(k as int).push(low[k as int]));
            }
            assert(low@.take(m as int) =~= low@);
        }
        assert(kept@ =~= keep_and_lower(input@.take(i + 1)));
        proof {
            if is_ascii_text(input@) {
                assert(kept@ =~= ascii_keep_lower(input@.take(i + 1)));
            }
        }
    }
    assert(input@.take(n as int) =~= input@);
    let toks = tokenize(&kept, false);
    let joined_chars = join_with_spaces(&toks);
    string_from_chars(joined_chars.as_slice())
}

// ---------------------------------------------------------------------------
// Laws of tokenising
// ---------------------------------------------------------------------------

/// The characters of `s` that are not white space, in order.
pub open spec fn non_ws(s: Seq<char>) -> Seq<char> {
    s.filter(|c: char| !is_white_space(c))
}

/// A token as the scan produces it: not empty, free of white space and,
/// when CJK characters are split off, a CJK character only stands alone.
pub open spec fn token_ok(w: Seq<char>, split_cjk: bool) -> bool {
    &&& w.len() > 0
    &&& forall|k: int| 0 <= k < w.len() ==> !is_white_space(#[trigger] w[k])
    &&& split_cjk ==> forall|k: int| 0 <= k < w.len() && is_cjk_char(#[trigger] w[k]) ==> w.len() == 1
}

spec fn pending_ok(b: Seq<char>, split_cjk: bool) -> bool {
    &&& forall|k: int| 0 <= k < b.len() ==> !is_white_space(#[trigger] b[k])
    &&& split_cjk ==> forall|k: int| 0 <= k < b.len() ==> !is_cjk_char(#[trigger] b[k])
}

proof fn lemma_scan(s: Seq<char>, split_cjk: bool)
    ensures
        forall|i: int|
            0 <= i < scan(s, split_cjk).0.len() ==> token_ok(#[trigger] scan(s, split_cjk).0[i], split_cjk),
        pending_ok(scan(s, split_cjk).1, split_cjk),
        scan(s, split_cjk).0.flatten() + scan(s, split_cjk).1 == non_ws(s),
    decreases s.len(),
{
    broadcast use Seq::lemma_flatten_push;

    if s.len() == 0 {
        assert(non_ws(s) =~= Seq::<char>::empty());
        assert(scan(s, split_cjk).0.flatten() + scan(s, split_cjk).1 =~= Seq::<char>::empty());
    } else {
        let p = s.drop_last();
        let c = s.last();
        lemma_scan(p, split_cjk);
        let d = scan(p, split_cjk).0;
        let b = scan(p, split_cjk).1;
        assert(s =~= p.push(c));
        p.lemma_filter_push(c, |c: char| !is_white_space(c));
        let st = scan(s, split_cjk);
        if b.len() > 0 {
            assert(token_ok(b, split_cjk));
            assert(flush(d, b).flatten() =~= d.flatten() + b);
        } else {
            assert(d.flatten() + b =~= d.flatten());
        }
        if is_white_space(c) {
            assert(st.0 == flush(d, b));
            assert(st.0.flatten() + st.1 =~= d.flatten() + b);
        } else if split_cjk && is_cjk_char(c) {
            let f = flush(d, b);
            assert(st.0 == f.push(seq![c]));
            assert(token_ok(seq![c], split_cjk));
            assert forall|i: int| 0 <= i < st.0.len() implies token_ok(#[trigger] st.0[i], split_cjk) by {
                if i < f.len() {
                    assert(st.0[i] == f[i]);
                }
            }
            assert(st.0.flatten() + st.1 =~= d.flatten() + b + seq![c]);
        } else {
            assert(st.1 == b.push(c));
            assert(st.0.flatten() + st.1 =~= (d.flatten() + b).push(c));
        }
    }
}

/// What the scan has produced at the end is a sequence of well-formed
/// tokens that together hold exactly the non-white-space characters.
pub proof fn lemma_tokens(s: Seq<char>, split_cjk: bool)
    ensures
        forall|i: int|
            0 <= i < tokens(s, split_cjk).len() ==> token_ok(#[trigger] tokens(s, split_cjk)[i], split_cjk),
        tokens(s, split_cjk).flatten() == non_ws(s),
{
    broadcast use Seq::lemma_flatten_push;

    lemma_scan(s, split_cjk);
    let d = scan(s, split_cjk).0;
    let b = scan(s, split_cjk).1;
    if b.len() > 0 {
        assert(tokens(s, split_cjk).flatten() =~= d.flatten() + b);
        assert forall|i: int| 0 <= i < tokens(s, split_cjk).len() implies token_ok(
            #[trigger] tokens(s, split_cjk)[i],
            split_cjk,
        ) by {
            if i < d.len() {
                assert(tokens(s, split_cjk)[i] == d[i]);
            }
        }
    } else {
        assert(d.flatten() + b =~= d.flatten());
    }
}

/// The words of a text are never empty and hold no white space; a word
/// with a CJK character is that character alone; and the words, put
/// together without separators, are the text without its white space.
pub proof fn law_split_words(s: Seq<char>)
    ensures
        forall|i: int| 0 <= i < split_words(s).len() ==> (#[trigger] split_words(s)[i]).len() > 0,
        forall|i: int, k: int|
            0 <= i < split_words(s).len() && 0 <= k < split_words(s)[i].len() ==> !is_white_space(
                #[trigger] split_words(s)[i][k],
            ),
        forall|i: int, k: int|
            0 <= i < split_words(s).len() && 0 <= k < split_words(s)[i].len() && is_cjk_char(
                #[trigger] split_words(s)[i][k],
            ) ==> split_words(s)[i].len() == 1,
        split_words(s).flatten() == non_ws(s),
{
    lemma_tokens(s, true);
    assert forall|i: int, k: int|
        0 <= i < split_words(s).len() && 0 <= k < split_words(s)[i].len() implies !is_white_space(
        #[trigger] split_words(s)[i][k],
    ) by {
        assert(token_ok(split_words(s)[i], true));
    }
    assert forall|i: int, k: int|
        0 <= i < split_words(s).len() && 0 <= k < split_words(s)[i].len() && is_cjk_char(
            #[trigger] split_words(s)[i][k],
        ) implies split_words(s)[i].len() == 1 by {
        assert(token_ok(split_words(s)[i], true));
    }
}

/// Words that are not empty and hold no white space, joined by single
/// spaces: white space occurs only as single spaces between two other
/// characters.
proof fn lemma_joined_spacing(ws: Seq<Seq<char>>)
    requires
        forall|i: int| 0 <= i < ws.len() ==> token_ok(#[trigger] ws[i], false),
    ensures
        joined(ws).len() > 0 ==> !is_white_space(joined(ws)[0]) && !is_white_space(
            joined(ws).last(),
        ),
        forall|i: int|
            0 <= i < joined(ws).len() && is_white_space(#[trigger] joined(ws)[i]) ==> {
                &&& joined(ws)[i] == ' '
                &&& 0 < i < joined(ws).len() - 1
                &&& !is_white_space(joined(ws)[i - 1])
                &&& !is_white_space(joined(ws)[i + 1])
            },
    decreases ws.len(),
{
    let j = joined(ws);
    if ws.len() == 1 {
        assert(token_ok(ws[0], false));
        assert(j == ws[0]);
    } else if ws.len() > 1 {
        let p = ws.drop_last();
        let w = ws.last();
        assert forall|i: int| 0 <= i < p.len() implies token_ok(#[trigger] p[i], false) by {
            assert(p[i] == ws[i]);
        }
        lemma_joined_spacing(p);
        assert(token_ok(w, false));
        let jp = joined(p);
        assert(j == jp + seq![' '] + w);
        lemma_joined_nonempty(p);
        assert forall|i: int|
            0 <= i < j.len() && is_white_space(#[trigger] j[i]) implies {
            &&& j[i] == ' '
            &&& 0 < i < j.len() - 1
            &&& !is_white_space(j[i - 1])
            &&& !is_white_space(j[i + 1])
        } by {
            if i < jp.len() {
                assert(j[i] == jp[i]);
                assert(is_white_space(jp[i]));
                assert(j[i - 1] == jp[i - 1]);
                assert(j[i + 1] == jp[i + 1]);
            } else if i == jp.len() {
                assert(j[i - 1] == jp.last());
                assert(j[i + 1] == w[0]);
            } else {
                assert(j[i] == w[i - jp.len() - 1]);
            }
        }
        assert(j[0] == jp[0]);
        assert(j.last() == w.last());
    }
}

proof fn lemma_joined_nonempty(ws: Seq<Seq<char>>)
    requires
        ws.len() > 0,
        forall|i: int| 0 <= i < ws.len() ==> (#[trigger] ws[i]).len() > 0,
    ensures
        joined(ws).len() > 0,
    decreases ws.len(),
{
    if ws.len() > 1 {
        assert(ws.drop_last()[0] == ws[0]);
        lemma_joined_nonempty(ws.drop_last());
    }
}

/// Normalised text has no white space at either end, and inside it white
/// space only occurs as single spaces between two other characters.
pub proof fn law_normalized_spacing(s: Seq<char>)
    ensures
        normalized(s).len() > 0 ==> !is_white_space(normalized(s)[0]) && !is_white_space(
            normalized(s).last(),
        ),
        forall|i: int|
            0 <= i < normalized(s).len() && is_white_space(#[trigger] normalized(s)[i]) ==> {
                &&& normalized(s)[i] == ' '
                &&& 0 < i < normalized(s).len() - 1
                &&& !is_white_space(normalized(s)[i - 1])
                &&& !is_white_space(normalized(s)[i + 1])
            },
{
    lemma_tokens(keep_and_lower(s), false);
    lemma_joined_spacing(whitespace_split(keep_and_lower(s)));
}

/// Scanning more characters that neither end nor split a token extends the
/// pending token by them.
proof fn lemma_scan_plain(t: Seq<char>, w: Seq<char>, split_cjk: bool)
    requires
        forall|k: int| 0 <= k < w.len() ==> !is_white_space(#[trigger] w[k]),
        split_cjk ==> forall|k: int| 0 <= k < w.len() ==> !is_cjk_char(#[trigger] w[k]),
    ensures
        scan(t + w, split_cjk) == (scan(t, split_cjk).0, scan(t, split_cjk).1 + w),
    decreases w.len(),
{
    if w.len() == 0 {
        assert(t + w =~= t);
        assert(scan(t, split_cjk).1 + w =~= scan(t, split_cjk).1);
    } else {
        let v = w.drop_last();
        lemma_scan_plain(t, v, split_cjk);
        assert((t + w).drop_last() =~= t + v);
        assert((t + w).last() == w.last());
        assert((scan(t, split_cjk).1 + v).push(w.last()) =~= scan(t, split_cjk).1 + w);
    }
}

/// A token that is one CJK character on its own.
pub open spec fn is_cjk_token(w: Seq<char>, split_cjk: bool) -> bool {
    split_cjk && w.len() == 1 && is_cjk_char(w[0])
}

/// Scanning a whole token from a state with no pending token.
proof fn lemma_scan_token(t: Seq<char>, w: Seq<char>, split_cjk: bool)
    requires
        token_ok(w, split_cjk),
        scan(t, split_cjk).1.len() == 0,
    ensures
        scan(t + w, split_cjk) == (if is_cjk_token(w, split_cjk) {
            (scan(t, split_cjk).0.push(w), Seq::<char>::empty())
        } else {
            (scan(t, split_cjk).0, w)
        }),
{
    if is_cjk_token(w, split_cjk) {
        assert((t + w).drop_last() =~= t);
        assert((t + w).last() == w[0]);
        assert(seq![w[0]] =~= w);
    } else {
        assert forall|k: int| split_cjk && 0 <= k < w.len() implies !is_cjk_char(#[trigger] w[k]) by {
            if is_cjk_char(w[k]) {
                assert(w.len() == 1);
            }
        }
        lemma_scan_plain(t, w, split_cjk);
        assert(scan(t, split_cjk).1 + w =~= w);
    }
}

/// The scan state after the joined tokens: the last token is pending,
/// unless it is a CJK character on its own.
proof fn lemma_scan_joined(ws: Seq<Seq<char>>, split_cjk: bool)
    requires
        ws.len() > 0,
        forall|i: int| 0 <= i < ws.len() ==> token_ok(#[trigger] ws[i], split_cjk),
    ensures
        scan(joined(ws), split_cjk) == (if is_cjk_token(ws.last(), split_cjk) {
            (ws, Seq::<char>::empty())
        } else {
            (ws.drop_last(), ws.last())
        }),
    decreases ws.len(),
{
    let w = ws.last();
    assert(token_ok(ws[ws.len() - 1], split_cjk));
    if ws.len() == 1 {
        let t = Seq::<char>::empty();
        assert(t + w =~= w);
        assert(joined(ws) == w);
        lemma_scan_token(t, w, split_cjk);
        assert(Seq::<Seq<char>>::empty().push(w) =~= ws);
        assert(ws.drop_last() =~= Seq::<Seq<char>>::empty());
    } else {
        let p = ws.drop_last();
        assert forall|i: int| 0 <= i < p.len() implies token_ok(#[trigger] p[i], split_cjk) by {
            assert(p[i] == ws[i]);
        }
        lemma_scan_joined(p, split_cjk);
        let t = joined(p) + seq![' '];
        assert(t.drop_last() =~= joined(p));
        assert(t.last() == ' ');
        assert(is_white_space(' '));
        let st = scan(joined(p), split_cjk);
        assert(flush(st.0, st.1) =~= p) by {
            assert(token_ok(p[p.len() - 1], split_cjk));
            if !is_cjk_token(p.last(), split_cjk) {
                assert(p.drop_last().push(p.last()) =~= p);
            }
        }
        assert(scan(t, split_cjk) == (p, Seq::<char>::empty()));
        lemma_scan_token(t, w, split_cjk);
        assert(joined(ws) == t + w);
        assert(p.push(w) =~= ws);
    }
}

/// Joining tokens with single spaces and splitting the result again gives
/// the same tokens back.
pub proof fn lemma_tokens_of_joined(ws: Seq<Seq<char>>, split_cjk: bool)
    requires
        forall|i: int| 0 <= i < ws.len() ==> token_ok(#[trigger] ws[i], split_cjk),
    ensures
        tokens(joined(ws), split_cjk) == ws,
{
    if ws.len() == 0 {
        assert(joined(ws) =~= Seq::<char>::empty());
    } else {
        lemma_scan_joined(ws, split_cjk);
        assert(token_ok(ws[ws.len() - 1], split_cjk));
        if !is_cjk_token(ws.last(), split_cjk) {
            assert(ws.drop_last().push(ws.last()) =~= ws);
        }
    }
}

/// Splitting the space-joined words of a text gives the same words back.
pub proof fn law_split_joined_words(s: Seq<char>)
    ensures
        split_words(joined(split_words(s))) == split_words(s),
{
    lemma_tokens(s, true);
    lemma_tokens_of_joined(split_words(s), true);
}

// ---------------------------------------------------------------------------
// Laws of normalising ASCII text
// ---------------------------------------------------------------------------

/// A lower-case ASCII letter or a digit.
pub open spec fn is_ascii_lower_alnum(c: char) -> bool {
    let u = c as u32;
    0x30 <= u <= 0x39 || 0x61 <= u <= 0x7A
}

/// ASCII lower-case letters mapped to upper case; other characters kept.
pub open spec fn ascii_upper(c: char) -> char {
    if 0x61 <= (c as u32) <= 0x7A {
        ((c as u32) - 0x20) as char
    } else {
        c
    }
}

/// The text with ASCII letters in upper case.
pub open spec fn ascii_uppercase(s: Seq<char>) -> Seq<char> {
    s.map_values(|c: char| ascii_upper(c))
}

/// Every character the scan puts into a token satisfies `p` when every
/// character of the text that is not white space does.
proof fn lemma_scan_chars(t: Seq<char>, split_cjk: bool, p: spec_fn(char) -> bool)
    requires
        forall|i: int| 0 <= i < t.len() && !is_white_space(#[trigger] t[i]) ==> p(t[i]),
    ensures
        forall|i: int, k: int|
            0 <= i < scan(t, split_cjk).0.len() && 0 <= k < scan(t, split_cjk).0[i].len() ==> p(
                #[trigger] scan(t, split_cjk).0[i][k],
            ),
        forall|k: int| 0 <= k < scan(t, split_cjk).1.len() ==> p(#[trigger] scan(t, split_cjk).1[k]),
    decreases t.len(),
{
    if t.len() > 0 {
        let u = t.drop_last();
        assert forall|i: int| 0 <= i < u.len() && !is_white_space(#[trigger] u[i]) implies p(u[i]) by {
            assert(u[i] == t[i]);
        }
        lemma_scan_chars(u, split_cjk, p);
        let c = t.last();
        assert(t[t.len() - 1] == c);
        let st = scan(u, split_cjk);
        assert(t.drop_last() == u);
        let f = flush(st.0, st.1);
        assert forall|i: int, k: int| 0 <= i < f.len() && 0 <= k < f[i].len() implies p(
            #[trigger] f[i][k],
        ) by {
            if i < st.0.len() {
                assert(f[i] == st.0[i]);
            } else {
                assert(f[i] == st.1);
            }
        }
        if is_white_space(c) {
        } else if split_cjk && is_cjk_char(c) {
            let g = f.push(seq![c]);
            assert forall|i: int, k: int| 0 <= i < g.len() && 0 <= k < g[i].len() implies p(
                #[trigger] g[i][k],
            ) by {
                if i < f.len() {
                    assert(g[i] == f[i]);
                } else {
                    assert(g[i][k] == c);
                }
            }
        } else {
            let b = st.1.push(c);
            assert forall|k: int| 0 <= k < b.len() implies p(#[trigger] b[k]) by {
                if k < st.1.len() {
                    assert(b[k] == st.1[k]);
                }
            }
        }
    }
}

/// Every character of every token satisfies `p` when every character of
/// the text that is not white space does.
proof fn lemma_tokens_chars(t: Seq<char>, split_cjk: bool, p: spec_fn(char) -> bool)
    requires
        forall|i: int| 0 <= i < t.len() && !is_white_space(#[trigger] t[i]) ==> p(t[i]),
    ensures
        forall|i: int, k: int|
            0 <= i < tokens(t, split_cjk).len() && 0 <= k < tokens(t, split_cjk)[i].len() ==> p(
                #[trigger] tokens(t, split_cjk)[i][k],
            ),
{
    lemma_scan_chars(t, split_cjk, p);
}

/// The joined words hold only characters of the words and spaces.
proof fn lemma_joined_chars(ws: Seq<Seq<char>>, p: spec_fn(char) -> bool)
    requires
        forall|i: int, k: int| 0 <= i < ws.len() && 0 <= k < ws[i].len() ==> p(#[trigger] ws[i][k]),
    ensures
        forall|j: int| 0 <= j < joined(ws).len() ==> p(#[trigger] joined(ws)[j]) || joined(ws)[j] == ' ',
    decreases ws.len(),
{
    if ws.len() == 1 {
        assert forall|j: int| 0 <= j < joined(ws).len() implies p(#[trigger] joined(ws)[j]) by {
            assert(joined(ws)[j] == ws[0][j]);
        }
    } else if ws.len() > 1 {
        let q = ws.drop_last();
        assert forall|i: int, k: int| 0 <= i < q.len() && 0 <= k < q[i].len() implies p(
            #[trigger] q[i][k],
        ) by {
            assert(q[i] == ws[i]);
        }
        lemma_joined_chars(q, p);
        let a = joined(q);
        let w = ws.last();
        assert forall|j: int| 0 <= j < joined(ws).len() implies p(#[trigger] joined(ws)[j])
            || joined(ws)[j] == ' ' by {
            if j < a.len() {
                assert(joined(ws)[j] == a[j]);
            } else if j > a.len() {
                assert(joined(ws)[j] == w[j - a.len() - 1]);
                assert(w == ws[ws.len() - 1]);
            }
        }
    }
}

/// What is kept of a text holds, besides white space, only lower-case
/// ASCII letters and digits.
proof fn lemma_ascii_keep_lower_chars(s: Seq<char>)
    ensures
        forall|i: int|
            0 <= i < ascii_keep_lower(s).len() && !is_white_space(#[trigger] ascii_keep_lower(s)[i])
                ==> is_ascii_lower_alnum(ascii_keep_lower(s)[i]),
    decreases s.len(),
{
    if s.len() > 0 {
        lemma_ascii_keep_lower_chars(s.drop_last());
        let a = ascii_keep_lower(s.drop_last());
        assert forall|i: int|
            0 <= i < ascii_keep_lower(s).len() && !is_white_space(#[trigger] ascii_keep_lower(s)[i])
                implies is_ascii_lower_alnum(ascii_keep_lower(s)[i]) by {
            if i < a.len() {
                assert(ascii_keep_lower(s)[i] == a[i]);
            }
        }
    }
}

/// Normalised ASCII text holds only lower-case ASCII letters, digits and
/// spaces.
pub proof fn law_ascii_normalized_chars(s: Seq<char>)
    ensures
        forall|i: int|
            0 <= i < ascii_normalized(s).len() ==> is_ascii_lower_alnum(#[trigger] ascii_normalized(s)[i])
                || ascii_normalized(s)[i] == ' ',
        is_ascii_text(ascii_normalized(s)),
{
    let k = ascii_keep_lower(s);
    let p = |c: char| is_ascii_lower_alnum(c);
    lemma_ascii_keep_lower_chars(s);
    lemma_tokens_chars(k, false, p);
    lemma_joined_chars(whitespace_split(k), p);
    assert forall|i: int| 0 <= i < ascii_normalized(s).len() implies is_ascii_char(
        #[trigger] ascii_normalized(s)[i],
    ) by {
        assert(p(ascii_normalized(s)[i]) || ascii_normalized(s)[i] == ' ');
    }
}

/// Text of lower-case letters, digits and spaces is kept as it is.
proof fn lemma_ascii_keep_lower_fixed(t: Seq<char>)
    requires
        forall|i: int| 0 <= i < t.len() ==> is_ascii_lower_alnum(#[trigger] t[i]) || t[i] == ' ',
    ensures
        ascii_keep_lower(t) == t,
    decreases t.len(),
{
    if t.len() > 0 {
        let u = t.drop_last();
        assert forall|i: int| 0 <= i < u.len() implies is_ascii_lower_alnum(#[trigger] u[i]) || u[i]
            == ' ' by {
            assert(u[i] == t[i]);
        }
        lemma_ascii_keep_lower_fixed(u);
        assert(is_ascii_lower_alnum(t[t.len() - 1]) || t[t.len() - 1] == ' ');
        assert(u.push(t.last()) =~= t);
    }
}

/// Normalising normalised ASCII text changes nothing.
pub proof fn law_ascii_normalized_idempotent(s: Seq<char>)
    ensures
        ascii_normalized(ascii_normalized(s)) == ascii_normalized(s),
{
    let k = ascii_keep_lower(s);
    let ws = whitespace_split(k);
    law_ascii_normalized_chars(s);
    lemma_ascii_keep_lower_fixed(ascii_normalized(s));
    lemma_tokens(k, false);
    lemma_tokens_of_joined(ws, false);
}

/// Upper-casing the ASCII letters of a text does not change what is kept
/// of it.
proof fn lemma_ascii_keep_lower_case(s: Seq<char>)
    ensures
        ascii_keep_lower(ascii_uppercase(s)) == ascii_keep_lower(s),
    decreases s.len(),
{
    if s.len() > 0 {
        let u = s.drop_last();
        lemma_ascii_keep_lower_case(u);
        assert(ascii_uppercase(s).drop_last() =~= ascii_uppercase(u));
        let c = s.last();
        let d = ascii_upper(c);
        assert(ascii_uppercase(s).last() == d);
        if 0x61 <= (c as u32) <= 0x7A {
            assert((d as u32) == (c as u32) - 0x20);
            assert((ascii_lower(d) as u32) == (c as u32));
        }
    }
}

/// Normalising ASCII text does not depend on the case of its letters.
pub proof fn law_ascii_normalized_ignores_case(s: Seq<char>)
    ensures
        ascii_normalized(ascii_uppercase(s)) == ascii_normalized(s),
{
    lemma_ascii_keep_lower_case(s);
}

/// A text of CJK characters only is scanned into one token per character.
proof fn lemma_scan_all_cjk(s: Seq<char>)
    requires
        forall|i: int| 0 <= i < s.len() ==> is_cjk_char(#[trigger] s[i]),
    ensures
        scan(s, true) == (s.map_values(|c: char| seq![c]), Seq::<char>::empty()),
    decreases s.len(),
{
    if s.len() > 0 {
        let u = s.drop_last();
        assert forall|i: int| 0 <= i < u.len() implies is_cjk_char(#[trigger] u[i]) by {
            assert(u[i] == s[i]);
        }
        lemma_scan_all_cjk(u);
        let c = s.last();
        assert(is_cjk_char(s[s.len() - 1]));
        assert(!is_white_space(c));
        assert(u.map_values(|c: char| seq![c]).push(seq![c]) =~= s.map_values(|c: char| seq![c]));
    }
}

/// Every character of the CJK blocks (the unified ideographs and their
/// extensions and compatibility forms, hiragana, katakana and hangul
/// syllables) is a word by itself: a text made of such characters splits
/// into one word per character.
pub proof fn law_cjk_characters_are_words(s: Seq<char>)
    requires
        forall|i: int|
            0 <= i < s.len() ==> {
                let u = #[trigger] s[i] as u32;
                ||| 0x4E00 <= u <= 0x9FFF
                ||| 0x3400 <= u <= 0x4DBF
                ||| 0x20000 <= u <= 0x2A6DF
                ||| 0x2A700 <= u <= 0x2B73F
                ||| 0x2B740 <= u <= 0x2B81F
                ||| 0x2B820 <= u <= 0x2CEAF
                ||| 0xF900 <= u <= 0xFAFF
                ||| 0x2F800 <= u <= 0x2FA1F
                ||| 0x3040 <= u <= 0x309F
                ||| 0x30A0 <= u <= 0x30FF
                ||| 0xAC00 <= u <= 0xD7AF
            },
    ensures
        split_words(s) == s.map_values(|c: char| seq![c]),
{
    assert forall|i: int| 0 <= i < s.len() implies is_cjk_char(#[trigger] s[i]) by {}
    lemma_scan_all_cjk(s);
}

/// Characters that are neither letters, digits nor white space leave no
/// trace in normalised text: deleting them first gives the same result,
/// so punctuation never splits a word.
pub proof fn law_normalizing_drops_punctuation(s: Seq<char>)
    ensures
        normalized(s) == normalized(s.filter(|c: char| alphanumeric(c) || is_white_space(c))),
{
    lemma_keep_and_lower_filter(s);
}

proof fn lemma_keep_and_lower_filter(s: Seq<char>)
    ensures
        keep_and_lower(s) == keep_and_lower(s.filter(|c: char| alphanumeric(c) || is_white_space(c))),
    decreases s.len(),
{
    let f = |c: char| alphanumeric(c) || is_white_space(c);
    if s.len() > 0 {
        let u = s.drop_last();
        let c = s.last();
        lemma_keep_and_lower_filter(u);
        assert(u.push(c) =~= s);
        u.lemma_filter_push(c, f);
        if f(c) {
            let g = u.filter(f).push(c);
            assert(g.drop_last() =~= u.filter(f));
            assert(g.last() == c);
        }
    } else {
        assert(s.filter(f) =~= s);
    }
}

/// On ASCII text too, characters that are neither letters, digits nor
/// white space leave no trace: deleting them first gives the same result.
pub proof fn law_ascii_normalizing_drops_punctuation(s: Seq<char>)
    ensures
        ascii_normalized(s) == ascii_normalized(s.filter(|c: char| is_ascii_alnum(c) || is_white_space(c))),
{
    lemma_ascii_keep_lower_filter(s);
}

proof fn lemma_ascii_keep_lower_filter(s: Seq<char>)
    ensures
        ascii_keep_lower(s) == ascii_keep_lower(s.filter(|c: char| is_ascii_alnum(c) || is_white_space(c))),
    decreases s.len(),
{
    let f = |c: char| is_ascii_alnum(c) || is_white_space(c);
    if s.len() > 0 {
        let u = s.drop_last();
        let c = s.last();
        lemma_ascii_keep_lower_filter(u);
        assert(u.push(c) =~= s);
        u.lemma_filter_push(c, f);
        if f(c) {
            let g = u.filter(f).push(c);
            assert(g.drop_last() =~= u.filter(f));
            assert(g.last() == c);
        }
    } else {
        assert(s.filter(f) =~= s);
    }
}

} // verus!

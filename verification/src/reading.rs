use vstd::prelude::*;

use crate::models::{
    BrowserState, DirectorState, FontColorPreset, ListeningMode, StartReadingRequest, WordItem,
    css_color_of,
};
use crate::text::{
    build_word_items, char_offset_for_progress_parts, is_blank, lemma_offsets_fit_total,
    locate_char_offset, offsets_fit, progress_offset, split_text_into_words, split_words,
    string_seqs, text_is_blank, total_char_count, total_chars, trim, trim_text,
    word_items_match, word_progress_parts, string_from_chars, chars_of, word_start,
};

verus! {

// ---------------------------------------------------------------------------
// Pages
// ---------------------------------------------------------------------------

/// The words shown for a page: the words of its trimmed text.
pub open spec fn page_words(p: Seq<char>) -> Seq<Seq<char>> {
    split_words(trim(p))
}

/// The character counts computed for the page's words fit in `usize`.
pub open spec fn page_fits(p: Seq<char>) -> bool {
    offsets_fit(page_words(p))
}

/// Every page of a document fits.
pub open spec fn all_pages_fit(pages: Seq<Seq<char>>) -> bool {
    forall|i: int| 0 <= i < pages.len() ==> page_fits(#[trigger] pages[i])
}

/// Some page after `cur` has text that is not just white space.
pub open spec fn has_next_page_spec(pages: Seq<Seq<char>>, cur: int) -> bool {
    exists|j: int| cur < j < pages.len() && !is_blank(#[trigger] pages[j])
}

/// The first page, from index `i` on, that is not blank.
pub open spec fn next_non_blank_from(pages: Seq<Seq<char>>, i: int) -> Option<int>
    decreases pages.len() - i,
{
    if i >= pages.len() {
        None
    } else if !is_blank(pages[i]) {
        Some(i)
    } else {
        next_non_blank_from(pages, i + 1)
    }
}

/// The first page after `cur` that is not blank.
pub open spec fn next_non_empty_spec(pages: Seq<Seq<char>>, cur: int) -> Option<int> {
    next_non_blank_from(pages, cur + 1)
}

/// The next non-blank page from `i` on is the first such page: every page
/// between `i` and it is blank; when there is none, all pages from `i` on
/// are blank.
pub proof fn law_next_non_blank_is_first(pages: Seq<Seq<char>>, i: int)
    requires
        0 <= i,
    ensures
        next_non_blank_from(pages, i) matches Some(j) ==> {
            &&& i <= j < pages.len()
            &&& !is_blank(pages[j])
            &&& forall|k: int| i <= k < j ==> is_blank(#[trigger] pages[k])
        },
        next_non_blank_from(pages, i) is None ==> forall|k: int|
            i <= k < pages.len() ==> is_blank(#[trigger] pages[k]),
    decreases pages.len() - i,
{
    if i < pages.len() && is_blank(pages[i]) {
        law_next_non_blank_is_first(pages, i + 1);
    }
}

proof fn lemma_next_non_blank_skip(pages: Seq<Seq<char>>, i: int, j: int)
    requires
        0 <= i <= j,
        forall|k: int| i <= k < j ==> is_blank(#[trigger] pages[k]),
        j <= pages.len(),
    ensures
        next_non_blank_from(pages, i) == next_non_blank_from(pages, j),
    decreases j - i,
{
    if i < j {
        lemma_next_non_blank_skip(pages, i + 1, j);
    }
}

/// There is a next page exactly when a next non-empty page can be found.
pub proof fn law_has_next_iff_next_page(pages: Seq<Seq<char>>, cur: int)
    requires
        0 <= cur,
    ensures
        has_next_page_spec(pages, cur) <==> next_non_empty_spec(pages, cur) is Some,
{
    law_next_non_blank_is_first(pages, cur + 1);
}

pub fn has_next_page(pages: &Vec<String>, current_page_index: usize) -> (r: bool)
    ensures
        r == has_next_page_spec(string_seqs(pages@), current_page_index as int),
{
    let ghost ps = string_seqs(pages@);
    let n = pages.len();
    if current_page_index >= n {
        return false;
    }
    let start = current_page_index + 1;
    if start >= n {
        return false;
    }
    for j in start..n
        invariant
            n == pages.len(),
            ps == string_seqs(pages@),
            start == current_page_index + 1,
            forall|k: int| start <= k < j ==> is_blank(#[trigger] ps[k]),
    {
        if !text_is_blank(pages[j].as_str()) {
            assert(!is_blank(ps[j as int]));
            return true;
        }
    }
    false
}

pub fn next_non_empty_page(pages: &Vec<String>, current_page_index: usize) -> (r: Option<usize>)
    ensures
        r matches Some(j) ==> next_non_empty_spec(string_seqs(pages@), current_page_index as int)
            == Some(j as int),
        r is None ==> next_non_empty_spec(string_seqs(pages@), current_page_index as int) is None,
{
    let ghost ps = string_seqs(pages@);
    let n = pages.len();
    if current_page_index >= n {
        return None;
    }
    let start = current_page_index + 1;
    if start >= n {
        return None;
    }
    for j in start..n
        invariant
            n == pages.len(),
            ps == string_seqs(pages@),
            start == current_page_index + 1,
            start < n,
            forall|k: int| start <= k < j ==> is_blank(#[trigger] ps[k]),
    {
        if !text_is_blank(pages[j].as_str()) {
            proof {
                lemma_next_non_blank_skip(ps, start as int, j as int);
            }
            return Some(j);
        }
    }
    proof {
        lemma_next_non_blank_skip(ps, start as int, n as int);
    }
    None
}

/// Whether the offsets computed for these words fit in `usize`.
pub fn words_fit(words: &Vec<String>) -> (r: bool)
    ensures
        r == offsets_fit(string_seqs(words@)),
{
    let ghost ws = string_seqs(words@);
    let n = words.len();
    let mut offset: usize = 0;
    for i in 0..n
        invariant
            n == words.len(),
            ws == string_seqs(words@),
            offset == word_start(ws, i as int),
    {
        let len = crate::text::char_count(words[i].as_str());
        assert(len == ws[i as int].len());
        assert(word_start(ws, i + 1) == offset + len + 1);
        match offset.checked_add(len) {
            Some(a) => match a.checked_add(1) {
                Some(b) => {
                    offset = b;
                },
                None => {
                    proof {
                        crate::text::lemma_word_start_mono(ws, i + 1, n as int);
                    }
                    return false;
                },
            },
            None => {
                proof {
                    crate::text::lemma_word_start_mono(ws, i + 1, n as int);
                }
                return false;
            },
        }
    }
    true
}

/// Whether the computed word offsets of a page fit in `usize`.
pub fn page_fits_text(page: &str) -> (r: bool)
    ensures
        r == page_fits(page@),
{
    let words = split_text_into_words(trim_text(page));
    words_fit(&words)
}

/// Whether every page fits.
pub fn pages_fit(pages: &Vec<String>) -> (r: bool)
    ensures
        r == all_pages_fit(string_seqs(pages@)),
{
    let ghost ps = string_seqs(pages@);
    let n = pages.len();
    for i in 0..n
        invariant
            n == pages.len(),
            ps == string_seqs(pages@),
            forall|k: int| 0 <= k < i ==> page_fits(#[trigger] ps[k]),
    {
        if !page_fits_text(pages[i].as_str()) {
            assert(!page_fits(ps[i as int]));
            return false;
        }
    }
    true
}

// ---------------------------------------------------------------------------
// Reading state
// ---------------------------------------------------------------------------

/// What the prompter shows and how far the reader has come.
#[derive(Debug)]
pub struct ReadingState {
    pub pages: Vec<String>,
    pub current_page_index: usize,
    pub read_pages: Vec<usize>,
    pub is_running: bool,
    pub words: Vec<String>,
    pub word_items: Vec<WordItem>,
    pub total_char_count: usize,
    pub recognized_char_count: usize,
    pub has_next_page: bool,
    pub listening_mode: ListeningMode,
    pub last_spoken_text: String,
}

/// The trimmed text of the current page, or nothing when the index is out
/// of range.
pub open spec fn current_text(pages: Seq<Seq<char>>, cur: int) -> Seq<char> {
    if 0 <= cur < pages.len() {
        trim(pages[cur])
    } else {
        Seq::empty()
    }
}

impl ReadingState {
    pub open spec fn pages_view(&self) -> Seq<Seq<char>> {
        string_seqs(self.pages@)
    }

    pub open spec fn words_view(&self) -> Seq<Seq<char>> {
        string_seqs(self.words@)
    }

    /// Words, word items, counts and the next-page flag are derived from
    /// the current page, and the reading position lies within the words.
    pub open spec fn content_matches_page(&self) -> bool {
        &&& self.words_view() == split_words(
            current_text(self.pages_view(), self.current_page_index as int),
        )
        &&& word_items_match(self.word_items@, self.words_view())
        &&& self.total_char_count == total_chars(self.words_view())
        &&& self.has_next_page == has_next_page_spec(
            self.pages_view(),
            self.current_page_index as int,
        )
        &&& self.recognized_char_count <= self.total_char_count
    }

    /// The invariant of the reading state: there is a page, the index
    /// points at one, every page fits, the content is derived from the
    /// current page and no page is listed twice as read.
    pub open spec fn well_formed(&self) -> bool {
        &&& self.pages.len() > 0
        &&& self.current_page_index < self.pages.len()
        &&& all_pages_fit(self.pages_view())
        &&& self.content_matches_page()
        &&& self.read_pages@.no_duplicates()
    }

    /// Everything but the derived content is the same.
    pub open spec fn same_outside_content(&self, other: &ReadingState) -> bool {
        &&& self.pages@ == other.pages@
        &&& self.current_page_index == other.current_page_index
        &&& self.read_pages@ == other.read_pages@
        &&& self.is_running == other.is_running
        &&& self.listening_mode == other.listening_mode
        &&& self.last_spoken_text@ == other.last_spoken_text@
    }
}

/// The state before any document is loaded: one empty page.
pub open spec fn is_initial_reading_state(s: ReadingState) -> bool {
    &&& s.pages@.len() == 1
    &&& s.pages@[0]@ == Seq::<char>::empty()
    &&& s.current_page_index == 0
    &&& s.read_pages@.len() == 0
    &&& !s.is_running
    &&& s.words@.len() == 0
    &&& s.word_items@.len() == 0
    &&& s.total_char_count == 0
    &&& s.recognized_char_count == 0
    &&& !s.has_next_page
    &&& s.listening_mode == ListeningMode::WordTracking
    &&& s.last_spoken_text@ == Seq::<char>::empty()
}

impl Default for ReadingState {
    fn default() -> (r: Self)
        ensures
            is_initial_reading_state(r),
    {
        let mut pages: Vec<String> = Vec::new();
        pages.push(String::new());
        ReadingState {
            pages,
            current_page_index: 0,
            read_pages: Vec::new(),
            is_running: false,
            words: Vec::new(),
            word_items: Vec::new(),
            total_char_count: 0,
            recognized_char_count: 0,
            has_next_page: false,
            listening_mode: ListeningMode::WordTracking,
            last_spoken_text: String::new(),
        }
    }
}

/// The initial state is well formed.
pub proof fn law_initial_state_well_formed(s: ReadingState)
    requires
        is_initial_reading_state(s),
    ensures
        s.well_formed(),
{
    assert(s.pages_view() =~= seq![Seq::<char>::empty()]);
    assert(trim(Seq::<char>::empty()) =~= Seq::<char>::empty());
    assert(s.words_view() =~= Seq::<Seq<char>>::empty());
    assert(split_words(Seq::<char>::empty()) =~= Seq::<Seq<char>>::empty());
    assert(page_words(Seq::<char>::empty()) =~= Seq::<Seq<char>>::empty());
    assert(word_start(Seq::<Seq<char>>::empty(), 0) == 0);
    assert(all_pages_fit(s.pages_view()));
    assert(total_chars(s.words_view()) == 0);
}

fn clone_strings(v: &Vec<String>) -> (r: Vec<String>)
    ensures
        r@ == v@,
{
    let mut r: Vec<String> = Vec::new();
    let n = v.len();
    for i in 0..n
        invariant
            n == v.len(),
            r@ =~= v@.take(i as int),
    {
        r.push(v[i].clone());
        assert(r@ =~= v@.take(i + 1));
    }
    assert(v@.take(n as int) =~= v@);
    r
}

/// Recomputes the words, word items, character count and next-page flag
/// from the current page, and keeps the reading position within the words.
pub fn rebuild_reading_content(state: &mut ReadingState)
    requires
        old(state).current_page_index < old(state).pages.len() ==> page_fits(
            old(state).pages@[old(state).current_page_index as int]@,
        ),
    ensures
        final(state).same_outside_content(old(state)),
        final(state).content_matches_page(),
        final(state).recognized_char_count == (if old(state).recognized_char_count
            < final(state).total_char_count {
            old(state).recognized_char_count
        } else {
            final(state).total_char_count
        }),
{
    let ghost ps = state.pages_view();
    let cur = state.current_page_index;
    let words = if cur < state.pages.len() {
        split_text_into_words(trim_text(state.pages[cur].as_str()))
    } else {
        let empty: Vec<String> = Vec::new();
        proof {
            assert(split_words(Seq::<char>::empty()) =~= Seq::<Seq<char>>::empty());
            assert(string_seqs(empty@) =~= Seq::<Seq<char>>::empty());
        }
        empty
    };
    proof {
        assert(string_seqs(words@) == split_words(current_text(ps, cur as int)));
        if cur < ps.len() {
            assert(ps[cur as int] == state.pages@[cur as int]@);
        } else {
            assert(offsets_fit(string_seqs(words@))) by {
                assert(word_start(string_seqs(words@), 0) == 0);
            }
        }
        lemma_offsets_fit_total(string_seqs(words@));
    }
    let items = build_word_items(&words);
    let total = total_char_count(&words);
    let next = has_next_page(&state.pages, cur);
    state.words = words;
    state.word_items = items;
    state.total_char_count = total;
    state.has_next_page = next;
    if state.recognized_char_count > total {
        state.recognized_char_count = total;
    }
}

/// The pages to read: the given ones, or a single empty page when none are
/// given.
pub open spec fn pages_or_blank(pages: Seq<Seq<char>>) -> Seq<Seq<char>> {
    if pages.len() == 0 {
        seq![Seq::<char>::empty()]
    } else {
        pages
    }
}

/// The requested page index, clamped to the last page.
pub open spec fn clamped_index(requested: int, page_count: int) -> int {
    if requested < page_count - 1 {
        requested
    } else {
        page_count - 1
    }
}

/// `read` with `index` added unless it is there already.
pub open spec fn mark_read(read: Seq<usize>, index: usize) -> Seq<usize> {
    if read.contains(index) {
        read
    } else {
        read.push(index)
    }
}

proof fn lemma_mark_read_no_duplicates(read: Seq<usize>, index: usize)
    requires
        read.no_duplicates(),
    ensures
        mark_read(read, index).no_duplicates(),
{
    if !read.contains(index) {
        let r = read.push(index);
        assert forall|i: int, j: int| 0 <= i < r.len() && 0 <= j < r.len() && i != j implies r[i]
            != r[j] by {
            if i < read.len() && j < read.len() {
            } else if i == read.len() {
                assert(r[j] == read[j]);
            } else {
                assert(r[i] == read[i]);
            }
        }
    }
}

fn contains_index(v: &Vec<usize>, x: usize) -> (r: bool)
    ensures
        r == v@.contains(x),
{
    let n = v.len();
    for i in 0..n
        invariant
            n == v.len(),
            forall|k: int| 0 <= k < i ==> v@[k] != x,
    {
        if v[i] == x {
            assert(v@[i as int] == x);
            return true;
        }
    }
    false
}

fn mark_page_read(read: &mut Vec<usize>, index: usize)
    ensures
        final(read)@ == mark_read(old(read)@, index),
{
    if !contains_index(read, index) {
        read.push(index);
    }
}

fn pages_or_blank_exec(pages: Vec<String>) -> (r: Vec<String>)
    ensures
        string_seqs(r@) == pages_or_blank(string_seqs(pages@)),
        r.len() > 0,
{
    if pages.len() == 0 {
        let mut one: Vec<String> = Vec::new();
        one.push(String::new());
        assert(string_seqs(one@) =~= seq![Seq::<char>::empty()]);
        one
    } else {
        pages
    }
}

proof fn lemma_all_pages_fit_or_blank(pages: Seq<Seq<char>>)
    requires
        all_pages_fit(pages),
    ensures
        all_pages_fit(pages_or_blank(pages)),
{
    if pages.len() == 0 {
        assert(trim(Seq::<char>::empty()) =~= Seq::<char>::empty());
        assert(split_words(Seq::<char>::empty()) =~= Seq::<Seq<char>>::empty());
        assert(word_start(page_words(Seq::<char>::empty()), 0) == 0);
        assert(page_fits(pages_or_blank(pages)[0]));
    }
}

/// Loads the pages to read without starting: the position, the read pages
/// and the running flag are reset and the content is rebuilt.
pub fn set_pages(state: &mut ReadingState, request: StartReadingRequest, listening_mode: ListeningMode)
    requires
        all_pages_fit(string_seqs(request.pages@)),
    ensures
        final(state).pages_view() == pages_or_blank(string_seqs(request.pages@)),
        final(state).current_page_index == clamped_index(
            request.current_page_index as int,
            final(state).pages@.len() as int,
        ),
        final(state).read_pages@.len() == 0,
        !final(state).is_running,
        final(state).recognized_char_count == 0,
        final(state).listening_mode == listening_mode,
        final(state).last_spoken_text@ == old(state).last_spoken_text@,
        final(state).content_matches_page(),
        final(state).well_formed(),
{
    let ghost req_pages = string_seqs(request.pages@);
    let pages = pages_or_blank_exec(request.pages);
    let last = pages.len() - 1;
    let index = if request.current_page_index < last { request.current_page_index } else { last };
    state.pages = pages;
    state.current_page_index = index;
    state.read_pages = Vec::new();
    state.is_running = false;
    state.recognized_char_count = 0;
    state.listening_mode = listening_mode;
    proof {
        lemma_all_pages_fit_or_blank(req_pages);
        assert(page_fits(state.pages_view()[index as int]));
    }
    rebuild_reading_content(state);
    assert(state.read_pages@.no_duplicates());
}

/// Starts reading at the requested page. Fails, changing nothing, when that
/// page is blank.
pub fn start_reading(
    state: &mut ReadingState,
    request: StartReadingRequest,
    listening_mode: ListeningMode,
) -> (r: Result<(), String>)
    requires
        all_pages_fit(string_seqs(request.pages@)),
    ensures
        ({
            let pages = pages_or_blank(string_seqs(request.pages@));
            let index = clamped_index(request.current_page_index as int, pages.len() as int);
            if is_blank(pages[index]) {
                &&& r matches Err(e) && e@ == "Current page is empty"@
                &&& *final(state) == *old(state)
            } else {
                &&& r is Ok
                &&& final(state).pages_view() == pages
                &&& final(state).current_page_index == index
                &&& final(state).read_pages@ == mark_read(old(state).read_pages@, index as usize)
                &&& final(state).is_running
                &&& final(state).recognized_char_count == 0
                &&& final(state).last_spoken_text@ == Seq::<char>::empty()
                &&& final(state).listening_mode == listening_mode
                &&& final(state).content_matches_page()
            }
        }),
        old(state).well_formed() ==> final(state).well_formed(),
{
    let ghost req_pages = string_seqs(request.pages@);
    let pages = pages_or_blank_exec(request.pages);
    let last = pages.len() - 1;
    let index = if request.current_page_index < last { request.current_page_index } else { last };
    if text_is_blank(pages[index].as_str()) {
        return Err(String::from_str("Current page is empty"));
    }
    proof {
        lemma_all_pages_fit_or_blank(req_pages);
        assert(page_fits(string_seqs(pages@)[index as int]));
        if old(state).well_formed() {
            lemma_mark_read_no_duplicates(old(state).read_pages@, index);
        }
    }
    state.pages = pages;
    state.current_page_index = index;
    mark_page_read(&mut state.read_pages, index);
    state.is_running = true;
    state.recognized_char_count = 0;
    state.last_spoken_text = String::new();
    state.listening_mode = listening_mode;
    rebuild_reading_content(state);
    Ok(())
}

/// Stops reading and resets the position.
pub fn stop_reading(state: &mut ReadingState)
    ensures
        final(state).pages@ == old(state).pages@,
        final(state).current_page_index == old(state).current_page_index,
        final(state).read_pages@ == old(state).read_pages@,
        !final(state).is_running,
        final(state).words@ == old(state).words@,
        final(state).word_items@ == old(state).word_items@,
        final(state).total_char_count == old(state).total_char_count,
        final(state).recognized_char_count == 0,
        final(state).has_next_page == old(state).has_next_page,
        final(state).listening_mode == old(state).listening_mode,
        final(state).last_spoken_text@ == old(state).last_spoken_text@,
        old(state).well_formed() ==> final(state).well_formed(),
{
    state.is_running = false;
    state.recognized_char_count = 0;
}

/// Moves on to the next page that is not blank. Fails, changing nothing,
/// when there is none.
pub fn next_page(state: &mut ReadingState) -> (r: Result<(), String>)
    requires
        all_pages_fit(old(state).pages_view()),
    ensures
        match next_non_empty_spec(old(state).pages_view(), old(state).current_page_index as int) {
            None => {
                &&& r matches Err(e) && e@ == "No next page"@
                &&& *final(state) == *old(state)
            },
            Some(j) => {
                &&& r is Ok
                &&& final(state).pages@ == old(state).pages@
                &&& final(state).current_page_index == j
                &&& final(state).read_pages@ == mark_read(old(state).read_pages@, j as usize)
                &&& final(state).is_running == old(state).is_running
                &&& final(state).recognized_char_count == 0
                &&& final(state).listening_mode == old(state).listening_mode
                &&& final(state).last_spoken_text@ == old(state).last_spoken_text@
                &&& final(state).content_matches_page()
            },
        },
        old(state).well_formed() ==> final(state).well_formed(),
{
    let next = next_non_empty_page(&state.pages, state.current_page_index);
    let _page_count = state.pages.len();
    match next {
        None => Err(String::from_str("No next page")),
        Some(next_index) => {
            proof {
                law_next_non_blank_is_first(state.pages_view(), state.current_page_index + 1);
                assert(next_index < state.pages_view().len());
                assert(state.pages_view().len() == state.pages@.len());
                if old(state).well_formed() {
                    lemma_mark_read_no_duplicates(old(state).read_pages@, next_index);
                }
            }
            state.current_page_index = next_index;
            mark_page_read(&mut state.read_pages, next_index);
            state.recognized_char_count = 0;
            rebuild_reading_content(state);
            Ok(())
        },
    }
}

/// Moves the reading position to a character offset (capped at the total)
/// and returns the reading progress there, as `word_progress_parts` gives it.
pub fn jump_to_char(state: &mut ReadingState, char_offset: usize) -> (r: (usize, usize, usize))
    requires
        offsets_fit(old(state).words_view()),
    ensures
        final(state).recognized_char_count == (if char_offset < old(state).total_char_count {
            char_offset
        } else {
            old(state).total_char_count
        }),
        (r.0 as int, r.1 as int, r.2 as int) == word_progress_parts(
            old(state).words_view(),
            final(state).recognized_char_count as int,
        ),
        final(state).pages@ == old(state).pages@,
        final(state).current_page_index == old(state).current_page_index,
        final(state).read_pages@ == old(state).read_pages@,
        final(state).is_running == old(state).is_running,
        final(state).words@ == old(state).words@,
        final(state).word_items@ == old(state).word_items@,
        final(state).total_char_count == old(state).total_char_count,
        final(state).has_next_page == old(state).has_next_page,
        final(state).listening_mode == old(state).listening_mode,
        final(state).last_spoken_text@ == old(state).last_spoken_text@,
        old(state).well_formed() ==> final(state).well_formed(),
{
    let total = state.total_char_count;
    state.recognized_char_count = if char_offset < total { char_offset } else { total };
    locate_char_offset(&state.words, state.recognized_char_count)
}

/// Sets the reading position from a progress of `whole_word` full words
/// and `partial_chars` characters into the next word.
pub fn update_timer_progress(state: &mut ReadingState, whole_word: usize, partial_chars: usize)
    requires
        offsets_fit(old(state).words_view()),
    ensures
        final(state).recognized_char_count == progress_offset(
            old(state).words_view(),
            whole_word as int,
            partial_chars as int,
        ),
        final(state).pages@ == old(state).pages@,
        final(state).current_page_index == old(state).current_page_index,
        final(state).read_pages@ == old(state).read_pages@,
        final(state).is_running == old(state).is_running,
        final(state).words@ == old(state).words@,
        final(state).word_items@ == old(state).word_items@,
        final(state).total_char_count == old(state).total_char_count,
        final(state).has_next_page == old(state).has_next_page,
        final(state).listening_mode == old(state).listening_mode,
        final(state).last_spoken_text@ == old(state).last_spoken_text@,
        old(state).well_formed() ==> final(state).well_formed(),
{
    state.recognized_char_count = char_offset_for_progress_parts(
        &state.words,
        whole_word,
        partial_chars,
    );
}

/// Replaces the pages by the director's text (trimmed) and keeps reading
/// from the given position, capped at the new total. Fails, changing
/// nothing, when the text is blank.
pub fn update_director_text(state: &mut ReadingState, text: String, read_char_count: usize) -> (r:
    Result<(), String>)
    requires
        page_fits(trim(text@)),
    ensures
        trim(text@).len() == 0 ==> {
            &&& r matches Err(e) && e@ == "Director text is empty"@
            &&& *final(state) == *old(state)
        },
        trim(text@).len() > 0 ==> {
            &&& r is Ok
            &&& final(state).pages_view() == seq![trim(text@)]
            &&& final(state).current_page_index == 0
            &&& final(state).read_pages@ == old(state).read_pages@
            &&& final(state).is_running
            &&& final(state).recognized_char_count == (if read_char_count
                < final(state).total_char_count {
                read_char_count
            } else {
                final(state).total_char_count
            })
            &&& final(state).listening_mode == old(state).listening_mode
            &&& final(state).last_spoken_text@ == old(state).last_spoken_text@
            &&& final(state).content_matches_page()
        },
        old(state).well_formed() ==> final(state).well_formed(),
{
    let trimmed = trim_text(text.as_str());
    if trimmed.unicode_len() == 0 {
        return Err(String::from_str("Director text is empty"));
    }
    let page = String::from_str(trimmed);
    let mut pages: Vec<String> = Vec::new();
    pages.push(page);
    proof {
        assert(string_seqs(pages@) =~= seq![trim(text@)]);
    }
    state.pages = pages;
    state.current_page_index = 0;
    state.is_running = true;
    state.recognized_char_count = read_char_count;
    rebuild_reading_content(state);
    Ok(())
}

fn css_color_string(preset: FontColorPreset) -> (r: String)
    ensures
        r@ == css_color_of(preset),
{
    String::from_str(preset.css_color())
}

/// The reading position, capped at the total.
pub open spec fn effective_count(reading: ReadingState) -> int {
    if reading.recognized_char_count < reading.total_char_count {
        reading.recognized_char_count as int
    } else {
        reading.total_char_count as int
    }
}

/// Reading is listening to speech when it runs in a mode other than
/// classic scrolling.
pub open spec fn listening_spec(reading: ReadingState) -> bool {
    reading.is_running && reading.listening_mode != ListeningMode::Classic
}

/// The page is done when it has text and the position reached its end.
pub open spec fn done_spec(reading: ReadingState) -> bool {
    reading.total_char_count > 0 && effective_count(reading) >= reading.total_char_count
}

/// What remote viewers are sent.
pub fn browser_state(reading: &ReadingState, font_color: FontColorPreset, cue_color: FontColorPreset) -> (r:
    BrowserState)
    ensures
        r.words@ == reading.words@,
        r.highlighted_char_count == effective_count(*reading),
        r.total_char_count == reading.total_char_count,
        r.is_listening == listening_spec(*reading),
        r.is_done == done_spec(*reading),
        r.font_color@ == css_color_of(font_color),
        r.cue_color@ == css_color_of(cue_color),
        r.has_next_page == reading.has_next_page,
        r.is_active == reading.is_running,
        r.highlight_words == (reading.listening_mode == ListeningMode::WordTracking),
        r.last_spoken_text@ == reading.last_spoken_text@,
{
    let total = reading.total_char_count;
    let effective = if reading.recognized_char_count < total {
        reading.recognized_char_count
    } else {
        total
    };
    BrowserState {
        words: clone_strings(&reading.words),
        highlighted_char_count: effective,
        total_char_count: total,
        is_listening: reading.is_running && reading.listening_mode != ListeningMode::Classic,
        is_done: total > 0 && effective >= total,
        font_color: css_color_string(font_color),
        cue_color: css_color_string(cue_color),
        has_next_page: reading.has_next_page,
        is_active: reading.is_running,
        highlight_words: reading.listening_mode == ListeningMode::WordTracking,
        last_spoken_text: reading.last_spoken_text.clone(),
    }
}

/// What director clients are sent.
pub fn director_state(reading: &ReadingState, font_color: FontColorPreset, cue_color: FontColorPreset) -> (r:
    DirectorState)
    ensures
        r.words@ == reading.words@,
        r.highlighted_char_count == effective_count(*reading),
        r.total_char_count == reading.total_char_count,
        r.is_active == reading.is_running,
        r.is_done == done_spec(*reading),
        r.is_listening == listening_spec(*reading),
        r.font_color@ == css_color_of(font_color),
        r.cue_color@ == css_color_of(cue_color),
        r.last_spoken_text@ == reading.last_spoken_text@,
{
    let total = reading.total_char_count;
    let effective = if reading.recognized_char_count < total {
        reading.recognized_char_count
    } else {
        total
    };
    DirectorState {
        words: clone_strings(&reading.words),
        highlighted_char_count: effective,
        total_char_count: total,
        is_active: reading.is_running,
        is_done: total > 0 && effective >= total,
        is_listening: reading.is_running && reading.listening_mode != ListeningMode::Classic,
        font_color: css_color_string(font_color),
        cue_color: css_color_string(cue_color),
        last_spoken_text: reading.last_spoken_text.clone(),
    }
}

} // verus!

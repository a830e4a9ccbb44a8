use vstd::prelude::*;

use crate::models::UpdateStatus;
use crate::numbers::{parse_u32, parse_u32_spec};
use crate::text::{char_vecs, chars_of, string_from_chars};

verus! {

/// The pieces of a text between dots, as `str::split('.')` yields them:
/// always at least one, possibly empty.
pub open spec fn split_dots(s: Seq<char>) -> Seq<Seq<char>>
    decreases s.len(),
{
    if s.len() == 0 {
        seq![Seq::<char>::empty()]
    } else {
        let p = split_dots(s.drop_last());
        if s.last() == '.' {
            p.push(Seq::empty())
        } else {
            p.update(p.len() - 1, p.last().push(s.last()))
        }
    }
}

proof fn lemma_split_dots_nonempty(s: Seq<char>)
    ensures
        split_dots(s).len() >= 1,
    decreases s.len(),
{
    if s.len() > 0 {
        lemma_split_dots_nonempty(s.drop_last());
    }
}

/// The numeric parts of a version: each dot-separated piece read as a
/// `u32`, with zero for a piece that is not a number.
pub open spec fn version_numbers(s: Seq<char>) -> Seq<int> {
    split_dots(s).map_values(
        |p: Seq<char>|
            match parse_u32_spec(p) {
                Some(v) => v as int,
                None => 0,
            },
    )
}

/// Part `i` of a version, zero past its end.
pub open spec fn part_at(v: Seq<int>, i: int) -> int {
    if 0 <= i < v.len() {
        v[i]
    } else {
        0
    }
}

/// Compares two versions from part `i` on: the first part that differs
/// decides.
pub open spec fn newer_from(r: Seq<int>, l: Seq<int>, i: int) -> bool
    decreases r.len() + l.len() - i,
{
    if i < 0 || i >= r.len() && i >= l.len() {
        false
    } else if part_at(r, i) != part_at(l, i) {
        part_at(r, i) > part_at(l, i)
    } else {
        newer_from(r, l, i + 1)
    }
}

/// The remote version is newer than the local one.
pub open spec fn is_newer_version(remote: Seq<char>, local: Seq<char>) -> bool {
    newer_from(version_numbers(remote), version_numbers(local), 0)
}

fn split_on_dots(s: &str) -> (r: Vec<Vec<char>>)
    ensures
        char_vecs(r@) == split_dots(s@),
{
    let chars = chars_of(s);
    let n = chars.len();
    let mut parts: Vec<Vec<char>> = Vec::new();
    parts.push(Vec::new());
    proof {
        assert(s@.take(0) =~= Seq::<char>::empty());
        assert(char_vecs(parts@) =~= split_dots(s@.take(0)));
    }
    for i in 0..n
        invariant
            n == chars@.len(),
            chars@ == s@,
            parts@.len() >= 1,
            char_vecs(parts@) == split_dots(s@.take(i as int)),
    {
        let c = chars[i];
        proof {
            assert(s@.take(i + 1).drop_last() =~= s@.take(i as int));
            assert(s@.take(i + 1).last() == c);
        }
        let ghost before = char_vecs(parts@);
        if c == '.' {
            parts.push(Vec::new());
            assert(char_vecs(parts@) =~= before.push(Seq::empty()));
        } else {
            let last = parts.len() - 1;
            let mut piece = parts.remove(last);
            piece.push(c);
            parts.push(piece);
            assert(char_vecs(parts@) =~= before.update(before.len() - 1, before.last().push(c)));
        }
    }
    proof {
        assert(s@.take(n as int) =~= s@);
    }
    parts
}

fn version_parts(s: &str) -> (r: Vec<u32>)
    ensures
        r@.map_values(|x: u32| x as int) == version_numbers(s@),
{
    let parts = split_on_dots(s);
    let n = parts.len();
    let mut r: Vec<u32> = Vec::new();
    for i in 0..n
        invariant
            n == parts.len(),
            char_vecs(parts@) == split_dots(s@),
            r@.map_values(|x: u32| x as int) =~= version_numbers(s@).take(i as int),
    {
        let text = string_from_chars(parts[i].as_slice());
        let v = match parse_u32(text.as_str()) {
            Some(v) => v,
            None => 0,
        };
        assert(text@ == split_dots(s@)[i as int]);
        assert(v as int == version_numbers(s@)[i as int]);
        let ghost prev = r@;
        r.push(v);
        assert(r@ =~= prev.push(v));
        assert(r@.map_values(|x: u32| x as int) =~= prev.map_values(|x: u32| x as int).push(
            v as int,
        ));
        assert(version_numbers(s@).take(i + 1) =~= version_numbers(s@).take(i as int).push(
            version_numbers(s@)[i as int],
        ));
    }
    assert(version_numbers(s@).take(n as int) =~= version_numbers(s@));
    r
}

/// Whether the remote version is newer: the versions are compared part by
/// part, missing parts and parts that are not numbers counting as zero.
pub fn is_version_newer(remote: &str, local: &str) -> (r: bool)
    ensures
        r == is_newer_version(remote@, local@),
{
    let rv = version_parts(remote);
    let lv = version_parts(local);
    let ghost rs = rv@.map_values(|x: u32| x as int);
    let ghost ls = lv@.map_values(|x: u32| x as int);
    let m = if rv.len() > lv.len() { rv.len() } else { lv.len() };
    let mut i: usize = 0;
    while i < m
        invariant
            m == (if rv.len() > lv.len() { rv.len() } else { lv.len() }),
            rs == rv@.map_values(|x: u32| x as int),
            ls == lv@.map_values(|x: u32| x as int),
            rs == version_numbers(remote@),
            ls == version_numbers(local@),
            i <= m,
            newer_from(rs, ls, 0) == newer_from(rs, ls, i as int),
        decreases m - i,
    {
        let a: u32 = if i < rv.len() { rv[i] } else { 0 };
        let b: u32 = if i < lv.len() { lv[i] } else { 0 };
        assert(a == part_at(rs, i as int));
        assert(b == part_at(ls, i as int));
        if a != b {
            return a > b;
        }
        i = i + 1;
    }
    false
}

/// Two equal versions: neither is newer.
pub proof fn law_version_not_newer_than_itself(v: Seq<char>)
    ensures
        !is_newer_version(v, v),
{
    lemma_newer_irreflexive(version_numbers(v), 0);
}

proof fn lemma_newer_irreflexive(v: Seq<int>, i: int)
    ensures
        !newer_from(v, v, i),
    decreases v.len() + v.len() - i,
{
    if 0 <= i && !(i >= v.len()) {
        lemma_newer_irreflexive(v, i + 1);
    }
}

proof fn lemma_newer_asymmetric(r: Seq<int>, l: Seq<int>, i: int)
    ensures
        newer_from(r, l, i) ==> !newer_from(l, r, i),
    decreases r.len() + l.len() - i,
{
    if 0 <= i && !(i >= r.len() && i >= l.len()) && part_at(r, i) == part_at(l, i) {
        lemma_newer_asymmetric(r, l, i + 1);
    }
}

/// Of two versions, at most one is newer than the other.
pub proof fn law_version_newer_asymmetric(a: Seq<char>, b: Seq<char>)
    ensures
        is_newer_version(a, b) ==> !is_newer_version(b, a),
{
    lemma_newer_asymmetric(version_numbers(a), version_numbers(b), 0);
}

proof fn lemma_newer_transitive(a: Seq<int>, b: Seq<int>, c: Seq<int>, i: int)
    requires
        0 <= i,
        newer_from(a, b, i),
        newer_from(b, c, i),
    ensures
        newer_from(a, c, i),
    decreases a.len() + b.len() + c.len() - i,
{
    if part_at(a, i) == part_at(b, i) && part_at(b, i) == part_at(c, i) {
        lemma_newer_transitive(a, b, c, i + 1);
    }
}

/// A version newer than one that is newer than a third is newer than the
/// third.
pub proof fn law_version_newer_transitive(a: Seq<char>, b: Seq<char>, c: Seq<char>)
    requires
        is_newer_version(a, b),
        is_newer_version(b, c),
    ensures
        is_newer_version(a, c),
{
    lemma_newer_transitive(version_numbers(a), version_numbers(b), version_numbers(c), 0);
}

/// A release tag without its leading `v` characters, as
/// `trim_start_matches('v')` leaves it.
pub open spec fn strip_leading_v(s: Seq<char>) -> Seq<char>
    decreases s.len(),
{
    if s.len() > 0 && s[0] == 'v' {
        strip_leading_v(s.drop_first())
    } else {
        s
    }
}

fn strip_v(tag: &str) -> (r: String)
    ensures
        r@ == strip_leading_v(tag@),
{
    let chars = chars_of(tag);
    let n = chars.len();
    let mut i: usize = 0;
    assert(tag@.subrange(0, n as int) =~= tag@);
    while i < n && chars[i] == 'v'
        invariant
            n == chars@.len(),
            chars@ == tag@,
            i <= n,
            strip_leading_v(tag@) == strip_leading_v(tag@.subrange(i as int, n as int)),
        decreases n - i,
    {
        proof {
            let t = tag@.subrange(i as int, n as int);
            assert(t.drop_first() =~= tag@.subrange(i + 1, n as int));
        }
        i = i + 1;
    }
    let rest = tag.substring_char(i, n);
    String::from_str(rest)
}

/// The outcome of an update check, given the running version and either
/// the latest release (tag and page address) or the error of fetching it.
pub fn update_status_from_release(current_version: String, fetched: Result<(String, String), String>) -> (r:
    UpdateStatus)
    ensures
        r.current_version@ == current_version@,
        match fetched {
            Ok((tag, url)) => {
                &&& r.latest_version matches Some(v) && v@ == strip_leading_v(tag@)
                &&& r.release_url matches Some(u) && u@ == url@
                &&& r.is_update_available == is_newer_version(
                    strip_leading_v(tag@),
                    current_version@,
                )
                &&& r.error is None
            },
            Err(e) => {
                &&& r.latest_version is None
                &&& r.release_url is None
                &&& !r.is_update_available
                &&& r.error matches Some(x) && x@ == e@
            },
        },
{
    match fetched {
        Ok((tag, url)) => {
            let latest = strip_v(tag.as_str());
            let available = is_version_newer(latest.as_str(), current_version.as_str());
            UpdateStatus {
                current_version,
                latest_version: Some(latest),
                release_url: Some(url),
                is_update_available: available,
                error: None,
            }
        },
        Err(error) => UpdateStatus {
            current_version,
            latest_version: None,
            release_url: None,
            is_update_available: false,
            error: Some(error),
        },
    }
}

} // verus!

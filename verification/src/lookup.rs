//! Finding hyperlinks in markdown text.
//!
//! Four patterns are recognised, each as a regular language over characters:
//!
//! * inline links `[text](url)`: `\[([^\]]+)\]\(([^)]+)\)`
//! * anchored links `[text]: url`: `\[([^\]]+)\]:\s+(\S+)`
//! * footnote references `[text][n]`: `\[([^\]]+)\]\[(\d+)\]`
//! * footnote targets `[n]: url`: `\[(\d+)\]:\s+(\S+)`
//!
//! Each pattern is matched leftmost-first and without overlap, scanning the
//! text from its start; every quantifier is greedy.  `\s` is the Unicode
//! `White_Space` property.  In these patterns `\d` stands for an ASCII
//! decimal digit only: a footnote marker written with other decimal digits
//! is no footnote match here.

use vstd::prelude::*;
use vstd::string::*;
use crate::text::{char_is_space, chars_of, is_space, substring};

verus! {

/// A hyperlink found in a markdown file: its text and its url.
#[derive(Debug)]
pub struct Hyperlink {
    pub text: String,
    pub url: String,
}

impl View for Hyperlink {
    type V = (Seq<char>, Seq<char>);

    open spec fn view(&self) -> (Seq<char>, Seq<char>) {
        (self.text@, self.url@)
    }
}

impl Clone for Hyperlink {
    fn clone(&self) -> (res: Hyperlink)
        ensures
            res@ == self@,
    {
        Hyperlink { text: self.text.clone(), url: self.url.clone() }
    }
}

impl Default for Hyperlink {
    fn default() -> (res: Hyperlink)
        ensures
            res.text@ == Seq::<char>::empty(),
            res.url@ == Seq::<char>::empty(),
    {
        Hyperlink { text: String::new(), url: String::new() }
    }
}

impl Hyperlink {
    /// The hyperlink with the given text and url.
    pub fn new(text: String, url: String) -> (res: Hyperlink)
        ensures
            res@ == (text@, url@),
    {
        Hyperlink { text, url }
    }
}

/// The character classes used by the link patterns.
#[derive(Clone, Copy)]
pub enum Class {
    /// `[^\]]`
    NotCloseBracket,
    /// `[^)]`
    NotCloseParen,
    /// `\s`
    Space,
    /// `\S`
    NonSpace,
    /// An ASCII decimal digit.
    Digit,
}

/// An ASCII decimal digit.
pub open spec fn is_digit(c: char) -> bool {
    48 <= c as u32 <= 57
}

pub open spec fn in_class(k: Class, c: char) -> bool {
    match k {
        Class::NotCloseBracket => c != ']',
        Class::NotCloseParen => c != ')',
        Class::Space => is_space(c),
        Class::NonSpace => !is_space(c),
        Class::Digit => is_digit(c),
    }
}

fn class_has(k: Class, c: char) -> (res: bool)
    ensures
        res == in_class(k, c),
{
    let v = c as u32;
    let space = char_is_space(c);
    match k {
        Class::NotCloseBracket => c != ']',
        Class::NotCloseParen => c != ')',
        Class::Space => space,
        Class::NonSpace => !space,
        Class::Digit => 48 <= v && v <= 57,
    }
}

/// The end of the longest run of `k`-characters that starts at `i`.
pub open spec fn scan(s: Seq<char>, i: int, k: Class) -> int
    decreases s.len() - i,
{
    if 0 <= i < s.len() && in_class(k, s[i]) {
        scan(s, i + 1, k)
    } else {
        i
    }
}

pub proof fn lemma_scan(s: Seq<char>, i: int, k: Class)
    requires
        0 <= i <= s.len(),
    ensures
        i <= scan(s, i, k) <= s.len(),
        forall|j: int| i <= j < scan(s, i, k) ==> in_class(k, #[trigger] s[j]),
        scan(s, i, k) < s.len() ==> !in_class(k, s[scan(s, i, k)]),
    decreases s.len() - i,
{
    if i < s.len() && in_class(k, s[i]) {
        lemma_scan(s, i + 1, k);
    }
}

fn scan_exec(s: &Vec<char>, i: usize, k: Class) -> (res: usize)
    requires
        i <= s@.len(),
    ensures
        res == scan(s@, i as int, k),
{
    let len = s.len();
    let mut j = i;
    while j < len && class_has(k, s[j])
        invariant
            len == s@.len(),
            i <= j <= len,
            scan(s@, i as int, k) == scan(s@, j as int, k),
        decreases len - j,
    {
        j = j + 1;
    }
    j
}

/// The four link patterns.
#[derive(Clone, Copy)]
pub enum Pattern {
    Inline,
    Anchored,
    FootnoteText,
    FootnoteUrl,
}

/// A match of a pattern: where it ends, and the spans of its two groups.
pub struct Caps {
    pub end: int,
    pub first_start: int,
    pub first_end: int,
    pub second_start: int,
    pub second_end: int,
}

/// A match as the scanner reports it.
pub struct Span {
    pub end: usize,
    pub first_start: usize,
    pub first_end: usize,
    pub second_start: usize,
    pub second_end: usize,
}

impl View for Span {
    type V = Caps;

    open spec fn view(&self) -> Caps {
        Caps {
            end: self.end as int,
            first_start: self.first_start as int,
            first_end: self.first_end as int,
            second_start: self.second_start as int,
            second_end: self.second_end as int,
        }
    }
}

/// `s[i] == c`, within bounds.
pub open spec fn char_at(s: Seq<char>, i: int, c: char) -> bool {
    0 <= i < s.len() && s[i] == c
}

/// `:\s+(\S+)` after a closing bracket at `b`; the group's span.
pub open spec fn colon_target(s: Seq<char>, b: int) -> Option<(int, int)> {
    if char_at(s, b + 1, ':') {
        let e = scan(s, b + 2, Class::Space);
        let f = scan(s, e, Class::NonSpace);
        if e > b + 2 && f > e {
            Some((e, f))
        } else {
            None
        }
    } else {
        None
    }
}

/// The match of `pat` that starts at position `p` of `s`, if there is one.
/// Each pattern has at most one match at a given position: every class run
/// stops at the very character that must follow it.
pub open spec fn match_at(s: Seq<char>, p: int, pat: Pattern) -> Option<Caps> {
    if !char_at(s, p, '[') {
        None
    } else {
        match pat {
            Pattern::Inline => {
                let b = scan(s, p + 1, Class::NotCloseBracket);
                let d = scan(s, b + 2, Class::NotCloseParen);
                if b > p + 1 && char_at(s, b, ']') && char_at(s, b + 1, '(') && d > b + 2
                    && char_at(s, d, ')') {
                    Some(
                        Caps {
                            end: d + 1,
                            first_start: p + 1,
                            first_end: b,
                            second_start: b + 2,
                            second_end: d,
                        },
                    )
                } else {
                    None
                }
            },
            Pattern::Anchored => {
                let b = scan(s, p + 1, Class::NotCloseBracket);
                if b > p + 1 && char_at(s, b, ']') && colon_target(s, b) is Some {
                    let (e, f) = colon_target(s, b)->0;
                    Some(Caps { end: f, first_start: p + 1, first_end: b, second_start: e, second_end: f })
                } else {
                    None
                }
            },
            Pattern::FootnoteText => {
                let b = scan(s, p + 1, Class::NotCloseBracket);
                let e = scan(s, b + 2, Class::Digit);
                if b > p + 1 && char_at(s, b, ']') && char_at(s, b + 1, '[') && e > b + 2
                    && char_at(s, e, ']') {
                    Some(
                        Caps {
                            end: e + 1,
                            first_start: p + 1,
                            first_end: b,
                            second_start: b + 2,
                            second_end: e,
                        },
                    )
                } else {
                    None
                }
            },
            Pattern::FootnoteUrl => {
                let b = scan(s, p + 1, Class::Digit);
                if b > p + 1 && char_at(s, b, ']') && colon_target(s, b) is Some {
                    let (e, f) = colon_target(s, b)->0;
                    Some(Caps { end: f, first_start: p + 1, first_end: b, second_start: e, second_end: f })
                } else {
                    None
                }
            },
        }
    }
}

/// The shape every match has: both groups non-empty, in order, inside `s`,
/// and the match ends after its second group.
pub open spec fn well_placed(s: Seq<char>, p: int, c: Caps) -> bool {
    &&& p < c.first_start < c.first_end < c.second_start < c.second_end <= c.end <= s.len()
}

pub proof fn lemma_match_at_placed(s: Seq<char>, p: int, pat: Pattern)
    ensures
        match_at(s, p, pat) matches Some(c) ==> well_placed(s, p, c),
{
    if char_at(s, p, '[') {
        lemma_scan(s, p + 1, Class::NotCloseBracket);
        lemma_scan(s, p + 1, Class::Digit);
        let b1 = scan(s, p + 1, Class::NotCloseBracket);
        let b2 = scan(s, p + 1, Class::Digit);
        if 0 <= b1 + 2 <= s.len() {
            lemma_scan(s, b1 + 2, Class::NotCloseParen);
            lemma_scan(s, b1 + 2, Class::Digit);
            lemma_scan(s, b1 + 2, Class::Space);
            let e = scan(s, b1 + 2, Class::Space);
            lemma_scan(s, e, Class::NonSpace);
        }
        if 0 <= b2 + 2 <= s.len() {
            lemma_scan(s, b2 + 2, Class::Space);
            let e = scan(s, b2 + 2, Class::Space);
            lemma_scan(s, e, Class::NonSpace);
        }
    }
}

/// All matches of `pat` in `s` from position `i` on: leftmost first, each
/// search resuming where the previous match ended.
pub open spec fn all_matches(s: Seq<char>, i: int, pat: Pattern) -> Seq<Caps>
    decreases s.len() - i,
{
    proof {
        lemma_match_at_placed(s, i, pat);
    }
    if 0 <= i < s.len() {
        match match_at(s, i, pat) {
            Some(c) => seq![c] + all_matches(s, c.end, pat),
            None => all_matches(s, i + 1, pat),
        }
    } else {
        seq![]
    }
}

fn char_at_exec(s: &Vec<char>, i: usize, c: char) -> (res: bool)
    ensures
        res == char_at(s@, i as int, c),
{
    i < s.len() && s[i] == c
}

fn colon_target_exec(s: &Vec<char>, b: usize) -> (res: Option<(usize, usize)>)
    requires
        b < s@.len(),
    ensures
        match res {
            Some((e, f)) => colon_target(s@, b as int) == Some((e as int, f as int)),
            None => colon_target(s@, b as int) is None,
        },
{
    let _len = s.len();
    if !char_at_exec(s, b + 1, ':') {
        return None;
    }
    let e = scan_exec(s, b + 2, Class::Space);
    proof {
        lemma_scan(s@, b + 2, Class::Space);
    }
    let f = scan_exec(s, e, Class::NonSpace);
    if e > b + 2 && f > e {
        Some((e, f))
    } else {
        None
    }
}

fn match_at_exec(s: &Vec<char>, p: usize, pat: Pattern) -> (res: Option<Span>)
    requires
        p < s@.len(),
    ensures
        match res {
            Some(sp) => match_at(s@, p as int, pat) == Some(sp@),
            None => match_at(s@, p as int, pat) is None,
        },
{
    let _len = s.len();
    if s[p] != '[' {
        return None;
    }
    proof {
        lemma_scan(s@, p + 1, Class::NotCloseBracket);
        lemma_scan(s@, p + 1, Class::Digit);
    }
    match pat {
        Pattern::Inline => {
            let b = scan_exec(s, p + 1, Class::NotCloseBracket);
            if !(b > p + 1 && char_at_exec(s, b, ']') && char_at_exec(s, b + 1, '(')) {
                return None;
            }
            let d = scan_exec(s, b + 2, Class::NotCloseParen);
            if d > b + 2 && char_at_exec(s, d, ')') {
                Some(Span { end: d + 1, first_start: p + 1, first_end: b, second_start: b + 2, second_end: d })
            } else {
                None
            }
        },
        Pattern::Anchored => {
            let b = scan_exec(s, p + 1, Class::NotCloseBracket);
            if !(b > p + 1 && char_at_exec(s, b, ']')) {
                return None;
            }
            match colon_target_exec(s, b) {
                Some((e, f)) => Some(
                    Span { end: f, first_start: p + 1, first_end: b, second_start: e, second_end: f },
                ),
                None => None,
            }
        },
        Pattern::FootnoteText => {
            let b = scan_exec(s, p + 1, Class::NotCloseBracket);
            if !(b > p + 1 && char_at_exec(s, b, ']') && char_at_exec(s, b + 1, '[')) {
                return None;
            }
            let e = scan_exec(s, b + 2, Class::Digit);
            if e > b + 2 && char_at_exec(s, e, ']') {
                Some(Span { end: e + 1, first_start: p + 1, first_end: b, second_start: b + 2, second_end: e })
            } else {
                None
            }
        },
        Pattern::FootnoteUrl => {
            let b = scan_exec(s, p + 1, Class::Digit);
            if !(b > p + 1 && char_at_exec(s, b, ']')) {
                return None;
            }
            match colon_target_exec(s, b) {
                Some((e, f)) => Some(
                    Span { end: f, first_start: p + 1, first_end: b, second_start: e, second_end: f },
                ),
                None => None,
            }
        },
    }
}

/// The spans of a sequence of matches.
pub open spec fn spans_view(v: Seq<Span>) -> Seq<Caps> {
    v.map_values(|sp: Span| sp@)
}

fn all_matches_exec(s: &Vec<char>, pat: Pattern) -> (res: Vec<Span>)
    ensures
        spans_view(res@) == all_matches(s@, 0, pat),
{
    let len = s.len();
    let mut res: Vec<Span> = Vec::new();
    let mut i: usize = 0;
    while i < len
        invariant
            len == s@.len(),
            i <= len,
            all_matches(s@, 0, pat) == spans_view(res@) + all_matches(s@, i as int, pat),
        decreases len - i,
    {
        proof {
            lemma_match_at_placed(s@, i as int, pat);
        }
        match match_at_exec(s, i, pat) {
            Some(sp) => {
                let ghost before = spans_view(res@);
                let next = sp.end;
                res.push(sp);
                assert(spans_view(res@) =~= before.push(sp@));
                assert(before + all_matches(s@, i as int, pat) =~= spans_view(res@) + all_matches(
                    s@,
                    next as int,
                    pat,
                ));
                i = next;
            },
            None => {
                i = i + 1;
            },
        }
    }
    assert(all_matches(s@, i as int, pat) =~= Seq::<Caps>::empty());
    assert(spans_view(res@) + Seq::<Caps>::empty() =~= spans_view(res@));
    res
}

/// The text of a match's first group.
pub open spec fn group1(s: Seq<char>, c: Caps) -> Seq<char> {
    s.subrange(c.first_start, c.first_end)
}

/// The text of a match's second group.
pub open spec fn group2(s: Seq<char>, c: Caps) -> Seq<char> {
    s.subrange(c.second_start, c.second_end)
}

/// The `(first group, second group)` pairs of a sequence of matches.
pub open spec fn pairs(s: Seq<char>, cs: Seq<Caps>) -> Seq<(Seq<char>, Seq<char>)> {
    cs.map_values(|c: Caps| (group1(s, c), group2(s, c)))
}

/// The groups of `c` lie inside `s`, in order.
pub open spec fn in_bounds(s: Seq<char>, c: Caps) -> bool {
    0 <= c.first_start <= c.first_end <= c.second_start <= c.second_end <= s.len()
}

/// Each element of `all_matches(s, i, pat)` is the match of `pat` at some
/// position at or after `i`; that position is returned.
pub proof fn lemma_match_origin(s: Seq<char>, i: int, pat: Pattern, k: int) -> (p: int)
    requires
        0 <= k < all_matches(s, i, pat).len(),
    ensures
        i <= p,
        match_at(s, p, pat) == Some(all_matches(s, i, pat)[k]),
    decreases s.len() - i,
{
    lemma_match_at_placed(s, i, pat);
    if 0 <= i < s.len() {
        match match_at(s, i, pat) {
            Some(c) => {
                if k == 0 {
                    i
                } else {
                    let rest = all_matches(s, c.end, pat);
                    assert(all_matches(s, i, pat)[k] == rest[k - 1]);
                    lemma_match_origin(s, c.end, pat, k - 1)
                }
            },
            None => lemma_match_origin(s, i + 1, pat, k),
        }
    } else {
        i
    }
}

pub proof fn lemma_all_matches_in_bounds(s: Seq<char>, pat: Pattern)
    ensures
        forall|k: int|
            0 <= k < all_matches(s, 0, pat).len() ==> in_bounds(s, #[trigger] all_matches(s, 0, pat)[k]),
{
    assert forall|k: int| 0 <= k < all_matches(s, 0, pat).len() implies in_bounds(
        s,
        #[trigger] all_matches(s, 0, pat)[k],
    ) by {
        let p = lemma_match_origin(s, 0, pat, k);
        lemma_match_at_placed(s, p, pat);
    }
}

/// The value of a string of decimal digits.
pub open spec fn digits_value(d: Seq<char>) -> nat
    decreases d.len(),
{
    if d.len() == 0 {
        0
    } else {
        digits_value(d.drop_last()) * 10 + ((d.last() as u32) - 48) as nat
    }
}

/// The footnote number and the text or target of a footnote match: a
/// reference `[text][n]` gives `(n, text)`, a target `[n]: url` gives `(n, url)`.
pub open spec fn entry_of(s: Seq<char>, c: Caps, pat: Pattern) -> (nat, Seq<char>) {
    match pat {
        Pattern::FootnoteUrl => (digits_value(group1(s, c)), group2(s, c)),
        _ => (digits_value(group2(s, c)), group1(s, c)),
    }
}

/// The footnote references of `s`, in order, as `(number, text)`.
pub open spec fn footnote_texts(s: Seq<char>) -> Seq<(nat, Seq<char>)> {
    all_matches(s, 0, Pattern::FootnoteText).map_values(
        |c: Caps| entry_of(s, c, Pattern::FootnoteText),
    )
}

/// The footnote targets of `s`, in order, as `(number, url)`.
pub open spec fn footnote_urls(s: Seq<char>) -> Seq<(nat, Seq<char>)> {
    all_matches(s, 0, Pattern::FootnoteUrl).map_values(
        |c: Caps| entry_of(s, c, Pattern::FootnoteUrl),
    )
}

/// Every footnote number in `s` fits in a `usize`.
pub open spec fn footnotes_fit(s: Seq<char>) -> bool {
    &&& forall|i: int| 0 <= i < footnote_texts(s).len() ==> #[trigger] footnote_texts(s)[i].0 <= usize::MAX
    &&& forall|i: int| 0 <= i < footnote_urls(s).len() ==> #[trigger] footnote_urls(s)[i].0 <= usize::MAX
}

/// The value stored last under key `k`, as a map filled by inserting the
/// entries in order holds it.
pub open spec fn last_for(entries: Seq<(nat, Seq<char>)>, k: nat) -> Option<Seq<char>>
    decreases entries.len(),
{
    if entries.len() == 0 {
        None
    } else if entries.last().0 == k {
        Some(entries.last().1)
    } else {
        last_for(entries.drop_last(), k)
    }
}

/// Entry `i` is the first one with its key.
pub open spec fn first_with_key(entries: Seq<(nat, Seq<char>)>, i: int) -> bool {
    forall|j: int| 0 <= j < i ==> entries[j].0 != entries[i].0
}

/// The footnote links among the first `n` references: for each footnote
/// number, taken at its first reference, the text of its last reference and
/// the url of its last target, when it has a target.
pub open spec fn footnote_pairs_upto(
    texts: Seq<(nat, Seq<char>)>,
    urls: Seq<(nat, Seq<char>)>,
    n: int,
) -> Seq<(Seq<char>, Seq<char>)>
    decreases n,
{
    if n <= 0 {
        seq![]
    } else {
        let prev = footnote_pairs_upto(texts, urls, n - 1);
        let k = texts[n - 1].0;
        if first_with_key(texts, n - 1) && last_for(urls, k) is Some {
            prev.push((last_for(texts, k)->0, last_for(urls, k)->0))
        } else {
            prev
        }
    }
}

/// The footnote links: one per footnote number that has both a reference
/// and a target.
pub open spec fn footnote_pairs(texts: Seq<(nat, Seq<char>)>, urls: Seq<(nat, Seq<char>)>) -> Seq<
    (Seq<char>, Seq<char>),
> {
    footnote_pairs_upto(texts, urls, texts.len() as int)
}

/// The `(text, url)` links of a markdown text: inline links, then anchored
/// links, then footnote links.
pub open spec fn md_links(s: Seq<char>) -> Seq<(Seq<char>, Seq<char>)> {
    pairs(s, all_matches(s, 0, Pattern::Inline)) + pairs(s, all_matches(s, 0, Pattern::Anchored))
        + footnote_pairs(footnote_texts(s), footnote_urls(s))
}

pub proof fn lemma_digits_value_prefix(d: Seq<char>, m: int)
    requires
        0 <= m <= d.len(),
    ensures
        digits_value(d.subrange(0, m)) <= digits_value(d),
    decreases d.len(),
{
    if m < d.len() {
        assert(d.drop_last().subrange(0, m) =~= d.subrange(0, m));
        lemma_digits_value_prefix(d.drop_last(), m);
    } else {
        assert(d.subrange(0, m) =~= d);
    }
}

/// The number that `s[a..b]` spells, when it fits in a `usize`.
pub(crate) fn parse_digits(s: &Vec<char>, a: usize, b: usize) -> (res: Option<usize>)
    requires
        a <= b <= s@.len(),
        forall|j: int| a <= j < b ==> is_digit(#[trigger] s@[j]),
    ensures
        match res {
            Some(v) => v == digits_value(s@.subrange(a as int, b as int)),
            None => digits_value(s@.subrange(a as int, b as int)) > usize::MAX,
        },
{
    let mut v: usize = 0;
    let mut j = a;
    assert(s@.subrange(a as int, a as int) =~= Seq::<char>::empty());
    while j < b
        invariant
            a <= j <= b <= s@.len(),
            forall|i: int| a <= i < b ==> is_digit(#[trigger] s@[i]),
            v == digits_value(s@.subrange(a as int, j as int)),
        decreases b - j,
    {
        let ghost next = s@.subrange(a as int, j + 1);
        assert(next.drop_last() =~= s@.subrange(a as int, j as int));
        assert(is_digit(s@[j as int]));
        let d = (s[j] as u32 - 48) as usize;
        proof {
            assert(s@.subrange(a as int, b as int).subrange(0, j + 1 - a) =~= next);
            lemma_digits_value_prefix(s@.subrange(a as int, b as int), j + 1 - a);
        }
        match v.checked_mul(10) {
            Some(t) => match t.checked_add(d) {
                Some(w) => {
                    v = w;
                },
                None => {
                    return None;
                },
            },
            None => {
                return None;
            },
        }
        j = j + 1;
    }
    Some(v)
}

/// The digits of a footnote number are digits.
pub proof fn lemma_footnote_digits(s: Seq<char>, p: int, pat: Pattern)
    requires
        match_at(s, p, pat) is Some,
    ensures
        pat is FootnoteText ==> forall|j: int|
            match_at(s, p, pat)->0.second_start <= j < match_at(s, p, pat)->0.second_end ==> is_digit(
                #[trigger] s[j],
            ),
        pat is FootnoteUrl ==> forall|j: int|
            match_at(s, p, pat)->0.first_start <= j < match_at(s, p, pat)->0.first_end ==> is_digit(
                #[trigger] s[j],
            ),
{
    lemma_match_at_placed(s, p, pat);
    lemma_scan(s, p + 1, Class::NotCloseBracket);
    lemma_scan(s, p + 1, Class::Digit);
    let b = scan(s, p + 1, Class::NotCloseBracket);
    if pat is FootnoteText {
        lemma_scan(s, b + 2, Class::Digit);
    }
}

/// The exec form of a list of footnote entries.
pub open spec fn entries_view(v: Seq<(usize, String)>) -> Seq<(nat, Seq<char>)> {
    v.map_values(|e: (usize, String)| (e.0 as nat, e.1@))
}

/// The footnote entries of `pat`, or `None` when a footnote number does not
/// fit in a `usize`.
fn entries_exec(text: &str, s: &Vec<char>, pat: Pattern) -> (res: Option<Vec<(usize, String)>>)
    requires
        s@ == text@,
        pat is FootnoteText || pat is FootnoteUrl,
    ensures
        match res {
            Some(v) => {
                &&& entries_view(v@) == all_matches(s@, 0, pat).map_values(
                    |c: Caps| entry_of(s@, c, pat),
                )
                &&& forall|i: int|
                    0 <= i < all_matches(s@, 0, pat).len() ==> entry_of(
                        s@,
                        #[trigger] all_matches(s@, 0, pat)[i],
                        pat,
                    ).0 <= usize::MAX
            },
            None => exists|i: int|
                0 <= i < all_matches(s@, 0, pat).len() && entry_of(
                    s@,
                    #[trigger] all_matches(s@, 0, pat)[i],
                    pat,
                ).0 > usize::MAX,
        },
{
    let spans = all_matches_exec(s, pat);
    let ghost all = all_matches(s@, 0, pat);
    let ghost want = all.map_values(|c: Caps| entry_of(s@, c, pat));
    proof {
        lemma_all_matches_in_bounds(s@, pat);
    }
    let mut v: Vec<(usize, String)> = Vec::new();
    let n = spans.len();
    let mut i: usize = 0;
    while i < n
        invariant
            n == spans@.len(),
            spans_view(spans@) == all,
            all == all_matches(s@, 0, pat),
            want == all.map_values(|c: Caps| entry_of(s@, c, pat)),
            s@ == text@,
            pat is FootnoteText || pat is FootnoteUrl,
            forall|k: int| 0 <= k < all.len() ==> in_bounds(s@, #[trigger] all[k]),
            i <= n,
            entries_view(v@) == want.take(i as int),
            forall|k: int| 0 <= k < i ==> (#[trigger] want[k]).0 <= usize::MAX,
        decreases n - i,
    {
        let sp = &spans[i];
        assert(all[i as int] == sp@);
        let ghost origin = lemma_match_origin(s@, 0, pat, i as int);
        proof {
            lemma_footnote_digits(s@, origin, pat);
        }
        let (ka, kb, va, vb) = match pat {
            Pattern::FootnoteUrl => (sp.first_start, sp.first_end, sp.second_start, sp.second_end),
            _ => (sp.second_start, sp.second_end, sp.first_start, sp.first_end),
        };
        match parse_digits(s, ka, kb) {
            Some(key) => {
                let value = substring(text, va, vb);
                let ghost before = entries_view(v@);
                v.push((key, value));
                assert(entries_view(v@) =~= before.push((key as nat, value@)));
                assert(want.take(i + 1) =~= want.take(i as int).push(want[i as int]));
            },
            None => {
                assert(want[i as int].0 > usize::MAX);
                return None;
            },
        }
        i = i + 1;
    }
    assert(want.take(n as int) =~= want);
    assert forall|k: int| 0 <= k < all.len() implies entry_of(s@, #[trigger] all[k], pat).0
        <= usize::MAX by {
        assert(want[k] == entry_of(s@, all[k], pat));
    }
    Some(v)
}

/// The index of the last entry with key `k`.
fn last_index(v: &Vec<(usize, String)>, k: usize) -> (res: Option<usize>)
    ensures
        match res {
            Some(j) => j < v@.len() && last_for(entries_view(v@), k as nat) == Some(v@[j as int].1@),
            None => last_for(entries_view(v@), k as nat) is None,
        },
{
    let ghost e = entries_view(v@);
    let mut j = v.len();
    assert(e.take(j as int) =~= e);
    while j > 0
        invariant
            j <= v@.len(),
            e == entries_view(v@),
            last_for(e, k as nat) == last_for(e.take(j as int), k as nat),
        decreases j,
    {
        assert(e.take(j as int).drop_last() =~= e.take(j - 1));
        if v[j - 1].0 == k {
            return Some(j - 1);
        }
        j = j - 1;
    }
    None
}

/// Whether entry `i` is the first with its key.
fn is_first_with_key(v: &Vec<(usize, String)>, i: usize) -> (res: bool)
    requires
        i < v@.len(),
    ensures
        res == first_with_key(entries_view(v@), i as int),
{
    let mut j: usize = 0;
    while j < i
        invariant
            i < v@.len(),
            j <= i,
            forall|m: int| 0 <= m < j ==> entries_view(v@)[m].0 != entries_view(v@)[i as int].0,
        decreases i - j,
    {
        if v[j].0 == v[i].0 {
            assert(entries_view(v@)[j as int].0 == entries_view(v@)[i as int].0);
            return false;
        }
        j = j + 1;
    }
    true
}

fn footnote_pairs_exec(texts: &Vec<(usize, String)>, urls: &Vec<(usize, String)>) -> (res: Vec<
    (String, String),
>)
    ensures
        res.deep_view() == footnote_pairs(entries_view(texts@), entries_view(urls@)),
{
    let ghost te = entries_view(texts@);
    let ghost ue = entries_view(urls@);
    let mut res: Vec<(String, String)> = Vec::new();
    let n = texts.len();
    let mut i: usize = 0;
    while i < n
        invariant
            n == texts@.len(),
            te == entries_view(texts@),
            ue == entries_view(urls@),
            i <= n,
            res.deep_view() == footnote_pairs_upto(te, ue, i as int),
        decreases n - i,
    {
        let ghost before = res.deep_view();
        let k = texts[i].0;
        if is_first_with_key(texts, i) {
            match last_index(urls, k) {
                Some(ju) => {
                    match last_index(texts, k) {
                        Some(jt) => {
                            let t = texts[jt].1.clone();
                            let u = urls[ju].1.clone();
                            res.push((t, u));
                            assert(res.deep_view() =~= before.push((t@, u@)));
                        },
                        None => {
                            proof {
                                assert(te.take(i + 1).drop_last() =~= te.take(i as int));
                                lemma_last_for_some(te, i as int);
                            }
                        },
                    }
                },
                None => {},
            }
        }
        i = i + 1;
    }
    res
}

/// A key that occurs has a last value.
pub proof fn lemma_last_for_some(e: Seq<(nat, Seq<char>)>, i: int)
    requires
        0 <= i < e.len(),
    ensures
        last_for(e, e[i].0) is Some,
    decreases e.len(),
{
    if e.last().0 != e[i].0 {
        lemma_last_for_some(e.drop_last(), i);
    }
}

/// Appends the `(first group, second group)` pairs of `spans` to `links`.
fn push_pairs(text: &str, spans: &Vec<Span>, links: &mut Vec<(String, String)>)
    requires
        forall|k: int| 0 <= k < spans@.len() ==> in_bounds(text@, #[trigger] spans@[k]@),
    ensures
        final(links).deep_view() == old(links).deep_view() + pairs(text@, spans_view(spans@)),
{
    let ghost start = links.deep_view();
    let ghost all = pairs(text@, spans_view(spans@));
    let n = spans.len();
    let mut i: usize = 0;
    while i < n
        invariant
            n == spans@.len(),
            all == pairs(text@, spans_view(spans@)),
            forall|k: int| 0 <= k < spans@.len() ==> in_bounds(text@, #[trigger] spans@[k]@),
            i <= n,
            links.deep_view() == start + all.take(i as int),
        decreases n - i,
    {
        let sp = &spans[i];
        assert(in_bounds(text@, spans@[i as int]@));
        let a = substring(text, sp.first_start, sp.first_end);
        let b = substring(text, sp.second_start, sp.second_end);
        let ghost before = links.deep_view();
        links.push((a, b));
        assert(links.deep_view() =~= before.push((a@, b@)));
        assert(all.take(i + 1) =~= all.take(i as int).push(all[i as int]));
        assert(start + all.take(i + 1) =~= (start + all.take(i as int)).push(all[i as int]));
        i = i + 1;
    }
    assert(all.take(n as int) =~= all);
}

/// Whether every footnote number in `markdown` fits in a `usize`, the
/// condition under which `find_md_links` can read them.
pub fn footnote_numbers_fit(markdown: &str) -> (res: bool)
    ensures
        res == footnotes_fit(markdown@),
{
    let s = chars_of(markdown);
    let texts = entries_exec(markdown, &s, Pattern::FootnoteText);
    let urls = entries_exec(markdown, &s, Pattern::FootnoteUrl);
    let ghost tm = all_matches(s@, 0, Pattern::FootnoteText);
    let ghost um = all_matches(s@, 0, Pattern::FootnoteUrl);
    match (texts, urls) {
        (Some(_), Some(_)) => {
            assert forall|i: int| 0 <= i < footnote_texts(markdown@).len() implies #[trigger] footnote_texts(markdown@)[i].0 <= usize::MAX by {
                assert(footnote_texts(markdown@)[i] == entry_of(s@, tm[i], Pattern::FootnoteText));
            }
            assert forall|i: int| 0 <= i < footnote_urls(markdown@).len() implies #[trigger] footnote_urls(markdown@)[i].0 <= usize::MAX by {
                assert(footnote_urls(markdown@)[i] == entry_of(s@, um[i], Pattern::FootnoteUrl));
            }
            true
        },
        (None, _) => {
            let ghost i = choose|i: int| 0 <= i < tm.len() && entry_of(s@, #[trigger] tm[i], Pattern::FootnoteText).0 > usize::MAX;
            assert(footnote_texts(markdown@)[i] == entry_of(s@, tm[i], Pattern::FootnoteText));
            false
        },
        (_, None) => {
            let ghost i = choose|i: int| 0 <= i < um.len() && entry_of(s@, #[trigger] um[i], Pattern::FootnoteUrl).0 > usize::MAX;
            assert(footnote_urls(markdown@)[i] == entry_of(s@, um[i], Pattern::FootnoteUrl));
            false
        },
    }
}

/// The hyperlinks of a markdown text as `(text, url)` pairs: first the
/// inline links `[text](url)`, then the anchored links `[text]: url`, then
/// the footnote links, which pair a reference `[text][n]` with a target
/// `[n]: url`.  For a footnote number given several texts or several urls,
/// the last one counts; footnote links come in the order in which their
/// numbers are first referenced.
pub fn find_md_links(markdown: &str) -> (links: Vec<(String, String)>)
    requires
        footnotes_fit(markdown@),
    ensures
        links.deep_view() == md_links(markdown@),
{
    let s = chars_of(markdown);
    let mut links: Vec<(String, String)> = Vec::new();
    proof {
        lemma_all_matches_in_bounds(s@, Pattern::Inline);
        lemma_all_matches_in_bounds(s@, Pattern::Anchored);
    }
    let inline = all_matches_exec(&s, Pattern::Inline);
    assert forall|k: int| 0 <= k < inline@.len() implies in_bounds(markdown@, #[trigger] inline@[k]@) by {
        assert(spans_view(inline@)[k] == inline@[k]@);
    }
    push_pairs(markdown, &inline, &mut links);
    let anchored = all_matches_exec(&s, Pattern::Anchored);
    assert forall|k: int| 0 <= k < anchored@.len() implies in_bounds(markdown@, #[trigger] anchored@[k]@) by {
        assert(spans_view(anchored@)[k] == anchored@[k]@);
    }
    push_pairs(markdown, &anchored, &mut links);
    let ghost tm = all_matches(s@, 0, Pattern::FootnoteText);
    let ghost um = all_matches(s@, 0, Pattern::FootnoteUrl);
    let texts = match entries_exec(markdown, &s, Pattern::FootnoteText) {
        Some(t) => t,
        None => {
            proof {
                let i = choose|i: int| 0 <= i < tm.len() && entry_of(s@, #[trigger] tm[i], Pattern::FootnoteText).0 > usize::MAX;
                assert(footnote_texts(markdown@)[i] == entry_of(s@, tm[i], Pattern::FootnoteText));
            }
            Vec::new()
        },
    };
    let urls = match entries_exec(markdown, &s, Pattern::FootnoteUrl) {
        Some(u) => u,
        None => {
            proof {
                let i = choose|i: int| 0 <= i < um.len() && entry_of(s@, #[trigger] um[i], Pattern::FootnoteUrl).0 > usize::MAX;
                assert(footnote_urls(markdown@)[i] == entry_of(s@, um[i], Pattern::FootnoteUrl));
            }
            Vec::new()
        },
    };
    let foot = footnote_pairs_exec(&texts, &urls);
    let ghost before = links.deep_view();
    let mut foot = foot;
    links.append(&mut foot);
    assert(links.deep_view() =~= before + footnote_pairs(footnote_texts(markdown@), footnote_urls(markdown@)));
    links
}

pub proof fn lemma_scan_is(s: Seq<char>, i: int, k: Class, m: int)
    requires
        0 <= i <= m <= s.len(),
        forall|j: int| i <= j < m ==> in_class(k, #[trigger] s[j]),
        m < s.len() ==> !in_class(k, s[m]),
    ensures
        scan(s, i, k) == m,
    decreases m - i,
{
    if i < m {
        lemma_scan_is(s, i + 1, k, m);
    }
}

pub proof fn lemma_no_match(s: Seq<char>, i: int, pat: Pattern)
    requires
        0 <= i,
        forall|p: int| i <= p < s.len() ==> match_at(s, p, pat) is None,
    ensures
        all_matches(s, i, pat) == Seq::<Caps>::empty(),
    decreases s.len() - i,
{
    if i < s.len() {
        lemma_no_match(s, i + 1, pat);
    }
}

/// The markdown text of an inline link.
pub open spec fn inline_link_text(t: Seq<char>, u: Seq<char>) -> Seq<char> {
    seq!['['] + t + seq![']', '('] + u + seq![')']
}

/// `s` holds no opening bracket, so no link starts in it.
pub open spec fn no_open_bracket(s: Seq<char>) -> bool {
    forall|i: int| 0 <= i < s.len() ==> #[trigger] s[i] != '['
}

/// Where `s` has no opening bracket, no match starts: the search from `i`
/// finds what the search from `j` finds.
pub proof fn lemma_all_matches_skip(s: Seq<char>, i: int, j: int, pat: Pattern)
    requires
        0 <= i <= j,
        forall|p: int| i <= p < j ==> !char_at(s, p, '['),
    ensures
        all_matches(s, i, pat) == all_matches(s, j, pat),
    decreases j - i,
{
    if i < j {
        lemma_all_matches_skip(s, i + 1, j, pat);
        if i >= s.len() {
            lemma_all_matches_beyond(s, i, pat);
            lemma_all_matches_beyond(s, j, pat);
        }
    }
}

pub proof fn lemma_all_matches_beyond(s: Seq<char>, i: int, pat: Pattern)
    requires
        i >= s.len(),
    ensures
        all_matches(s, i, pat) == Seq::<Caps>::empty(),
{
}

/// Law: a single inline link `[t](u)` after any text `x` that opens no
/// bracket is found, and is the only link: scanning `x[t](u)` gives exactly
/// `(t, u)`, whatever `x` ends with (an image's `!` too), when `t` is
/// non-empty and holds no `]`, and `u` is non-empty and holds no `)` and no
/// `[`.
pub proof fn law_inline_link_found_after_text(x: Seq<char>, t: Seq<char>, u: Seq<char>)
    requires
        no_open_bracket(x),
        t.len() > 0,
        u.len() > 0,
        forall|i: int| 0 <= i < t.len() ==> t[i] != ']',
        forall|i: int| 0 <= i < u.len() ==> u[i] != ')' && u[i] != '[',
    ensures
        md_links(x + inline_link_text(t, u)) == seq![(t, u)],
{
    let s = x + inline_link_text(t, u);
    let o: int = x.len() as int;
    let b: int = o + 1 + t.len() as int;
    let d: int = b + 2 + u.len() as int;
    assert(s.len() == d + 1);
    assert forall|j: int| 0 <= j < o implies s[j] == x[j] by {}
    assert(s[o] == '[');
    assert forall|j: int| o + 1 <= j < b implies s[j] == t[j - o - 1] by {}
    assert(s[b] == ']');
    assert(s[b + 1] == '(');
    assert forall|j: int| b + 2 <= j < d implies s[j] == u[j - b - 2] by {}
    assert(s[d] == ')');
    assert forall|p: int| 0 <= p < o implies !char_at(s, p, '[') by {
        assert(s[p] == x[p]);
    }
    // the inline pattern matches once, at the link
    assert forall|j: int| o + 1 <= j < b implies in_class(Class::NotCloseBracket, #[trigger] s[j]) by {
        assert(s[j] == t[j - o - 1]);
    }
    lemma_scan_is(s, o + 1, Class::NotCloseBracket, b);
    assert forall|j: int| b + 2 <= j < d implies in_class(Class::NotCloseParen, #[trigger] s[j]) by {
        assert(s[j] == u[j - b - 2]);
    }
    lemma_scan_is(s, b + 2, Class::NotCloseParen, d);
    let c = Caps { end: d + 1, first_start: o + 1, first_end: b, second_start: b + 2, second_end: d };
    assert(match_at(s, o, Pattern::Inline) == Some(c));
    lemma_all_matches_beyond(s, d + 1, Pattern::Inline);
    lemma_all_matches_skip(s, 0, o, Pattern::Inline);
    assert(all_matches(s, o, Pattern::Inline) =~= seq![c]);
    assert(all_matches(s, 0, Pattern::Inline) =~= seq![c]);
    assert(s.subrange(o + 1, b) =~= t);
    assert(s.subrange(b + 2, d) =~= u);
    assert(pairs(s, seq![c]) =~= seq![(t, u)]);
    // no other pattern matches anywhere
    assert forall|p: int, pat: Pattern|
        0 <= p < s.len() && !(pat is Inline) implies match_at(s, p, pat) is None by {
        if char_at(s, p, '[') {
            assert(o <= p < b) by {
                if p < o {
                    assert(s[p] == x[p]);
                }
                if p >= b + 2 && p < d {
                    assert(s[p] == u[p - b - 2]);
                }
            }
            assert forall|j: int| p + 1 <= j < b implies in_class(
                Class::NotCloseBracket,
                #[trigger] s[j],
            ) by {
                assert(s[j] == t[j - o - 1]);
            }
            lemma_scan_is(s, p + 1, Class::NotCloseBracket, b);
            lemma_scan(s, p + 1, Class::Digit);
            let b2 = scan(s, p + 1, Class::Digit);
            if b2 > b {
                assert(in_class(Class::Digit, s[b]));
            }
            if b2 < b && b2 > p {
                assert(s[b2] == t[b2 - o - 1]);
            }
        }
    }
    assert forall|p: int| 0 <= p < s.len() implies match_at(s, p, Pattern::Anchored) is None by {}
    assert forall|p: int| 0 <= p < s.len() implies match_at(s, p, Pattern::FootnoteText) is None by {}
    assert forall|p: int| 0 <= p < s.len() implies match_at(s, p, Pattern::FootnoteUrl) is None by {}
    lemma_no_match(s, 0, Pattern::Anchored);
    lemma_no_match(s, 0, Pattern::FootnoteText);
    lemma_no_match(s, 0, Pattern::FootnoteUrl);
    assert(footnote_texts(s) =~= Seq::<(nat, Seq<char>)>::empty());
    assert(pairs(s, all_matches(s, 0, Pattern::Anchored)) =~= Seq::<(Seq<char>, Seq<char>)>::empty());
    assert(md_links(s) =~= seq![(t, u)]);
}

/// Law: scanning the text of a single inline link `[t](u)` gives back
/// exactly the link `(t, u)`, when `t` is non-empty and holds no `]`, and `u`
/// is non-empty and holds no `)` and no `[`.
pub proof fn law_inline_link_roundtrip(t: Seq<char>, u: Seq<char>)
    requires
        t.len() > 0,
        u.len() > 0,
        forall|i: int| 0 <= i < t.len() ==> t[i] != ']',
        forall|i: int| 0 <= i < u.len() ==> u[i] != ')' && u[i] != '[',
    ensures
        md_links(inline_link_text(t, u)) == seq![(t, u)],
{
    let x = Seq::<char>::empty();
    law_inline_link_found_after_text(x, t, u);
    assert(x + inline_link_text(t, u) =~= inline_link_text(t, u));
}

/// The markdown text of an anchored link, with the white space `w` between
/// the colon and the url.
pub open spec fn anchored_link_text(t: Seq<char>, w: Seq<char>, u: Seq<char>) -> Seq<char> {
    seq!['['] + t + seq![']', ':'] + w + u
}

/// Law: an anchored link `[t]: u` at the end of a text `x` that opens no
/// bracket is found, and is the only link: scanning it gives exactly
/// `(t, u)`, when `t` is non-empty and holds no `]` (spaces are allowed),
/// the white space `w` is not empty, and `u` is non-empty and holds neither
/// white space nor `[`.
pub proof fn law_anchored_link_found(x: Seq<char>, t: Seq<char>, w: Seq<char>, u: Seq<char>)
    requires
        no_open_bracket(x),
        t.len() > 0,
        w.len() > 0,
        u.len() > 0,
        forall|i: int| 0 <= i < t.len() ==> t[i] != ']',
        forall|i: int| 0 <= i < w.len() ==> is_space(w[i]),
        forall|i: int| 0 <= i < u.len() ==> !is_space(u[i]) && u[i] != '[',
    ensures
        md_links(x + anchored_link_text(t, w, u)) == seq![(t, u)],
{
    let s = x + anchored_link_text(t, w, u);
    let o: int = x.len() as int;
    let b: int = o + 1 + t.len() as int;
    let e: int = b + 2 + w.len() as int;
    let f: int = e + u.len() as int;
    assert(s.len() == f);
    assert forall|j: int| 0 <= j < o implies s[j] == x[j] by {}
    assert(s[o] == '[');
    assert forall|j: int| o + 1 <= j < b implies s[j] == t[j - o - 1] by {}
    assert(s[b] == ']');
    assert(s[b + 1] == ':');
    assert forall|j: int| b + 2 <= j < e implies s[j] == w[j - b - 2] by {}
    assert forall|j: int| e <= j < f implies s[j] == u[j - e] by {}
    assert forall|p: int| 0 <= p < o implies !char_at(s, p, '[') by {
        assert(s[p] == x[p]);
    }
    // the anchored pattern matches once, at the link
    assert forall|j: int| o + 1 <= j < b implies in_class(Class::NotCloseBracket, #[trigger] s[j]) by {
        assert(s[j] == t[j - o - 1]);
    }
    lemma_scan_is(s, o + 1, Class::NotCloseBracket, b);
    assert forall|j: int| b + 2 <= j < e implies in_class(Class::Space, #[trigger] s[j]) by {
        assert(s[j] == w[j - b - 2]);
    }
    assert(!in_class(Class::Space, s[e])) by {
        assert(s[e] == u[0]);
    }
    lemma_scan_is(s, b + 2, Class::Space, e);
    assert forall|j: int| e <= j < f implies in_class(Class::NonSpace, #[trigger] s[j]) by {
        assert(s[j] == u[j - e]);
    }
    lemma_scan_is(s, e, Class::NonSpace, f);
    let c = Caps { end: f, first_start: o + 1, first_end: b, second_start: e, second_end: f };
    assert(colon_target(s, b) == Some((e, f)));
    assert(match_at(s, o, Pattern::Anchored) == Some(c));
    lemma_all_matches_beyond(s, f, Pattern::Anchored);
    lemma_all_matches_skip(s, 0, o, Pattern::Anchored);
    assert(all_matches(s, o, Pattern::Anchored) =~= seq![c]);
    assert(all_matches(s, 0, Pattern::Anchored) =~= seq![c]);
    assert(s.subrange(o + 1, b) =~= t);
    assert(s.subrange(e, f) =~= u);
    assert(pairs(s, seq![c]) =~= seq![(t, u)]);
    // neither inline links nor footnote references match anywhere
    assert forall|p: int, pat: Pattern|
        0 <= p < s.len() && (pat is Inline || pat is FootnoteText) implies match_at(s, p, pat) is None by {
        if char_at(s, p, '[') {
            assert(o <= p < b) by {
                if p < o {
                    assert(s[p] == x[p]);
                }
                if b + 2 <= p < e {
                    assert(s[p] == w[p - b - 2]);
                }
                if e <= p {
                    assert(s[p] == u[p - e]);
                }
            }
            assert forall|j: int| p + 1 <= j < b implies in_class(
                Class::NotCloseBracket,
                #[trigger] s[j],
            ) by {
                assert(s[j] == t[j - o - 1]);
            }
            lemma_scan_is(s, p + 1, Class::NotCloseBracket, b);
        }
    }
    assert forall|p: int| 0 <= p < s.len() implies match_at(s, p, Pattern::Inline) is None by {}
    assert forall|p: int| 0 <= p < s.len() implies match_at(s, p, Pattern::FootnoteText) is None by {}
    lemma_no_match(s, 0, Pattern::Inline);
    lemma_no_match(s, 0, Pattern::FootnoteText);
    assert(footnote_texts(s) =~= Seq::<(nat, Seq<char>)>::empty());
    assert(pairs(s, all_matches(s, 0, Pattern::Inline)) =~= Seq::<(Seq<char>, Seq<char>)>::empty());
    assert(md_links(s) =~= seq![(t, u)]);
}

proof fn lemma_pairs_nonempty(s: Seq<char>, pat: Pattern)
    ensures
        forall|k: int|
            0 <= k < pairs(s, all_matches(s, 0, pat)).len() ==> (#[trigger] pairs(
                s,
                all_matches(s, 0, pat),
            )[k]).0.len() > 0 && pairs(s, all_matches(s, 0, pat))[k].1.len() > 0,
{
    assert forall|k: int| 0 <= k < pairs(s, all_matches(s, 0, pat)).len() implies (#[trigger] pairs(
        s,
        all_matches(s, 0, pat),
    )[k]).0.len() > 0 && pairs(s, all_matches(s, 0, pat))[k].1.len() > 0 by {
        let p = lemma_match_origin(s, 0, pat, k);
        lemma_match_at_placed(s, p, pat);
    }
}

proof fn lemma_entries_nonempty(s: Seq<char>, pat: Pattern)
    ensures
        forall|k: int|
            0 <= k < all_matches(s, 0, pat).len() ==> (#[trigger] entry_of(
                s,
                all_matches(s, 0, pat)[k],
                pat,
            )).1.len() > 0,
{
    assert forall|k: int| 0 <= k < all_matches(s, 0, pat).len() implies (#[trigger] entry_of(
        s,
        all_matches(s, 0, pat)[k],
        pat,
    )).1.len() > 0 by {
        let p = lemma_match_origin(s, 0, pat, k);
        lemma_match_at_placed(s, p, pat);
    }
}

/// All values of a list of entries are non-empty.
pub open spec fn values_nonempty(e: Seq<(nat, Seq<char>)>) -> bool {
    forall|i: int| 0 <= i < e.len() ==> (#[trigger] e[i]).1.len() > 0
}

proof fn lemma_last_for_nonempty(e: Seq<(nat, Seq<char>)>, k: nat)
    requires
        values_nonempty(e),
    ensures
        last_for(e, k) matches Some(v) ==> v.len() > 0,
    decreases e.len(),
{
    if e.len() > 0 && e.last().0 != k {
        assert(values_nonempty(e.drop_last())) by {
            assert forall|i: int| 0 <= i < e.drop_last().len() implies (#[trigger] e.drop_last()[i]).1.len() > 0 by {
                assert(e.drop_last()[i] == e[i]);
            }
        }
        lemma_last_for_nonempty(e.drop_last(), k);
    }
}

proof fn lemma_footnote_pairs_nonempty(
    texts: Seq<(nat, Seq<char>)>,
    urls: Seq<(nat, Seq<char>)>,
    n: int,
)
    requires
        values_nonempty(texts),
        values_nonempty(urls),
        n <= texts.len(),
    ensures
        forall|i: int|
            0 <= i < footnote_pairs_upto(texts, urls, n).len() ==> (#[trigger] footnote_pairs_upto(
                texts,
                urls,
                n,
            )[i]).0.len() > 0 && footnote_pairs_upto(texts, urls, n)[i].1.len() > 0,
    decreases n,
{
    if n > 0 {
        lemma_footnote_pairs_nonempty(texts, urls, n - 1);
        let k = texts[n - 1].0;
        lemma_last_for_nonempty(texts, k);
        lemma_last_for_nonempty(urls, k);
        lemma_last_for_some(texts, n - 1);
        let prev = footnote_pairs_upto(texts, urls, n - 1);
        let cur = footnote_pairs_upto(texts, urls, n);
        assert forall|i: int| 0 <= i < cur.len() implies (#[trigger] cur[i]).0.len() > 0
            && cur[i].1.len() > 0 by {
            if i < prev.len() {
                assert(cur[i] == prev[i]);
            }
        }
    }
}

/// Law: every link found has a non-empty text and a non-empty url.
pub proof fn law_links_nonempty(s: Seq<char>)
    ensures
        forall|i: int|
            0 <= i < md_links(s).len() ==> (#[trigger] md_links(s)[i]).0.len() > 0
                && md_links(s)[i].1.len() > 0,
{
    lemma_pairs_nonempty(s, Pattern::Inline);
    lemma_pairs_nonempty(s, Pattern::Anchored);
    lemma_entries_nonempty(s, Pattern::FootnoteText);
    lemma_entries_nonempty(s, Pattern::FootnoteUrl);
    let texts = footnote_texts(s);
    let urls = footnote_urls(s);
    assert(values_nonempty(texts)) by {
        assert forall|i: int| 0 <= i < texts.len() implies (#[trigger] texts[i]).1.len() > 0 by {
            assert(texts[i] == entry_of(s, all_matches(s, 0, Pattern::FootnoteText)[i], Pattern::FootnoteText));
        }
    }
    assert(values_nonempty(urls)) by {
        assert forall|i: int| 0 <= i < urls.len() implies (#[trigger] urls[i]).1.len() > 0 by {
            assert(urls[i] == entry_of(s, all_matches(s, 0, Pattern::FootnoteUrl)[i], Pattern::FootnoteUrl));
        }
    }
    lemma_footnote_pairs_nonempty(texts, urls, texts.len() as int);
    let a = pairs(s, all_matches(s, 0, Pattern::Inline));
    let b = pairs(s, all_matches(s, 0, Pattern::Anchored));
    let c = footnote_pairs(texts, urls);
    assert forall|i: int| 0 <= i < md_links(s).len() implies (#[trigger] md_links(s)[i]).0.len() > 0
        && md_links(s)[i].1.len() > 0 by {
        if i < a.len() {
            assert(md_links(s)[i] == a[i]);
        } else if i < a.len() + b.len() {
            assert(md_links(s)[i] == b[i - a.len()]);
        } else {
            assert(md_links(s)[i] == c[i - a.len() - b.len()]);
        }
    }
}

/// `[t](u)` stands somewhere in `s`.
pub open spec fn inline_link_occurs(s: Seq<char>, t: Seq<char>, u: Seq<char>) -> bool {
    exists|p: int| crate::text::occurs_at(s, inline_link_text(t, u), p)
}

/// Law: every inline link `(t, u)` that is found stands in the text as
/// `[t](u)`.
pub proof fn law_inline_links_occur(s: Seq<char>)
    ensures
        forall|k: int|
            0 <= k < pairs(s, all_matches(s, 0, Pattern::Inline)).len() ==> inline_link_occurs(
                s,
                (#[trigger] pairs(s, all_matches(s, 0, Pattern::Inline))[k]).0,
                pairs(s, all_matches(s, 0, Pattern::Inline))[k].1,
            ),
{
    let all = all_matches(s, 0, Pattern::Inline);
    assert forall|k: int| 0 <= k < pairs(s, all).len() implies inline_link_occurs(
        s,
        (#[trigger] pairs(s, all)[k]).0,
        pairs(s, all)[k].1,
    ) by {
        let p = lemma_match_origin(s, 0, Pattern::Inline, k);
        lemma_match_at_placed(s, p, Pattern::Inline);
        let c = all[k];
        let t = group1(s, c);
        let u = group2(s, c);
        let w = inline_link_text(t, u);
        assert(pairs(s, all)[k] == (t, u));
        assert(c.first_start == p + 1);
        assert(c.second_start == c.first_end + 2);
        assert(c.end == c.second_end + 1);
        assert(s[p] == '[');
        assert(s[c.first_end] == ']');
        assert(s[c.first_end + 1] == '(');
        assert(s[c.second_end] == ')');
        assert(w.len() == c.end - p);
        assert(s.subrange(p, c.end) =~= w) by {
            assert forall|j: int| 0 <= j < w.len() implies s.subrange(p, c.end)[j] == w[j] by {
                if j == 0 {
                } else if j < 1 + t.len() {
                    assert(w[j] == t[j - 1]);
                } else if j == 1 + t.len() {
                } else if j == 2 + t.len() {
                } else if j < 3 + t.len() + u.len() {
                    assert(w[j] == u[j - 3 - t.len()]);
                } else {
                }
            }
        }
        assert(crate::text::occurs_at(s, w, p));
        assert(w == inline_link_text(pairs(s, all)[k].0, pairs(s, all)[k].1));
        assert(crate::text::occurs_at(s, inline_link_text(pairs(s, all)[k].0, pairs(s, all)[k].1), p));
    }
}

/// The pair `(t, u)` joins the last text and the last url of one footnote
/// number.
pub open spec fn joins_footnote(
    texts: Seq<(nat, Seq<char>)>,
    urls: Seq<(nat, Seq<char>)>,
    t: Seq<char>,
    u: Seq<char>,
) -> bool {
    exists|n: nat| last_for(texts, n) == Some(t) && last_for(urls, n) == Some(u)
}

proof fn lemma_footnote_pairs_join(
    texts: Seq<(nat, Seq<char>)>,
    urls: Seq<(nat, Seq<char>)>,
    n: int,
)
    requires
        n <= texts.len(),
    ensures
        forall|i: int|
            0 <= i < footnote_pairs_upto(texts, urls, n).len() ==> joins_footnote(
                texts,
                urls,
                (#[trigger] footnote_pairs_upto(texts, urls, n)[i]).0,
                footnote_pairs_upto(texts, urls, n)[i].1,
            ),
    decreases n,
{
    if n > 0 {
        lemma_footnote_pairs_join(texts, urls, n - 1);
        lemma_last_for_some(texts, n - 1);
        let k = texts[n - 1].0;
        let prev = footnote_pairs_upto(texts, urls, n - 1);
        let cur = footnote_pairs_upto(texts, urls, n);
        assert forall|i: int| 0 <= i < cur.len() implies joins_footnote(
            texts,
            urls,
            (#[trigger] cur[i]).0,
            cur[i].1,
        ) by {
            if i < prev.len() {
                assert(cur[i] == prev[i]);
            } else {
                assert(last_for(texts, k) == Some(cur[i].0));
                assert(last_for(urls, k) == Some(cur[i].1));
            }
        }
    }
}

/// Law: every footnote link joins the last text given to a footnote number
/// with the last url given to the same number.
pub proof fn law_footnote_links_join_numbers(s: Seq<char>)
    ensures
        forall|i: int|
            0 <= i < footnote_pairs(footnote_texts(s), footnote_urls(s)).len() ==> joins_footnote(
                footnote_texts(s),
                footnote_urls(s),
                (#[trigger] footnote_pairs(footnote_texts(s), footnote_urls(s))[i]).0,
                footnote_pairs(footnote_texts(s), footnote_urls(s))[i].1,
            ),
{
    lemma_footnote_pairs_join(footnote_texts(s), footnote_urls(s), footnote_texts(s).len() as int);
}

/// The matches in `cs` come in order and do not overlap: each one starts
/// (at its opening bracket, just before its first group) no earlier than `i`
/// and no earlier than where the one before it ended.
pub open spec fn ordered_from(cs: Seq<Caps>, i: int) -> bool {
    &&& forall|k: int| 0 <= k < cs.len() ==> i <= (#[trigger] cs[k]).first_start - 1
    &&& forall|k: int| 0 <= k < cs.len() - 1 ==> (#[trigger] cs[k]).end <= cs[k + 1].first_start - 1
}

proof fn lemma_all_matches_ordered(s: Seq<char>, i: int, pat: Pattern)
    ensures
        ordered_from(all_matches(s, i, pat), i),
    decreases s.len() - i,
{
    lemma_match_at_placed(s, i, pat);
    if 0 <= i < s.len() {
        match match_at(s, i, pat) {
            Some(c) => {
                lemma_all_matches_ordered(s, c.end, pat);
                let rest = all_matches(s, c.end, pat);
                let all = all_matches(s, i, pat);
                assert(all == seq![c] + rest);
                assert(c.first_start == i + 1);
                assert forall|k: int| 0 <= k < all.len() implies i <= (#[trigger] all[k]).first_start
                    - 1 by {
                    if k > 0 {
                        assert(all[k] == rest[k - 1]);
                    }
                }
                assert forall|k: int| 0 <= k < all.len() - 1 implies (#[trigger] all[k]).end <= all[k
                    + 1].first_start - 1 by {
                    assert(all[k + 1] == rest[k]);
                    if k > 0 {
                        assert(all[k] == rest[k - 1]);
                    }
                }
            },
            None => {
                lemma_all_matches_ordered(s, i + 1, pat);
            },
        }
    }
}

/// Law: the matches of each pattern come in the order of the text and never
/// overlap, as a leftmost-first search that resumes after each match finds
/// them.
pub proof fn law_matches_in_order_without_overlap(s: Seq<char>, pat: Pattern)
    ensures
        ordered_from(all_matches(s, 0, pat), 0),
{
    lemma_all_matches_ordered(s, 0, pat);
}

} // verus!

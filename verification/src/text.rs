//! Character-level helpers shared by the modules: turning text into
//! characters and back, substring search, path segments and word splitting.

use vstd::prelude::*;
use vstd::string::*;

verus! {

/// The characters of `s`, in order.
pub fn chars_of(s: &str) -> (res: Vec<char>)
    ensures
        res@ == s@,
{
    let mut res: Vec<char> = Vec::new();
    for c in it: s.chars()
        invariant
            res@ == it.seq().take(it.index() as int),
    {
        res.push(c);
    }
    res
}

/// A fresh `String` holding the characters `from..to` of `s`.
pub fn substring(s: &str, from: usize, to: usize) -> (res: String)
    requires
        from <= to <= s@.len(),
    ensures
        res@ == s@.subrange(from as int, to as int),
{
    String::from_str(s.substring_char(from, to))
}

/// A fresh `String` that is the concatenation of `a` and `b`.
pub fn concat(a: &str, b: &str) -> (res: String)
    ensures
        res@ == a@ + b@,
{
    let mut res = String::from_str(a);
    res.append(b);
    res
}

/// `needle` occurs in `hay` at position `i`.
pub open spec fn occurs_at(hay: Seq<char>, needle: Seq<char>, i: int) -> bool {
    &&& 0 <= i
    &&& i + needle.len() <= hay.len()
    &&& hay.subrange(i, i + needle.len()) == needle
}

/// `needle` occurs somewhere in `hay` (the empty needle occurs everywhere).
pub open spec fn contains_seq(hay: Seq<char>, needle: Seq<char>) -> bool {
    exists|i: int| occurs_at(hay, needle, i)
}

fn occurs_at_exec(hay: &Vec<char>, needle: &Vec<char>, i: usize) -> (res: bool)
    requires
        i + needle@.len() <= hay@.len(),
    ensures
        res == occurs_at(hay@, needle@, i as int),
{
    let n = needle.len();
    let hl = hay.len();
    let mut j: usize = 0;
    while j < n
        invariant
            n == needle@.len(),
            hl == hay@.len(),
            i + n <= hay@.len(),
            j <= n,
            forall|k: int| 0 <= k < j ==> hay@[i + k] == needle@[k],
        decreases n - j,
    {
        if hay[i + j] != needle[j] {
            assert(hay@.subrange(i as int, i + n)[j as int] != needle@[j as int]);
            return false;
        }
        j = j + 1;
    }
    assert(hay@.subrange(i as int, i + n) =~= needle@);
    true
}

/// Whether `needle` occurs as a substring of `hay`.
pub fn str_contains(hay: &str, needle: &str) -> (res: bool)
    ensures
        res == contains_seq(hay@, needle@),
{
    let h = chars_of(hay);
    let n = chars_of(needle);
    if n.len() > h.len() {
        assert(!contains_seq(hay@, needle@));
        return false;
    }
    let last = h.len() - n.len();
    let mut i: usize = 0;
    while i < last
        invariant
            h@ == hay@,
            n@ == needle@,
            last == h@.len() - n@.len(),
            n@.len() <= h@.len(),
            forall|k: int| 0 <= k < i ==> !occurs_at(hay@, needle@, k),
        decreases last + 1 - i,
    {
        if occurs_at_exec(&h, &n, i) {
            return true;
        }
        i = i + 1;
    }
    let found = occurs_at_exec(&h, &n, last);
    assert(found || forall|k: int| !occurs_at(hay@, needle@, k));
    found
}

/// The part of `s` after the last occurrence of `sep` (all of `s` when `sep`
/// does not occur), as `s.split(sep).last()` gives it.
pub open spec fn after_last(s: Seq<char>, sep: char) -> Seq<char>
    decreases s.len(),
{
    if s.len() == 0 {
        s
    } else if s.last() == sep {
        Seq::empty()
    } else {
        after_last(s.drop_last(), sep).push(s.last())
    }
}

/// The last `/`-separated segment of a path.
pub fn last_segment(path: &str) -> (res: String)
    ensures
        res@ == after_last(path@, '/'),
        !res@.contains('/'),
        res@.len() <= path@.len(),
        path@.subrange(path@.len() - res@.len(), path@.len() as int) == res@,
        res@.len() == path@.len() || path@[path@.len() - res@.len() - 1] == '/',
{
    proof {
        law_last_segment(path@, '/');
    }
    let cs = chars_of(path);
    let len = cs.len();
    let mut i: usize = len;
    assert(path@.subrange(0, len as int) =~= path@);
    assert(path@.subrange(len as int, len as int) =~= Seq::<char>::empty());
    while i > 0 && cs[i - 1] != '/'
        invariant
            cs@ == path@,
            len == cs@.len(),
            i <= len,
            forall|k: int| i <= k < len ==> cs@[k] != '/',
            after_last(path@, '/') == after_last(path@.subrange(0, i as int), '/')
                + path@.subrange(i as int, len as int),
        decreases i,
    {
        let ghost pre = path@.subrange(0, i as int);
        assert(pre.drop_last() =~= path@.subrange(0, i - 1));
        assert(path@.subrange(i - 1, len as int) =~= seq![pre.last()] + path@.subrange(
            i as int,
            len as int,
        ));
        assert(after_last(pre.drop_last(), '/').push(pre.last()) + path@.subrange(
            i as int,
            len as int,
        ) =~= after_last(pre.drop_last(), '/') + path@.subrange(i - 1, len as int));
        i = i - 1;
    }
    proof {
        let pre = path@.subrange(0, i as int);
        if i > 0 {
            assert(pre.last() == '/');
        } else {
            assert(pre.len() == 0);
        }
        assert(after_last(pre, '/') =~= Seq::<char>::empty());
        assert(after_last(path@, '/') =~= path@.subrange(i as int, len as int));
    }
    substring(path, i, len)
}

/// Unicode `White_Space`, the characters that `char::is_whitespace` accepts.
pub open spec fn is_space(c: char) -> bool {
    let v = c as u32;
    ||| 9 <= v <= 13
    ||| v == 32
    ||| v == 0x85
    ||| v == 0xa0
    ||| v == 0x1680
    ||| 0x2000 <= v <= 0x200a
    ||| v == 0x2028
    ||| v == 0x2029
    ||| v == 0x202f
    ||| v == 0x205f
    ||| v == 0x3000
}

/// Whether `c` is white space.
pub fn char_is_space(c: char) -> (res: bool)
    ensures
        res == is_space(c),
{
    let v = c as u32;
    (9 <= v && v <= 13) || v == 32 || v == 0x85 || v == 0xa0 || v == 0x1680 || (0x2000 <= v && v
        <= 0x200a) || v == 0x2028 || v == 0x2029 || v == 0x202f || v == 0x205f || v == 0x3000
}

/// `s` holds no white space.
pub open spec fn no_space(s: Seq<char>) -> bool {
    forall|i: int| 0 <= i < s.len() ==> !is_space(#[trigger] s[i])
}

/// The index of the first white-space character of `s`, or `s.len()` when
/// there is none.
pub open spec fn first_space(s: Seq<char>) -> int
    decreases s.len(),
{
    if s.len() == 0 {
        0
    } else if is_space(s[0]) {
        0
    } else {
        1 + first_space(s.drop_first())
    }
}

pub proof fn lemma_first_space_bounds(s: Seq<char>)
    ensures
        0 <= first_space(s) <= s.len(),
        first_space(s) < s.len() ==> is_space(s[first_space(s)]),
        forall|k: int| 0 <= k < first_space(s) ==> !is_space(#[trigger] s[k]),
    decreases s.len(),
{
    if s.len() > 0 && !is_space(s[0]) {
        lemma_first_space_bounds(s.drop_first());
        assert forall|k: int| 0 <= k < first_space(s) implies !is_space(#[trigger] s[k]) by {
            if k > 0 {
                assert(s[k] == s.drop_first()[k - 1]);
            }
        }
    }
}

pub proof fn lemma_first_space_is(s: Seq<char>, m: int)
    requires
        0 <= m <= s.len(),
        forall|k: int| 0 <= k < m ==> !is_space(#[trigger] s[k]),
        m < s.len() ==> is_space(s[m]),
    ensures
        first_space(s) == m,
    decreases m,
{
    if m > 0 {
        assert forall|k: int| 0 <= k < m - 1 implies !is_space(#[trigger] s.drop_first()[k]) by {
            assert(s.drop_first()[k] == s[k + 1]);
        }
        lemma_first_space_is(s.drop_first(), m - 1);
    }
}

/// The words of `s`: its non-empty pieces between white space, in order,
/// as `str::split_whitespace` yields them.
pub open spec fn words(s: Seq<char>) -> Seq<Seq<char>>
    decreases s.len(),
{
    let k = first_space(s);
    proof {
        lemma_first_space_bounds(s);
    }
    if k >= s.len() {
        if s.len() > 0 {
            seq![s]
        } else {
            seq![]
        }
    } else {
        (if k > 0 {
            seq![s.subrange(0, k)]
        } else {
            seq![]
        }) + words(s.subrange(k + 1, s.len() as int))
    }
}

/// Splits `s` into its words.
pub fn split_words(s: &str) -> (res: Vec<String>)
    ensures
        res.deep_view() == words(s@),
{
    let cs = chars_of(s);
    let len = cs.len();
    let mut res: Vec<String> = Vec::new();
    let mut start: usize = 0;
    let mut i: usize = 0;
    assert(s@.subrange(0, len as int) =~= s@);
    while i < len
        invariant
            cs@ == s@,
            len == s@.len(),
            start <= i <= len,
            forall|k: int| start <= k < i ==> !is_space(#[trigger] s@[k]),
            words(s@) == res.deep_view() + words(s@.subrange(start as int, len as int)),
        decreases len - i,
    {
        if char_is_space(cs[i]) {
            let ghost rest = s@.subrange(start as int, len as int);
            proof {
                assert forall|k: int| 0 <= k < i - start implies !is_space(#[trigger] rest[k]) by {
                    assert(rest[k] == s@[k + start]);
                }
                lemma_first_space_is(rest, i - start);
                assert(rest.subrange(i - start + 1, rest.len() as int) =~= s@.subrange(
                    i + 1,
                    len as int,
                ));
                assert(rest.subrange(0, i - start) =~= s@.subrange(start as int, i as int));
            }
            if i > start {
                let w = substring(s, start, i);
                let ghost before = res.deep_view();
                res.push(w);
                assert(res.deep_view() =~= before.push(w@));
                assert(before + words(rest) =~= res.deep_view() + words(
                    s@.subrange(i + 1, len as int),
                ));
            } else {
                assert(words(rest) =~= words(s@.subrange(i + 1, len as int)));
            }
            start = i + 1;
        }
        i = i + 1;
    }
    let ghost rest = s@.subrange(start as int, len as int);
    proof {
        assert forall|k: int| 0 <= k < rest.len() implies !is_space(#[trigger] rest[k]) by {
            assert(rest[k] == s@[k + start]);
        }
        lemma_first_space_is(rest, rest.len() as int);
    }
    if start < len {
        let w = substring(s, start, len);
        let ghost before = res.deep_view();
        res.push(w);
        assert(res.deep_view() =~= before.push(w@));
        assert(words(rest) =~= seq![w@]);
    } else {
        assert(words(rest) =~= Seq::<Seq<char>>::empty());
    }
    assert(words(s@) =~= res.deep_view());
    res
}

/// Whether `a` and `b` hold the same characters.
pub fn str_eq(a: &str, b: &str) -> (res: bool)
    ensures
        res == (a@ == b@),
{
    let x = chars_of(a);
    let y = chars_of(b);
    if x.len() != y.len() {
        return false;
    }
    let n = x.len();
    let mut i: usize = 0;
    while i < n
        invariant
            n == x@.len(),
            n == y@.len(),
            x@ == a@,
            y@ == b@,
            i <= n,
            forall|k: int| 0 <= k < i ==> x@[k] == y@[k],
        decreases n - i,
    {
        if x[i] != y[i] {
            assert(x@[i as int] != y@[i as int]);
            return false;
        }
        i = i + 1;
    }
    assert(x@ =~= y@);
    true
}

/// Law: every word of `s` is non-empty and holds no white space.
pub proof fn law_words_are_clean(s: Seq<char>)
    ensures
        forall|i: int|
            0 <= i < words(s).len() ==> (#[trigger] words(s)[i]).len() > 0 && no_space(words(s)[i]),
    decreases s.len(),
{
    let k = first_space(s);
    lemma_first_space_bounds(s);
    if k < s.len() {
        let rest = s.subrange(k + 1, s.len() as int);
        law_words_are_clean(rest);
        let head: Seq<Seq<char>> = if k > 0 {
            seq![s.subrange(0, k)]
        } else {
            seq![]
        };
        assert(words(s) == head + words(rest));
        assert forall|i: int| 0 <= i < words(s).len() implies (#[trigger] words(s)[i]).len() > 0
            && no_space(words(s)[i]) by {
            if i < head.len() {
                assert(words(s)[i] == s.subrange(0, k));
                assert forall|j: int| 0 <= j < k implies !is_space(#[trigger] s.subrange(0, k)[j]) by {
                    assert(s.subrange(0, k)[j] == s[j]);
                }
            } else {
                assert(words(s)[i] == words(rest)[i - head.len()]);
            }
        }
    }
}

/// Law: the last segment of a path is the whole part after its last
/// separator: the path ends with it, it holds no separator, and it is either
/// the whole path or comes right after a separator.
pub proof fn law_last_segment(s: Seq<char>, sep: char)
    ensures
        !after_last(s, sep).contains(sep),
        after_last(s, sep).len() <= s.len(),
        s.subrange(s.len() - after_last(s, sep).len(), s.len() as int) == after_last(s, sep),
        after_last(s, sep).len() == s.len() || s[s.len() - after_last(s, sep).len() - 1] == sep,
    decreases s.len(),
{
    if s.len() > 0 {
        if s.last() == sep {
            assert(s.subrange(s.len() as int, s.len() as int) =~= Seq::<char>::empty());
        } else {
            let t = s.drop_last();
            law_last_segment(t, sep);
            let a = after_last(t, sep);
            assert(after_last(s, sep) == a.push(s.last()));
            assert forall|j: int| 0 <= j < a.len() + 1 implies a.push(s.last())[j] != sep by {
                if j < a.len() {
                    assert(a[j] == a.push(s.last())[j]);
                }
            }
            assert(s.subrange(s.len() - (a.len() + 1), s.len() as int) =~= t.subrange(
                t.len() - a.len(),
                t.len() as int,
            ).push(s.last()));
            if a.len() < t.len() {
                assert(s[s.len() - (a.len() + 1) - 1] == t[t.len() - a.len() - 1]);
            }
        }
    }
}

} // verus!

//! Character-level helpers on strings: whitespace, words and decimal numbers.

use vstd::prelude::*;

verus! {

/// Unicode `White_Space`, the set that `char::is_whitespace` tests.
pub open spec fn is_space(c: char) -> bool {
    c == '\t' || c == '\n' || c == '\u{0B}' || c == '\u{0C}' || c == '\r' || c == ' '
        || c == '\u{85}' || c == '\u{A0}' || c == '\u{1680}' || ('\u{2000}' <= c
        && c <= '\u{200A}') || c == '\u{2028}' || c == '\u{2029}' || c == '\u{202F}'
        || c == '\u{205F}' || c == '\u{3000}'
}

pub fn is_space_char(c: char) -> (r: bool)
    ensures
        r == is_space(c),
{
    c == '\t' || c == '\n' || c == '\u{0B}' || c == '\u{0C}' || c == '\r' || c == ' '
        || c == '\u{85}' || c == '\u{A0}' || c == '\u{1680}' || ('\u{2000}' <= c
        && c <= '\u{200A}') || c == '\u{2028}' || c == '\u{2029}' || c == '\u{202F}'
        || c == '\u{205F}' || c == '\u{3000}'
}

/// The maximal runs of non-whitespace characters of `s`, in order
/// (what `str::split_whitespace` yields).
pub open spec fn words(s: Seq<char>) -> Seq<Seq<char>>
    decreases s.len(),
{
    if s.len() == 0 {
        seq![]
    } else {
        let w = words(s.drop_last());
        let c = s.last();
        if is_space(c) {
            w
        } else if s.len() > 1 && !is_space(s[s.len() - 2]) {
            w.drop_last().push(w.last().push(c))
        } else {
            w.push(seq![c])
        }
    }
}

/// The words of a prefix that ends inside a word: the earlier words, then
/// the part of the current word read so far.
proof fn lemma_words_in_word(s: Seq<char>, start: int, i: int)
    requires
        0 <= start < i <= s.len(),
        start == 0 || is_space(s[start - 1]),
        forall|k: int| start <= k < i ==> !is_space(#[trigger] s[k]),
    ensures
        words(s.subrange(0, i)) == words(s.subrange(0, start)).push(s.subrange(start, i)),
    decreases i - start,
{
    let p = s.subrange(0, i);
    assert(p.drop_last() == s.subrange(0, i - 1));
    if i - 1 == start {
        assert(s.subrange(start, i) == seq![s[start]]);
        if start > 0 {
            assert(p[p.len() - 2] == s[start - 1]);
        }
    } else {
        lemma_words_in_word(s, start, i - 1);
        assert(p[p.len() - 2] == s[i - 2]);
        assert(s.subrange(start, i - 1).push(s[i - 1]) == s.subrange(start, i));
    }
}

/// The words of `s`, each as a `String` (`str::split_whitespace`).
pub fn split_words(s: &str) -> (r: Vec<String>)
    ensures
        r@.len() == words(s@).len(),
        forall|k: int| 0 <= k < r@.len() ==> #[trigger] r@[k]@ == words(s@)[k],
{
    let n = s.unicode_len();
    let mut out: Vec<String> = Vec::new();
    let mut i: usize = 0;
    let mut start: usize = 0;
    let mut in_word: bool = false;
    while i < n
        invariant
            n == s@.len(),
            i <= n,
            start <= i,
            in_word ==> start < i && (start == 0 || is_space(s@[start - 1])),
            in_word ==> forall|k: int| start <= k < i ==> !is_space(#[trigger] s@[k]),
            !in_word ==> (i == 0 || is_space(s@[i - 1])),
            out@.len() == words(s@.subrange(0, if in_word { start as int } else { i as int })).len(),
            forall|k: int|
                0 <= k < out@.len() ==> #[trigger] out@[k]@ == words(
                    s@.subrange(0, if in_word { start as int } else { i as int }),
                )[k],
        decreases n - i,
    {
        let c = s.get_char(i);
        let ghost p = s@.subrange(0, i + 1);
        assert(p.drop_last() == s@.subrange(0, i as int));
        if is_space_char(c) {
            if in_word {
                proof {
                    lemma_words_in_word(s@, start as int, i as int);
                }
                let w = s.substring_char(start, i).to_string();
                out.push(w);
                in_word = false;
            }
        } else if !in_word {
            start = i;
            in_word = true;
        }
        i = i + 1;
    }
    if in_word {
        proof {
            lemma_words_in_word(s@, start as int, i as int);
        }
        let w = s.substring_char(start, i).to_string();
        out.push(w);
    }
    assert(s@.subrange(0, n as int) == s@);
    out
}

/// Character-wise equality of two strings.
pub fn same_text(a: &str, b: &str) -> (r: bool)
    ensures
        r == (a@ == b@),
{
    let n = a.unicode_len();
    if n != b.unicode_len() {
        return false;
    }
    let mut i: usize = 0;
    while i < n
        invariant
            n == a@.len(),
            n == b@.len(),
            i <= n,
            forall|k: int| 0 <= k < i ==> a@[k] == b@[k],
        decreases n - i,
    {
        if a.get_char(i) != b.get_char(i) {
            return false;
        }
        i = i + 1;
    }
    assert(a@ == b@);
    true
}

/// Whether `s` starts with `prefix`.
pub fn has_prefix(s: &str, prefix: &str) -> (r: bool)
    ensures
        r == (prefix@.len() <= s@.len() && s@.subrange(0, prefix@.len() as int) == prefix@),
{
    let n = prefix.unicode_len();
    if n > s.unicode_len() {
        return false;
    }
    let mut i: usize = 0;
    while i < n
        invariant
            n == prefix@.len(),
            n <= s@.len(),
            i <= n,
            forall|k: int| 0 <= k < i ==> s@[k] == prefix@[k],
        decreases n - i,
    {
        if s.get_char(i) != prefix.get_char(i) {
            return false;
        }
        i = i + 1;
    }
    assert(s@.subrange(0, n as int) == prefix@);
    true
}

/// The pieces of `s` between occurrences of `sep` (`str::split`): there is
/// always at least one, and pieces may be empty.
pub open spec fn pieces(s: Seq<char>, sep: char) -> Seq<Seq<char>>
    decreases s.len(),
{
    if s.len() == 0 {
        seq![seq![]]
    } else {
        let l = pieces(s.drop_last(), sep);
        if s.last() == sep {
            l.push(seq![])
        } else {
            l.update(l.len() - 1, l.last().push(s.last()))
        }
    }
}

pub proof fn lemma_pieces_nonempty(s: Seq<char>, sep: char)
    ensures
        pieces(s, sep).len() >= 1,
    decreases s.len(),
{
    if s.len() > 0 {
        lemma_pieces_nonempty(s.drop_last(), sep);
    }
}

/// The pieces of `s` between occurrences of `sep`, each as a `String`.
pub fn split_pieces(s: &str, sep: char) -> (r: Vec<String>)
    ensures
        r@.len() == pieces(s@, sep).len(),
        forall|k: int| 0 <= k < r@.len() ==> #[trigger] r@[k]@ == pieces(s@, sep)[k],
{
    let n = s.unicode_len();
    let mut out: Vec<String> = Vec::new();
    let mut i: usize = 0;
    let mut start: usize = 0;
    while i < n
        invariant
            n == s@.len(),
            start <= i <= n,
            pieces(s@.subrange(0, i as int), sep).len() == out@.len() + 1,
            forall|k: int|
                0 <= k < out@.len() ==> #[trigger] out@[k]@ == pieces(
                    s@.subrange(0, i as int),
                    sep,
                )[k],
            pieces(s@.subrange(0, i as int), sep).last() == s@.subrange(start as int, i as int),
        decreases n - i,
    {
        let c = s.get_char(i);
        let ghost p = s@.subrange(0, i + 1);
        assert(p.drop_last() == s@.subrange(0, i as int));
        proof {
            lemma_pieces_nonempty(s@.subrange(0, i as int), sep);
        }
        if c == sep {
            let seg = s.substring_char(start, i).to_string();
            out.push(seg);
            start = i + 1;
            assert(s@.subrange(start as int, start as int) =~= seq![]);
        } else {
            assert(s@.subrange(start as int, i as int).push(c) == s@.subrange(
                start as int,
                i + 1,
            ));
        }
        i = i + 1;
    }
    let last = s.substring_char(start, n).to_string();
    out.push(last);
    assert(s@.subrange(0, n as int) == s@);
    out
}

pub open spec fn is_digit(c: char) -> bool {
    '0' <= c && c <= '9'
}

/// The number that a string of decimal digits denotes.
pub open spec fn digits_value(s: Seq<char>) -> nat
    decreases s.len(),
{
    if s.len() == 0 {
        0
    } else {
        digits_value(s.drop_last()) * 10 + (s.last() as nat - '0' as nat) as nat
    }
}

pub open spec fn all_digits(s: Seq<char>) -> bool {
    forall|k: int| 0 <= k < s.len() ==> is_digit(#[trigger] s[k])
}

/// The magnitude of `s[from..]` when it is a non-empty run of decimal
/// digits that fits in a `u64`.
pub open spec fn magnitude_of(s: Seq<char>, from: int) -> Option<u64> {
    let d = s.subrange(from, s.len() as int);
    if d.len() > 0 && all_digits(d) && digits_value(d) <= u64::MAX {
        Some(digits_value(d) as u64)
    } else {
        None
    }
}

/// What `u64::from_str` accepts: an optional `+`, then decimal digits.
pub open spec fn u64_of(s: Seq<char>) -> Option<u64> {
    if s.len() > 0 && s[0] == '+' {
        magnitude_of(s, 1)
    } else {
        magnitude_of(s, 0)
    }
}

/// What `i32::from_str` accepts: an optional sign, then decimal digits,
/// within the range of `i32`.
pub open spec fn i32_of(s: Seq<char>) -> Option<i32> {
    if s.len() > 0 && s[0] == '-' {
        match magnitude_of(s, 1) {
            Some(m) => if m <= 0x8000_0000 {
                Some((0 - m) as i32)
            } else {
                None
            },
            None => None,
        }
    } else {
        match u64_of(s) {
            Some(m) => if m <= 0x7FFF_FFFF {
                Some(m as i32)
            } else {
                None
            },
            None => None,
        }
    }
}

fn parse_magnitude(s: &str, from: usize) -> (r: Option<u64>)
    requires
        from <= s@.len(),
    ensures
        r == magnitude_of(s@, from as int),
{
    let n = s.unicode_len();
    let ghost d = s@.subrange(from as int, n as int);
    if from == n {
        return None;
    }
    let mut acc: u64 = 0;
    let mut over: bool = false;
    let mut i: usize = from;
    while i < n
        invariant
            n == s@.len(),
            from <= i <= n,
            d == s@.subrange(from as int, n as int),
            all_digits(s@.subrange(from as int, i as int)),
            over ==> digits_value(s@.subrange(from as int, i as int)) > u64::MAX,
            !over ==> acc == digits_value(s@.subrange(from as int, i as int)),
        decreases n - i,
    {
        let c = s.get_char(i);
        let ghost pre = s@.subrange(from as int, i as int);
        let ghost next = s@.subrange(from as int, i + 1);
        assert(next.drop_last() == pre);
        if !('0' <= c && c <= '9') {
            assert(d[i - from] == c);
            return None;
        }
        let v: u64 = (c as u32 - '0' as u32) as u64;
        if !over {
            if acc > (u64::MAX - v) / 10 {
                over = true;
            } else {
                acc = acc * 10 + v;
            }
        }
        assert(all_digits(next)) by {
            assert forall|k: int| 0 <= k < next.len() implies is_digit(#[trigger] next[k]) by {
                if k < pre.len() {
                    assert(next[k] == pre[k]);
                }
            }
        }
        i = i + 1;
    }
    assert(s@.subrange(from as int, i as int) == d);
    if over {
        None
    } else {
        Some(acc)
    }
}

/// `u64::from_str`.
pub fn parse_u64(s: &str) -> (r: Option<u64>)
    ensures
        r == u64_of(s@),
{
    if s.unicode_len() > 0 && s.get_char(0) == '+' {
        parse_magnitude(s, 1)
    } else {
        parse_magnitude(s, 0)
    }
}

/// `i32::from_str`.
pub fn parse_i32(s: &str) -> (r: Option<i32>)
    ensures
        r == i32_of(s@),
{
    if s.unicode_len() > 0 && s.get_char(0) == '-' {
        match parse_magnitude(s, 1) {
            Some(m) => if m <= 0x8000_0000 {
                Some((0 - (m as i64)) as i32)
            } else {
                None
            },
            None => None,
        }
    } else {
        match parse_u64(s) {
            Some(m) => if m <= 0x7FFF_FFFF {
                Some(m as i32)
            } else {
                None
            },
            None => None,
        }
    }
}

} // verus!

//! Character-level helpers shared by the equation tokenizers: whitespace,
//! trimming, splitting on whitespace, and conversions between `&str`,
//! `Vec<char>` and `String`.
use vstd::prelude::*;

verus! {

/// Characters with the Unicode `White_Space` property, which is what
/// `char::is_whitespace`, `str::trim` and `str::split_whitespace` use.
pub open spec fn is_white_space(c: char) -> bool {
    ||| ('\u{9}' <= c && c <= '\u{d}')
    ||| c == ' '
    ||| c == '\u{85}'
    ||| c == '\u{a0}'
    ||| c == '\u{1680}'
    ||| ('\u{2000}' <= c && c <= '\u{200a}')
    ||| c == '\u{2028}'
    ||| c == '\u{2029}'
    ||| c == '\u{202f}'
    ||| c == '\u{205f}'
    ||| c == '\u{3000}'
}

pub fn is_white_space_char(c: char) -> (b: bool)
    ensures
        b == is_white_space(c),
{
    ('\u{9}' <= c && c <= '\u{d}') || c == ' ' || c == '\u{85}' || c == '\u{a0}' || c
        == '\u{1680}' || ('\u{2000}' <= c && c <= '\u{200a}') || c == '\u{2028}' || c
        == '\u{2029}' || c == '\u{202f}' || c == '\u{205f}' || c == '\u{3000}'
}

/// The characters of a string slice, in order.
pub fn chars_of(s: &str) -> (v: Vec<char>)
    ensures
        v@ == s@,
{
    let mut v: Vec<char> = Vec::new();
    for c in it: s.chars()
        invariant
            it.seq() == s@,
            v@ == it.seq().take(it.index() as int),
    {
        v.push(c);
    }
    v
}

/// Collects characters into an owned `String` (`FromIterator<&char>` for
/// `String`): the string holds exactly the given characters, in order.
#[verifier::external_body]
pub fn string_from_chars(v: &Vec<char>) -> (s: String)
    ensures
        s@ == v@,
{
    String::from_iter(v)
}

/// `s` without its leading white space.
pub open spec fn trim_start_spec(s: Seq<char>) -> Seq<char>
    decreases s.len(),
{
    if s.len() > 0 && is_white_space(s[0]) {
        trim_start_spec(s.drop_first())
    } else {
        s
    }
}

/// `s` without its trailing white space.
pub open spec fn trim_end_spec(s: Seq<char>) -> Seq<char>
    decreases s.len(),
{
    if s.len() > 0 && is_white_space(s.last()) {
        trim_end_spec(s.drop_last())
    } else {
        s
    }
}

/// What `str::trim` gives back: `s` without leading and trailing white space.
pub open spec fn trim_spec(s: Seq<char>) -> Seq<char> {
    trim_end_spec(trim_start_spec(s))
}

/// The characters of `s` without leading and trailing white space.
pub fn trim_chars(s: &Vec<char>) -> (t: Vec<char>)
    ensures
        t@ == trim_spec(s@),
{
    let n = s.len();
    let mut i: usize = 0;
    assert(s@.skip(0) =~= s@);
    while i < n && is_white_space_char(s[i])
        invariant
            i <= n,
            n == s@.len(),
            trim_start_spec(s@) == trim_start_spec(s@.skip(i as int)),
        decreases n - i,
    {
        assert(s@.skip(i as int).drop_first() =~= s@.skip(i + 1));
        i = i + 1;
    }
    let ghost mid = s@.skip(i as int);
    assert(trim_start_spec(mid) == mid);
    let mut j: usize = n;
    while j > i && is_white_space_char(s[j - 1])
        invariant
            i <= j <= n,
            n == s@.len(),
            mid == s@.skip(i as int),
            trim_end_spec(mid) == trim_end_spec(s@.subrange(i as int, j as int)),
        decreases j,
    {
        assert(s@.subrange(i as int, j as int).drop_last() =~= s@.subrange(i as int, j - 1));
        j = j - 1;
    }
    assert(mid.take((n - i) as int) =~= mid);
    let mut t: Vec<char> = Vec::new();
    let mut k: usize = i;
    while k < j
        invariant
            i <= k <= j <= n,
            n == s@.len(),
            t@ == s@.subrange(i as int, k as int),
        decreases j - k,
    {
        t.push(s[k]);
        assert(t@ =~= s@.subrange(i as int, k + 1));
        k = k + 1;
    }
    t
}

/// Left-to-right scan state of `split_whitespace`: the completed words and
/// the word being read.
pub open spec fn ws_scan(s: Seq<char>) -> (Seq<Seq<char>>, Seq<char>)
    decreases s.len(),
{
    if s.len() == 0 {
        (Seq::empty(), Seq::empty())
    } else {
        let (words, cur) = ws_scan(s.drop_last());
        if is_white_space(s.last()) {
            if cur.len() > 0 {
                (words.push(cur), Seq::empty())
            } else {
                (words, cur)
            }
        } else {
            (words, cur.push(s.last()))
        }
    }
}

/// What `str::split_whitespace` yields: the maximal runs of characters that
/// are not white space, in order.
pub open spec fn split_whitespace_spec(s: Seq<char>) -> Seq<Seq<char>> {
    let (words, cur) = ws_scan(s);
    if cur.len() > 0 {
        words.push(cur)
    } else {
        words
    }
}

/// Every word that `split_whitespace` yields is non-empty and holds no white space.
pub proof fn lemma_split_whitespace_words(s: Seq<char>)
    ensures
        forall|k: int|
            0 <= k < split_whitespace_spec(s).len() ==> #[trigger] split_whitespace_spec(s)[k].len()
                > 0,
        forall|k: int, m: int|
            0 <= k < split_whitespace_spec(s).len() && 0 <= m < split_whitespace_spec(s)[k].len()
                ==> !is_white_space(#[trigger] split_whitespace_spec(s)[k][m]),
{
    lemma_ws_scan_words(s);
}

proof fn lemma_ws_scan_words(s: Seq<char>)
    ensures
        forall|k: int| 0 <= k < ws_scan(s).0.len() ==> #[trigger] ws_scan(s).0[k].len() > 0,
        forall|k: int, m: int|
            0 <= k < ws_scan(s).0.len() && 0 <= m < ws_scan(s).0[k].len() ==> !is_white_space(
                #[trigger] ws_scan(s).0[k][m],
            ),
        forall|m: int| 0 <= m < ws_scan(s).1.len() ==> !is_white_space(#[trigger] ws_scan(s).1[m]),
    decreases s.len(),
{
    if s.len() > 0 {
        lemma_ws_scan_words(s.drop_last());
        let (words, cur) = ws_scan(s.drop_last());
        if is_white_space(s.last()) {
            if cur.len() > 0 {
                assert forall|k: int, m: int|
                    0 <= k < words.push(cur).len() && 0 <= m < words.push(cur)[k].len()
                        implies !is_white_space(#[trigger] words.push(cur)[k][m]) by {
                    if k < words.len() {
                        assert(words.push(cur)[k] == words[k]);
                    }
                }
            }
        } else {
            assert forall|m: int| 0 <= m < cur.push(s.last()).len() implies !is_white_space(
                #[trigger] cur.push(s.last())[m],
            ) by {
                if m < cur.len() {
                    assert(cur.push(s.last())[m] == cur[m]);
                }
            }
        }
    }
}

/// The character sequences held by a vector of words.
pub open spec fn words_view(w: Seq<Vec<char>>) -> Seq<Seq<char>> {
    w.map_values(|v: Vec<char>| v@)
}

/// The words of `s` split at white space (`str::split_whitespace`).
pub fn split_whitespace_chars(s: &Vec<char>) -> (words: Vec<Vec<char>>)
    ensures
        words_view(words@) == split_whitespace_spec(s@),
{
    let n = s.len();
    let mut words: Vec<Vec<char>> = Vec::new();
    let mut cur: Vec<char> = Vec::new();
    let mut i: usize = 0;
    while i < n
        invariant
            i <= n,
            n == s@.len(),
            (words_view(words@), cur@) == ws_scan(s@.take(i as int)),
        decreases n - i,
    {
        let c = s[i];
        assert(s@.take(i + 1).drop_last() =~= s@.take(i as int));
        let ghost old_words = words_view(words@);
        if is_white_space_char(c) {
            if cur.len() > 0 {
                words.push(cur);
                assert(words_view(words@) =~= old_words.push(cur@));
                cur = Vec::new();
            }
        } else {
            cur.push(c);
        }
        i = i + 1;
    }
    assert(s@.take(n as int) =~= s@);
    if cur.len() > 0 {
        let ghost old_words = words_view(words@);
        words.push(cur);
        assert(words_view(words@) =~= old_words.push(cur@));
    }
    words
}

/// Whether `c` has the Unicode `Alphabetic` property, which is what
/// `char::is_alphabetic` reports.
pub uninterp spec fn is_alphabetic(c: char) -> bool;

/// An ASCII letter.
pub open spec fn is_ascii_letter(c: char) -> bool {
    ('a' <= c && c <= 'z') || ('A' <= c && c <= 'Z')
}

/// `char::is_alphabetic`. Its result is named `is_alphabetic`; besides, the
/// ASCII letters have the property and no other ASCII character does. What
/// it reports for other characters (the Unicode tables) is not stated.
#[verifier::external_body]
pub fn char_is_alphabetic(c: char) -> (b: bool)
    ensures
        b == is_alphabetic(c),
        is_ascii_letter(c) ==> b,
        (c as u32) < 128 && !is_ascii_letter(c) ==> !b,
{
    c.is_alphabetic()
}

} // verus!

//! Character-level string utilities used by the display-name rules, the
//! search filter and the identity keys: substring tests, decimal rendering
//! of numeric ids, whitespace trimming and path-component extraction.
use vstd::prelude::*;

verus! {

use vstd::string::StrSliceExecFns;
use vstd::string::StringExecFns;

/// `needle` occurs contiguously inside `hay`.
pub open spec fn is_substring_of(needle: Seq<char>, hay: Seq<char>) -> bool {
    exists|i: int|
        0 <= i && i + needle.len() <= hay.len() && #[trigger] hay.subrange(i, i + needle.len())
            == needle
}

/// Collect the characters of a string slice.
pub fn chars_of(s: &str) -> (v: Vec<char>)
    ensures
        v@ == s@,
{
    let n = s.unicode_len();
    let mut v: Vec<char> = Vec::new();
    let mut i: usize = 0;
    while i < n
        invariant
            i <= n,
            n == s@.len(),
            v@ == s@.subrange(0, i as int),
        decreases n - i,
    {
        let c = s.get_char(i);
        v.push(c);
        proof {
            assert(v@ =~= s@.subrange(0, i + 1 as int));
        }
        i += 1;
    }
    proof {
        assert(v@ =~= s@);
    }
    v
}

/// Substring test over character vectors.
pub fn contains_chars(hay: &Vec<char>, needle: &Vec<char>) -> (b: bool)
    ensures
        b == is_substring_of(needle@, hay@),
{
    let nl = needle.len();
    let hl = hay.len();
    if nl > hl {
        return false;
    }
    let mut i: usize = 0;
    while i <= hl - nl
        invariant
            nl == needle@.len(),
            hl == hay@.len(),
            nl <= hl,
            i <= hl - nl + 1,
            forall|k: int|
                0 <= k < i ==> #[trigger] hay@.subrange(k, k + needle@.len()) != needle@,
        decreases hl - nl + 1 - i,
    {
        let mut j: usize = 0;
        let mut matched: bool = true;
        let ghost mut bad: int = 0;
        while j < nl
            invariant
                nl == needle@.len(),
                hl == hay@.len(),
                nl <= hl,
                i <= hl - nl,
                j <= nl,
                matched ==> forall|m: int| 0 <= m < j ==> hay@[i + m] == #[trigger] needle@[m],
                !matched ==> 0 <= bad < nl && hay@[i + bad] != needle@[bad],
            decreases nl - j,
        {
            if hay[i + j] != needle[j] {
                matched = false;
                proof {
                    bad = j as int;
                }
                j = nl;
            } else {
                j += 1;
            }
        }
        if matched {
            proof {
                assert forall|m: int| 0 <= m < needle@.len() implies #[trigger] hay@.subrange(
                    i as int,
                    i + needle@.len(),
                )[m] == needle@[m] by {
                    assert(hay@[i + m] == needle@[m]);
                }
                assert(hay@.subrange(i as int, i + needle@.len()) =~= needle@);
            }
            return true;
        }
        proof {
            assert(hay@.subrange(i as int, i + needle@.len())[bad] == hay@[i + bad]);
            assert(hay@.subrange(i as int, i + needle@.len()) != needle@);
        }
        i += 1;
    }
    proof {
        assert(!is_substring_of(needle@, hay@)) by {
            if is_substring_of(needle@, hay@) {
                let k = choose|k: int|
                    0 <= k && k + needle@.len() <= hay@.len() && #[trigger] hay@.subrange(
                        k,
                        k + needle@.len(),
                    ) == needle@;
                assert(hay@.subrange(k, k + needle@.len()) != needle@);
            }
        }
    }
    false
}

/// The character for one decimal digit.
pub open spec fn dec_digit_char(d: int) -> char {
    if d == 0 {
        '0'
    } else if d == 1 {
        '1'
    } else if d == 2 {
        '2'
    } else if d == 3 {
        '3'
    } else if d == 4 {
        '4'
    } else if d == 5 {
        '5'
    } else if d == 6 {
        '6'
    } else if d == 7 {
        '7'
    } else if d == 8 {
        '8'
    } else {
        '9'
    }
}

/// Decimal rendering of a non-negative integer, most significant digit first.
pub open spec fn dec_chars(n: int) -> Seq<char>
    decreases n,
{
    if n < 10 {
        seq![dec_digit_char(n)]
    } else {
        dec_chars(n / 10).push(dec_digit_char(n % 10))
    }
}

fn dec_digit_str(d: u64) -> (r: &'static str)
    requires
        d < 10,
    ensures
        r@ =~= seq![dec_digit_char(d as int)],
{
    proof {
        reveal_strlit("0");
        reveal_strlit("1");
        reveal_strlit("2");
        reveal_strlit("3");
        reveal_strlit("4");
        reveal_strlit("5");
        reveal_strlit("6");
        reveal_strlit("7");
        reveal_strlit("8");
        reveal_strlit("9");
    }
    if d == 0 {
        "0"
    } else if d == 1 {
        "1"
    } else if d == 2 {
        "2"
    } else if d == 3 {
        "3"
    } else if d == 4 {
        "4"
    } else if d == 5 {
        "5"
    } else if d == 6 {
        "6"
    } else if d == 7 {
        "7"
    } else if d == 8 {
        "8"
    } else {
        "9"
    }
}

/// Decimal rendering of `n` as an owned string.
pub fn u64_dec_str(n: u64) -> (r: String)
    ensures
        r@ == dec_chars(n as int),
    decreases n,
{
    if n < 10 {
        let r = String::from_str(dec_digit_str(n));
        r
    } else {
        let mut r = u64_dec_str(n / 10);
        r.append(dec_digit_str(n % 10));
        proof {
            assert(r@ =~= dec_chars(n as int));
        }
        r
    }
}

/// Identity key of a process: its pid in decimal.
pub open spec fn pid_key(pid: u32) -> Seq<char> {
    dec_chars(pid as int)
}

/// Unicode whitespace (the White_Space property), as `str::trim` removes it.
pub open spec fn is_wspace(c: char) -> bool {
    ||| c == ' '
    ||| c == '\t'
    ||| c == '\n'
    ||| c == '\u{000b}'
    ||| c == '\u{000c}'
    ||| c == '\r'
    ||| c == '\u{0085}'
    ||| c == '\u{00a0}'
    ||| c == '\u{1680}'
    ||| (0x2000 <= (c as u32) && (c as u32) <= 0x200a)
    ||| c == '\u{2028}'
    ||| c == '\u{2029}'
    ||| c == '\u{202f}'
    ||| c == '\u{205f}'
    ||| c == '\u{3000}'
}

fn is_wspace_exec(c: char) -> (b: bool)
    ensures
        b == is_wspace(c),
{
    c == ' ' || c == '\t' || c == '\n' || c == '\u{000b}' || c == '\u{000c}' || c == '\r'
        || c == '\u{0085}' || c == '\u{00a0}' || c == '\u{1680}' || (0x2000 <= (c as u32) && (c
        as u32) <= 0x200a) || c == '\u{2028}' || c == '\u{2029}' || c == '\u{202f}' || c
        == '\u{205f}' || c == '\u{3000}'
}

/// ASCII whitespace, as the argument-token splitter uses it.
pub open spec fn is_ascii_wspace(c: char) -> bool {
    c == ' ' || c == '\t' || c == '\n' || c == '\u{000c}' || c == '\r'
}

fn is_ascii_wspace_exec(c: char) -> (b: bool)
    ensures
        b == is_ascii_wspace(c),
{
    c == ' ' || c == '\t' || c == '\n' || c == '\u{000c}' || c == '\r'
}

/// Number of ASCII-whitespace characters at the front of `s`.
pub open spec fn ascii_leading_ws(s: Seq<char>) -> nat
    decreases s.len(),
{
    if s.len() == 0 || !is_ascii_wspace(s[0]) {
        0
    } else {
        1 + ascii_leading_ws(s.drop_first())
    }
}

proof fn lemma_ascii_leading_ws_exact(s: Seq<char>, i: int)
    requires
        0 <= i <= s.len(),
        forall|j: int| 0 <= j < i ==> is_ascii_wspace(#[trigger] s[j]),
        i < s.len() ==> !is_ascii_wspace(s[i]),
    ensures
        ascii_leading_ws(s) == i,
    decreases s.len(),
{
    if s.len() == 0 {
    } else if i == 0 {
    } else {
        assert(is_ascii_wspace(s[0]));
        lemma_ascii_leading_ws_exact(s.drop_first(), i - 1);
    }
}

/// Number of whitespace characters at the front of `s`.
pub open spec fn leading_ws(s: Seq<char>) -> nat
    decreases s.len(),
{
    if s.len() == 0 || !is_wspace(s[0]) {
        0
    } else {
        1 + leading_ws(s.drop_first())
    }
}

/// Number of whitespace characters at the back of `s`.
pub open spec fn trailing_ws(s: Seq<char>) -> nat
    decreases s.len(),
{
    if s.len() == 0 || !is_wspace(s.last()) {
        0
    } else {
        1 + trailing_ws(s.drop_last())
    }
}

pub proof fn lemma_leading_ws(s: Seq<char>)
    ensures
        leading_ws(s) <= s.len(),
        forall|j: int| 0 <= j < leading_ws(s) ==> is_wspace(#[trigger] s[j]),
        leading_ws(s) < s.len() ==> !is_wspace(s[leading_ws(s) as int]),
    decreases s.len(),
{
    if s.len() > 0 && is_wspace(s[0]) {
        lemma_leading_ws(s.drop_first());
        assert forall|j: int| 0 <= j < leading_ws(s) implies is_wspace(#[trigger] s[j]) by {
            if j > 0 {
                assert(s.drop_first()[j - 1] == s[j]);
            }
        }
        if leading_ws(s) < s.len() {
            assert(s.drop_first()[leading_ws(s) - 1] == s[leading_ws(s) as int]);
        }
    }
}

pub proof fn lemma_trailing_ws(s: Seq<char>)
    ensures
        trailing_ws(s) <= s.len(),
        forall|j: int| s.len() - trailing_ws(s) <= j < s.len() ==> is_wspace(#[trigger] s[j]),
        trailing_ws(s) < s.len() ==> !is_wspace(s[s.len() - trailing_ws(s) - 1]),
    decreases s.len(),
{
    if s.len() > 0 && is_wspace(s.last()) {
        lemma_trailing_ws(s.drop_last());
        assert forall|j: int| s.len() - trailing_ws(s) <= j < s.len() implies is_wspace(
            #[trigger] s[j],
        ) by {
            if j < s.len() - 1 {
                assert(s.drop_last()[j] == s[j]);
            }
        }
        if trailing_ws(s) < s.len() {
            assert(s.drop_last()[s.len() - trailing_ws(s) - 1] == s[s.len() - trailing_ws(s)
                - 1]);
        }
    }
}

/// `s` with ASCII whitespace removed from both ends.
pub open spec fn spec_trim(s: Seq<char>) -> Seq<char> {
    if leading_ws(s) == s.len() {
        Seq::empty()
    } else {
        s.subrange(leading_ws(s) as int, s.len() - trailing_ws(s))
    }
}

/// Characterisation used to tie the scanning loops to `leading_ws`.
proof fn lemma_leading_ws_exact(s: Seq<char>, i: int)
    requires
        0 <= i <= s.len(),
        forall|j: int| 0 <= j < i ==> is_wspace(#[trigger] s[j]),
        i < s.len() ==> !is_wspace(s[i]),
    ensures
        leading_ws(s) == i,
    decreases s.len(),
{
    if s.len() == 0 {
    } else if i == 0 {
    } else {
        assert(is_wspace(s[0]));
        lemma_leading_ws_exact(s.drop_first(), i - 1);
    }
}

proof fn lemma_trailing_ws_exact(s: Seq<char>, i: int)
    requires
        0 <= i <= s.len(),
        forall|j: int| s.len() - i <= j < s.len() ==> is_wspace(#[trigger] s[j]),
        i < s.len() ==> !is_wspace(s[s.len() - i - 1]),
    ensures
        trailing_ws(s) == i,
    decreases s.len(),
{
    if s.len() == 0 {
    } else if i == 0 {
    } else {
        assert(is_wspace(s.last()));
        lemma_trailing_ws_exact(s.drop_last(), i - 1);
    }
}

/// Trim ASCII whitespace from both ends of `s`.
pub fn trim_str<'a>(s: &'a str) -> (r: &'a str)
    ensures
        r@ == spec_trim(s@),
{
    let n = s.unicode_len();
    let mut a: usize = 0;
    while a < n && is_wspace_exec(s.get_char(a))
        invariant
            a <= n,
            n == s@.len(),
            forall|j: int| 0 <= j < a ==> is_wspace(#[trigger] s@[j]),
        decreases n - a,
    {
        a += 1;
    }
    proof {
        lemma_leading_ws_exact(s@, a as int);
    }
    if a == n {
        let r = s.substring_char(0, 0);
        proof {
            assert(r@ =~= spec_trim(s@));
        }
        return r;
    }
    let mut b: usize = 0;
    while b < n - a && is_wspace_exec(s.get_char(n - 1 - b))
        invariant
            a < n,
            b <= n - a,
            n == s@.len(),
            !is_wspace(s@[a as int]),
            forall|j: int| n - b <= j < n ==> is_wspace(#[trigger] s@[j]),
        decreases n - a - b,
    {
        b += 1;
    }
    proof {
        if b < n {
            assert(!is_wspace(s@[n - b - 1])) by {
                if n - b - 1 == a {
                } else {
                    assert(b == n - a ==> n - b - 1 < a);
                }
            }
        }
        lemma_trailing_ws_exact(s@, b as int);
    }
    s.substring_char(a, n - b)
}

/// The part of `s` after the last occurrence of `c`; all of `s` when `c`
/// does not occur.
pub open spec fn after_last(s: Seq<char>, c: char) -> Seq<char>
    decreases s.len(),
{
    if !s.contains(c) {
        s
    } else if s.last() == c {
        Seq::empty()
    } else {
        after_last(s.drop_last(), c).push(s.last())
    }
}

proof fn lemma_after_last_found(s: Seq<char>, c: char, k: int)
    requires
        0 <= k < s.len(),
        s[k] == c,
        forall|j: int| k < j < s.len() ==> #[trigger] s[j] != c,
    ensures
        after_last(s, c) == s.subrange(k + 1, s.len() as int),
    decreases s.len(),
{
    assert(s.contains(c));
    if k == s.len() - 1 {
        assert(after_last(s, c) =~= s.subrange(k + 1, s.len() as int));
    } else {
        assert(s.last() != c);
        assert(forall|j: int| k < j < s.drop_last().len() ==> #[trigger] s.drop_last()[j] != c);
        assert(s.drop_last()[k] == c);
        lemma_after_last_found(s.drop_last(), c, k);
        assert(after_last(s, c) =~= s.subrange(k + 1, s.len() as int));
    }
}

proof fn lemma_after_last_missing(s: Seq<char>, c: char)
    requires
        forall|j: int| 0 <= j < s.len() ==> #[trigger] s[j] != c,
    ensures
        after_last(s, c) == s,
{
    if s.contains(c) {
        let j = choose|j: int| 0 <= j < s.len() && s[j] == c;
    }
}

/// The suffix of `s` after its last occurrence of `c`.
pub fn after_last_char<'a>(s: &'a str, c: char) -> (r: &'a str)
    ensures
        r@ == after_last(s@, c),
{
    let n = s.unicode_len();
    let mut found: bool = false;
    let mut k: usize = 0;
    let mut i: usize = 0;
    while i < n
        invariant
            i <= n,
            n == s@.len(),
            found ==> k < i && s@[k as int] == c && forall|j: int|
                k < j < i ==> #[trigger] s@[j] != c,
            !found ==> forall|j: int| 0 <= j < i ==> #[trigger] s@[j] != c,
        decreases n - i,
    {
        if s.get_char(i) == c {
            found = true;
            k = i;
        }
        i += 1;
    }
    if found {
        proof {
            lemma_after_last_found(s@, c, k as int);
        }
        s.substring_char(k + 1, n)
    } else {
        proof {
            lemma_after_last_missing(s@, c);
        }
        s
    }
}

/// `s` without one trailing colon, when it has one.
pub open spec fn strip_colon(s: Seq<char>) -> Seq<char> {
    if s.len() > 0 && s.last() == ':' {
        s.drop_last()
    } else {
        s
    }
}

/// Remove one trailing colon.
pub fn strip_colon_str<'a>(s: &'a str) -> (r: &'a str)
    ensures
        r@ == strip_colon(s@),
{
    let n = s.unicode_len();
    if n > 0 && s.get_char(n - 1) == ':' {
        let r = s.substring_char(0, n - 1);
        proof {
            assert(r@ =~= strip_colon(s@));
        }
        r
    } else {
        s
    }
}

/// The first ASCII-whitespace-separated token of `s`, when `s` has one.
pub open spec fn first_token(s: Seq<char>) -> Option<Seq<char>> {
    if ascii_leading_ws(s) == s.len() {
        None
    } else {
        let rest = s.subrange(ascii_leading_ws(s) as int, s.len() as int);
        Some(rest.subrange(0, leading_non_ws(rest) as int))
    }
}

/// Number of characters before the first ASCII whitespace in `s`.
pub open spec fn leading_non_ws(s: Seq<char>) -> nat
    decreases s.len(),
{
    if s.len() == 0 || is_ascii_wspace(s[0]) {
        0
    } else {
        1 + leading_non_ws(s.drop_first())
    }
}

proof fn lemma_leading_non_ws_exact(s: Seq<char>, i: int)
    requires
        0 <= i <= s.len(),
        forall|j: int| 0 <= j < i ==> !is_ascii_wspace(#[trigger] s[j]),
        i < s.len() ==> is_ascii_wspace(s[i]),
    ensures
        leading_non_ws(s) == i,
    decreases s.len(),
{
    if s.len() == 0 {
    } else if i == 0 {
    } else {
        lemma_leading_non_ws_exact(s.drop_first(), i - 1);
    }
}

/// The first whitespace-separated token of `s`.
pub fn first_token_str<'a>(s: &'a str) -> (r: Option<&'a str>)
    ensures
        match r {
            Some(t) => first_token(s@) == Some(t@),
            None => first_token(s@) == None::<Seq<char>>,
        },
{
    let n = s.unicode_len();
    let mut a: usize = 0;
    while a < n && is_ascii_wspace_exec(s.get_char(a))
        invariant
            a <= n,
            n == s@.len(),
            forall|j: int| 0 <= j < a ==> is_ascii_wspace(#[trigger] s@[j]),
        decreases n - a,
    {
        a += 1;
    }
    proof {
        lemma_ascii_leading_ws_exact(s@, a as int);
    }
    if a == n {
        return None;
    }
    let mut b: usize = a;
    while b < n && !is_ascii_wspace_exec(s.get_char(b))
        invariant
            a <= b <= n,
            n == s@.len(),
            forall|j: int| a <= j < b ==> !is_ascii_wspace(#[trigger] s@[j]),
        decreases n - b,
    {
        b += 1;
    }
    let t = s.substring_char(a, b);
    proof {
        let rest = s@.subrange(a as int, n as int);
        assert(forall|j: int| 0 <= j < b - a ==> !is_ascii_wspace(#[trigger] rest[j]));
        if b < n {
            assert(is_ascii_wspace(rest[b - a]));
        }
        lemma_leading_non_ws_exact(rest, b - a);
        assert(t@ =~= rest.subrange(0, leading_non_ws(rest) as int));
    }
    Some(t)
}

/// The parts joined with single spaces, as a command line is shown.
pub open spec fn spec_join_space(parts: Seq<Seq<char>>) -> Seq<char>
    decreases parts.len(),
{
    if parts.len() == 0 {
        Seq::empty()
    } else if parts.len() == 1 {
        parts[0]
    } else {
        spec_join_space(parts.drop_last()) + seq![' '] + parts.last()
    }
}

/// Join strings with single spaces.
pub fn join_space(parts: &Vec<String>) -> (r: String)
    ensures
        r@ == spec_join_space(parts.deep_view()),
{
    proof {
        reveal_strlit(" ");
        assert(" "@ =~= seq![' ']);
    }
    let n = parts.len();
    let mut r = String::new();
    let mut i: usize = 0;
    proof {
        assert(parts.deep_view().len() == n);
        assert(r@ =~= spec_join_space(parts.deep_view().subrange(0, 0)));
    }
    while i < n
        invariant
            n == parts@.len(),
            n == parts.deep_view().len(),
            i <= n,
            " "@ =~= seq![' '],
            r@ == spec_join_space(parts.deep_view().subrange(0, i as int)),
        decreases n - i,
    {
        if i > 0 {
            r.append(" ");
        }
        r.append(parts[i].as_str());
        proof {
            let pre = parts.deep_view().subrange(0, i as int);
            let pre1 = parts.deep_view().subrange(0, i + 1 as int);
            assert(pre1.drop_last() =~= pre);
            assert(pre1.last() == parts.deep_view()[i as int]);
            assert(parts.deep_view()[i as int] == parts@[i as int]@);
            if i == 0 {
                assert(r@ =~= pre1[0]);
            } else {
                assert(r@ =~= spec_join_space(pre) + seq![' '] + pre1.last());
            }
        }
        i += 1;
    }
    proof {
        assert(parts.deep_view().subrange(0, n as int) =~= parts.deep_view());
    }
    r
}

/// What `str::to_lowercase` returns for a given character sequence.
pub uninterp spec fn lower_of(s: Seq<char>) -> Seq<char>;

/// Lowercase a string. Relies on `str::to_lowercase` from std: the result
/// is a function of the characters alone, and an empty string stays empty.
#[verifier::external_body]
pub fn lowercase(s: &str) -> (r: String)
    ensures
        r@ == lower_of(s@),
        s@.len() == 0 ==> r@.len() == 0,
{
    s.to_lowercase()
}

/// The Levenshtein edit distance: the least number of single-character
/// insertions, deletions and substitutions that turn `a` into `b`.
pub open spec fn edit_distance(a: Seq<char>, b: Seq<char>) -> nat
    decreases a.len(), b.len(),
{
    if a.len() == 0 {
        b.len()
    } else if b.len() == 0 {
        a.len()
    } else if a[0] == b[0] {
        edit_distance(a.drop_first(), b.drop_first())
    } else {
        let del = edit_distance(a.drop_first(), b);
        let ins = edit_distance(a, b.drop_first());
        let sub = edit_distance(a.drop_first(), b.drop_first());
        1 + (if del <= ins && del <= sub {
            del
        } else if ins <= sub {
            ins
        } else {
            sub
        })
    }
}

/// Character-level Levenshtein distance. Relies on
/// `textdistance::str::levenshtein`, whose table computes exactly the
/// unit-cost recursion that `edit_distance` states.
#[verifier::external_body]
pub fn levenshtein_distance(a: &str, b: &str) -> (r: usize)
    ensures
        r == edit_distance(a@, b@),
{
    textdistance::str::levenshtein(a, b)
}

} // verus!

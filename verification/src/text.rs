//! Character classification and text scanning, shared by the lexer, the
//! assembler and the translator machine. The specification side works on
//! `Seq<char>`; the executable side walks `&str` values character by
//! character.

use vstd::prelude::*;

verus! {

/// ASCII whitespace, as `char::is_ascii_whitespace` classifies it.
pub open spec fn is_ws_char(c: char) -> bool {
    c == ' ' || c == '\t' || c == '\n' || c == '\r' || c == '\x0c'
}

/// ASCII letter.
pub open spec fn is_alpha_char(c: char) -> bool {
    ('a' <= c && c <= 'z') || ('A' <= c && c <= 'Z')
}

/// ASCII decimal digit.
pub open spec fn is_digit_char(c: char) -> bool {
    '0' <= c && c <= '9'
}

/// ASCII letter or digit.
pub open spec fn is_alnum_char(c: char) -> bool {
    is_alpha_char(c) || is_digit_char(c)
}

/// Digit or decimal point: the characters a numeric token is drawn from.
pub open spec fn is_num_char(c: char) -> bool {
    is_digit_char(c) || c == '.'
}

pub fn is_ws(c: char) -> (r: bool)
    ensures
        r == is_ws_char(c),
{
    c == ' ' || c == '\t' || c == '\n' || c == '\r' || c == '\x0c'
}

pub fn is_alpha(c: char) -> (r: bool)
    ensures
        r == is_alpha_char(c),
{
    ('a' <= c && c <= 'z') || ('A' <= c && c <= 'Z')
}

pub fn is_digit(c: char) -> (r: bool)
    ensures
        r == is_digit_char(c),
{
    '0' <= c && c <= '9'
}

pub fn is_alnum(c: char) -> (r: bool)
    ensures
        r == is_alnum_char(c),
{
    is_alpha(c) || is_digit(c)
}

/// First position at or after `i` that does not hold whitespace.
pub open spec fn skip_ws(s: Seq<char>, i: int) -> int
    recommends
        0 <= i <= s.len(),
    decreases s.len() - i,
{
    if i < s.len() && is_ws_char(s[i]) {
        skip_ws(s, i + 1)
    } else {
        i
    }
}

pub proof fn lemma_skip_ws(s: Seq<char>, i: int)
    requires
        0 <= i <= s.len(),
    ensures
        i <= skip_ws(s, i) <= s.len(),
        forall|k: int| i <= k < skip_ws(s, i) ==> is_ws_char(s[k]),
        skip_ws(s, i) == s.len() || !is_ws_char(s[skip_ws(s, i)]),
    decreases s.len() - i,
{
    if i < s.len() && is_ws_char(s[i]) {
        lemma_skip_ws(s, i + 1);
    }
}

/// First position at or after `i` that does not hold a letter or digit.
pub open spec fn alnum_end(s: Seq<char>, i: int) -> int
    recommends
        0 <= i <= s.len(),
    decreases s.len() - i,
{
    if i < s.len() && is_alnum_char(s[i]) {
        alnum_end(s, i + 1)
    } else {
        i
    }
}

pub proof fn lemma_alnum_end(s: Seq<char>, i: int)
    requires
        0 <= i <= s.len(),
    ensures
        i <= alnum_end(s, i) <= s.len(),
        forall|k: int| i <= k < alnum_end(s, i) ==> is_alnum_char(s[k]),
        alnum_end(s, i) == s.len() || !is_alnum_char(s[alnum_end(s, i)]),
    decreases s.len() - i,
{
    if i < s.len() && is_alnum_char(s[i]) {
        lemma_alnum_end(s, i + 1);
    }
}

/// First position at or after `i` that holds neither a digit nor a dot.
pub open spec fn num_end(s: Seq<char>, i: int) -> int
    recommends
        0 <= i <= s.len(),
    decreases s.len() - i,
{
    if i < s.len() && is_num_char(s[i]) {
        num_end(s, i + 1)
    } else {
        i
    }
}

pub proof fn lemma_num_end(s: Seq<char>, i: int)
    requires
        0 <= i <= s.len(),
    ensures
        i <= num_end(s, i) <= s.len(),
        forall|k: int| i <= k < num_end(s, i) ==> is_num_char(s[k]),
        num_end(s, i) == s.len() || !is_num_char(s[num_end(s, i)]),
    decreases s.len() - i,
{
    if i < s.len() && is_num_char(s[i]) {
        lemma_num_end(s, i + 1);
    }
}

/// First position at or after `i` that holds a single quote, or the length
/// of `s` when there is none.
pub open spec fn find_quote(s: Seq<char>, i: int) -> int
    recommends
        0 <= i <= s.len(),
    decreases s.len() - i,
{
    if i < s.len() {
        if s[i] == '\'' {
            i
        } else {
            find_quote(s, i + 1)
        }
    } else {
        i
    }
}

pub proof fn lemma_find_quote(s: Seq<char>, i: int)
    requires
        0 <= i <= s.len(),
    ensures
        i <= find_quote(s, i) <= s.len(),
        forall|k: int| i <= k < find_quote(s, i) ==> s[k] != '\'',
        find_quote(s, i) == s.len() || s[find_quote(s, i)] == '\'',
    decreases s.len() - i,
{
    if i < s.len() && s[i] != '\'' {
        lemma_find_quote(s, i + 1);
    }
}

/// Length of `s` once trailing whitespace is dropped.
pub open spec fn trim_end_len(s: Seq<char>) -> int
    decreases s.len(),
{
    if s.len() > 0 && is_ws_char(s.last()) {
        trim_end_len(s.drop_last())
    } else {
        s.len() as int
    }
}

pub proof fn lemma_trim_end_len(s: Seq<char>)
    ensures
        0 <= trim_end_len(s) <= s.len(),
        forall|k: int| trim_end_len(s) <= k < s.len() ==> is_ws_char(s[k]),
        trim_end_len(s) == 0 || !is_ws_char(s[trim_end_len(s) - 1]),
    decreases s.len(),
{
    if s.len() > 0 && is_ws_char(s.last()) {
        lemma_trim_end_len(s.drop_last());
        assert forall|k: int| trim_end_len(s) <= k < s.len() implies is_ws_char(s[k]) by {
            if k < s.len() - 1 {
                assert(is_ws_char(s.drop_last()[k]));
            }
        }
        if trim_end_len(s) > 0 {
            assert(!is_ws_char(s.drop_last()[trim_end_len(s) - 1]));
        }
    }
}

/// Position just after the last newline of `s`, or 0 when `s` has none.
pub open spec fn after_last_nl(s: Seq<char>) -> int
    decreases s.len(),
{
    if s.len() > 0 {
        if s.last() == '\n' {
            s.len() as int
        } else {
            after_last_nl(s.drop_last())
        }
    } else {
        0
    }
}

pub proof fn lemma_after_last_nl(s: Seq<char>)
    ensures
        0 <= after_last_nl(s) <= s.len(),
        forall|k: int| after_last_nl(s) <= k < s.len() ==> s[k] != '\n',
        after_last_nl(s) == 0 || s[after_last_nl(s) - 1] == '\n',
    decreases s.len(),
{
    if s.len() > 0 && s.last() != '\n' {
        lemma_after_last_nl(s.drop_last());
        assert forall|k: int| after_last_nl(s) <= k < s.len() implies s[k] != '\n' by {
            if k < s.len() - 1 {
                assert(s.drop_last()[k] != '\n');
            }
        }
        if after_last_nl(s) > 0 {
            assert(s.drop_last()[after_last_nl(s) - 1] == '\n');
        }
    }
}

/// Executable whitespace skip: returns `skip_ws` of the view.
pub fn skip_ws_from(s: &str, from: usize) -> (r: usize)
    requires
        from <= s@.len(),
    ensures
        r == skip_ws(s@, from as int),
        from <= r <= s@.len(),
{
    proof {
        lemma_skip_ws(s@, from as int);
    }
    let n: usize = s.unicode_len();
    let mut i: usize = from;
    while i < n && is_ws(s.get_char(i))
        invariant
            from <= i <= n,
            n == s@.len(),
            skip_ws(s@, from as int) == skip_ws(s@, i as int),
        decreases n - i,
    {
        i = i + 1;
    }
    i
}

/// Executable scan over letters and digits.
pub fn alnum_end_from(s: &str, from: usize) -> (r: usize)
    requires
        from <= s@.len(),
    ensures
        r == alnum_end(s@, from as int),
        from <= r <= s@.len(),
{
    proof {
        lemma_alnum_end(s@, from as int);
    }
    let n: usize = s.unicode_len();
    let mut i: usize = from;
    while i < n && is_alnum(s.get_char(i))
        invariant
            from <= i <= n,
            n == s@.len(),
            alnum_end(s@, from as int) == alnum_end(s@, i as int),
        decreases n - i,
    {
        i = i + 1;
    }
    i
}

/// Executable scan over digits and dots.
pub fn num_end_from(s: &str, from: usize) -> (r: usize)
    requires
        from <= s@.len(),
    ensures
        r == num_end(s@, from as int),
        from <= r <= s@.len(),
{
    proof {
        lemma_num_end(s@, from as int);
    }
    let n: usize = s.unicode_len();
    let mut i: usize = from;
    while i < n && (is_digit(s.get_char(i)) || s.get_char(i) == '.')
        invariant
            from <= i <= n,
            n == s@.len(),
            num_end(s@, from as int) == num_end(s@, i as int),
        decreases n - i,
    {
        i = i + 1;
    }
    i
}

/// Executable search for the next single quote.
pub fn find_quote_from(s: &str, from: usize) -> (r: usize)
    requires
        from <= s@.len(),
    ensures
        r == find_quote(s@, from as int),
        from <= r <= s@.len(),
{
    proof {
        lemma_find_quote(s@, from as int);
    }
    let n: usize = s.unicode_len();
    let mut i: usize = from;
    while i < n && s.get_char(i) != '\''
        invariant
            from <= i <= n,
            n == s@.len(),
            find_quote(s@, from as int) == find_quote(s@, i as int),
        decreases n - i,
    {
        i = i + 1;
    }
    i
}

/// Does `pat` occur in `s` starting at position `at`?
pub fn matches_at(s: &str, at: usize, pat: &str) -> (r: bool)
    requires
        at <= s@.len(),
    ensures
        r == (at + pat@.len() <= s@.len() && s@.subrange(
            at as int,
            at + pat@.len(),
        ) =~= pat@),
{
    let n: usize = s.unicode_len();
    let pn: usize = pat.unicode_len();
    if pn > n - at {
        return false;
    }
    let mut i: usize = 0;
    while i < pn
        invariant
            0 <= i <= pn,
            pn == pat@.len(),
            n == s@.len(),
            at + pn <= n,
            forall|k: int| 0 <= k < i ==> s@[at + k] == pat@[k],
        decreases pn - i,
    {
        if s.get_char(at + i) != pat.get_char(i) {
            assert(s@.subrange(at as int, at + pn) != pat@) by {
                assert(s@.subrange(at as int, at + pn)[i as int] != pat@[i as int]);
            }
            return false;
        }
        i = i + 1;
    }
    assert(s@.subrange(at as int, at + pn) =~= pat@);
    true
}

/// Do the two strings hold the same characters?
pub fn str_eq(a: &str, b: &str) -> (r: bool)
    ensures
        r == (a@ == b@),
{
    let la: usize = a.unicode_len();
    let lb: usize = b.unicode_len();
    if la != lb {
        return false;
    }
    let same = matches_at(a, 0, b);
    proof {
        if same {
            assert(a@.subrange(0, a@.len() as int) =~= a@);
        }
    }
    same
}

/// Does `p` stand at the front of `s`?
pub fn str_is_prefix(p: &str, s: &str) -> (r: bool)
    ensures
        r == p@.is_prefix_of(s@),
{
    matches_at(s, 0, p)
}

/// A fresh `String` holding the characters of `s` from `from` to `to`.
pub fn copy_range(s: &str, from: usize, to: usize) -> (r: String)
    requires
        from <= to <= s@.len(),
    ensures
        r@ == s@.subrange(from as int, to as int),
{
    String::from_str(s.substring_char(from, to))
}

/// First position at or after `i` that holds a newline, or the length of
/// `s` when there is none.
pub open spec fn find_nl(s: Seq<char>, i: int) -> int
    recommends
        0 <= i <= s.len(),
    decreases s.len() - i,
{
    if i < s.len() {
        if s[i] == '\n' {
            i
        } else {
            find_nl(s, i + 1)
        }
    } else {
        i
    }
}

pub proof fn lemma_find_nl(s: Seq<char>, i: int)
    requires
        0 <= i <= s.len(),
    ensures
        i <= find_nl(s, i) <= s.len(),
        forall|k: int| i <= k < find_nl(s, i) ==> s[k] != '\n',
        find_nl(s, i) == s.len() || s[find_nl(s, i)] == '\n',
    decreases s.len() - i,
{
    if i < s.len() && s[i] != '\n' {
        lemma_find_nl(s, i + 1);
    }
}

/// Executable search for the next newline.
pub fn find_nl_from(s: &str, from: usize) -> (r: usize)
    requires
        from <= s@.len(),
    ensures
        r == find_nl(s@, from as int),
        from <= r <= s@.len(),
{
    proof {
        lemma_find_nl(s@, from as int);
    }
    let n: usize = s.unicode_len();
    let mut i: usize = from;
    while i < n && s.get_char(i) != '\n'
        invariant
            from <= i <= n,
            n == s@.len(),
            find_nl(s@, from as int) == find_nl(s@, i as int),
        decreases n - i,
    {
        i = i + 1;
    }
    i
}

/// A fresh `String` holding `s` with its trailing whitespace dropped.
pub fn trimmed_end(s: &str) -> (r: String)
    ensures
        r@ == s@.take(trim_end_len(s@)),
{
    proof {
        lemma_trim_end_len(s@);
    }
    let n: usize = s.unicode_len();
    let mut k: usize = n;
    while k > 0 && is_ws(s.get_char(k - 1))
        invariant
            0 <= k <= n,
            n == s@.len(),
            trim_end_len(s@) <= k,
            forall|j: int| k <= j < n ==> is_ws_char(#[trigger] s@[j]),
        decreases k,
    {
        proof {
            lemma_trim_end_len(s@);
        }
        k = k - 1;
    }
    proof {
        assert(k as int == trim_end_len(s@)) by {
            lemma_trim_end_len(s@);
            if k > 0 && trim_end_len(s@) < k {
                assert(is_ws_char(s@[k - 1]));
            }
        }
    }
    copy_range(s, 0, k)
}

/// The character standing for one decimal digit.
pub open spec fn digit_char(d: int) -> char
    recommends
        0 <= d < 10,
{
    if d == 0 {
        '0'
    } else if d == 1 {
        '1'
    } else if d == 2 {
        '2'
    } else if d == 3 {
        '3'
    } else if d == 4 {
        '4'
    } else if d == 5 {
        '5'
    } else if d == 6 {
        '6'
    } else if d == 7 {
        '7'
    } else if d == 8 {
        '8'
    } else {
        '9'
    }
}

fn digit_str(d: u64) -> (r: &'static str)
    requires
        d < 10,
    ensures
        r@ =~= seq![digit_char(d as int)],
{
    proof {
        reveal_strlit("0");
        reveal_strlit("1");
        reveal_strlit("2");
        reveal_strlit("3");
        reveal_strlit("4");
        reveal_strlit("5");
        reveal_strlit("6");
        reveal_strlit("7");
        reveal_strlit("8");
        reveal_strlit("9");
    }
    if d == 0 {
        "0"
    } else if d == 1 {
        "1"
    } else if d == 2 {
        "2"
    } else if d == 3 {
        "3"
    } else if d == 4 {
        "4"
    } else if d == 5 {
        "5"
    } else if d == 6 {
        "6"
    } else if d == 7 {
        "7"
    } else if d == 8 {
        "8"
    } else {
        "9"
    }
}

/// Decimal digits of `n`, most significant first.
pub open spec fn dec_digits(n: int) -> Seq<char>
    recommends
        n >= 0,
    decreases n,
{
    if n < 10 {
        seq![digit_char(n)]
    } else {
        dec_digits(n / 10).push(digit_char(n % 10))
    }
}

/// Decimal rendering of `n`.
pub fn dec_string(n: u64) -> (r: String)
    ensures
        r@ == dec_digits(n as int),
    decreases n,
{
    if n < 10 {
        String::from_str(digit_str(n))
    } else {
        let mut s = dec_string(n / 10);
        s.append(digit_str(n % 10));
        proof {
            assert(dec_digits(n as int) =~= dec_digits(n as int / 10) + seq![
                digit_char(n as int % 10),
            ]);
        }
        s
    }
}

/// Exactly `w` decimal digits of `n`, leading zeros kept.
pub open spec fn fixed_digits(n: int, w: int) -> Seq<char>
    recommends
        n >= 0,
    decreases w,
{
    if w <= 0 {
        Seq::empty()
    } else {
        fixed_digits(n / 10, w - 1).push(digit_char(n % 10))
    }
}

/// Decimal rendering of `n` in exactly `w` places.
pub fn fixed_string(n: u64, w: usize) -> (r: String)
    ensures
        r@ == fixed_digits(n as int, w as int),
    decreases w,
{
    if w == 0 {
        let r = String::new();
        proof {
            assert(r@ =~= fixed_digits(n as int, 0));
        }
        r
    } else {
        let mut s = fixed_string(n / 10, w - 1);
        s.append(digit_str(n % 10));
        proof {
            assert(s@ =~= fixed_digits(n as int, w as int));
        }
        s
    }
}

/// Trailing zeros dropped, always keeping at least one character.
pub open spec fn trim_zeros(s: Seq<char>) -> Seq<char>
    decreases s.len(),
{
    if s.len() > 1 && s.last() == '0' {
        trim_zeros(s.drop_last())
    } else {
        s
    }
}

/// A fresh `String` holding `s` with trailing zeros dropped, at least one
/// character kept.
pub fn trim_zeros_string(s: &str) -> (r: String)
    ensures
        r@ == trim_zeros(s@),
{
    let n: usize = s.unicode_len();
    let mut k: usize = n;
    proof {
        assert(s@.take(n as int) =~= s@);
    }
    while k > 1 && s.get_char(k - 1) == '0'
        invariant
            0 <= k <= n,
            n == s@.len(),
            trim_zeros(s@) == trim_zeros(s@.take(k as int)),
        decreases k,
    {
        proof {
            assert(s@.take(k as int).drop_last() =~= s@.take(k - 1));
        }
        k = k - 1;
    }
    proof {
        assert(s@.take(n as int) =~= s@);
        assert(trim_zeros(s@.take(k as int)) == s@.take(k as int));
    }
    copy_range(s, 0, k)
}

/// Decimal digits of `n` left-padded with zeros to at least three places.
pub open spec fn dec3_digits(n: int) -> Seq<char>
    recommends
        n >= 0,
{
    if n < 10 {
        seq!['0', '0'] + dec_digits(n)
    } else if n < 100 {
        seq!['0'] + dec_digits(n)
    } else {
        dec_digits(n)
    }
}

/// Decimal rendering of `n` zero-padded to at least three places.
pub fn dec3_string(n: u64) -> (r: String)
    ensures
        r@ == dec3_digits(n as int),
{
    proof {
        reveal_strlit("00");
        reveal_strlit("0");
    }
    if n < 10 {
        let mut s = String::from_str("00");
        let d = dec_string(n);
        s.append(d.as_str());
        assert(s@ =~= dec3_digits(n as int));
        s
    } else if n < 100 {
        let mut s = String::from_str("0");
        let d = dec_string(n);
        s.append(d.as_str());
        assert(s@ =~= dec3_digits(n as int));
        s
    } else {
        dec_string(n)
    }
}

} // verus!

//! Text helpers: whitespace trimming, integer parsing and formatting,
//! and ordering of strings.

use vstd::prelude::*;

verus! {

/// Whether a character carries the Unicode `White_Space` property, the set
/// that `char::is_whitespace` tests.
pub open spec fn is_space(c: char) -> bool {
    ('\t' <= c && c <= '\r') || c == ' ' || c == '\u{85}' || c == '\u{A0}' || c == '\u{1680}'
        || ('\u{2000}' <= c && c <= '\u{200A}') || c == '\u{2028}' || c == '\u{2029}'
        || c == '\u{202F}' || c == '\u{205F}' || c == '\u{3000}'
}

/// Whether `c` is whitespace, as `char::is_whitespace` says.
pub fn char_is_space(c: char) -> (r: bool)
    ensures
        r == is_space(c),
{
    ('\t' <= c && c <= '\r') || c == ' ' || c == '\u{85}' || c == '\u{A0}' || c == '\u{1680}'
        || ('\u{2000}' <= c && c <= '\u{200A}') || c == '\u{2028}' || c == '\u{2029}'
        || c == '\u{202F}' || c == '\u{205F}' || c == '\u{3000}'
}

/// Relies on `String::push`: the character is appended at the end.
#[verifier::external_body]
pub(crate) fn push_char(s: &mut String, c: char)
    ensures
        final(s)@ == old(s)@.push(c),
{
    s.push(c)
}

/// `s` without its leading whitespace.
pub open spec fn trim_start_seq(s: Seq<char>) -> Seq<char>
    decreases s.len(),
{
    if s.len() > 0 && is_space(s[0]) {
        trim_start_seq(s.drop_first())
    } else {
        s
    }
}

/// `s` without its trailing whitespace.
pub open spec fn trim_end_seq(s: Seq<char>) -> Seq<char>
    decreases s.len(),
{
    if s.len() > 0 && is_space(s.last()) {
        trim_end_seq(s.drop_last())
    } else {
        s
    }
}

/// `s` without leading and trailing whitespace.
pub open spec fn trim_seq(s: Seq<char>) -> Seq<char> {
    trim_end_seq(trim_start_seq(s))
}

proof fn lemma_trim_end_keeps_nonspace_first(t: Seq<char>)
    requires
        t.len() > 0,
        !is_space(t[0]),
    ensures
        trim_end_seq(t).len() > 0,
    decreases t.len(),
{
    if is_space(t.last()) {
        assert(t.len() > 1);
        assert(t.drop_last()[0] == t[0]);
        lemma_trim_end_keeps_nonspace_first(t.drop_last());
    }
}

proof fn lemma_trim_start_blank(s: Seq<char>)
    ensures
        trim_start_seq(s).len() == 0 <==> (forall|i: int| 0 <= i < s.len() ==> is_space(#[trigger] s[i])),
        trim_start_seq(s).len() > 0 ==> !is_space(trim_start_seq(s)[0]),
    decreases s.len(),
{
    if s.len() > 0 && is_space(s[0]) {
        let t = s.drop_first();
        lemma_trim_start_blank(t);
        if forall|i: int| 0 <= i < t.len() ==> is_space(#[trigger] t[i]) {
            assert forall|i: int| 0 <= i < s.len() implies is_space(#[trigger] s[i]) by {
                if i > 0 {
                    assert(s[i] == t[i - 1]);
                }
            }
        } else {
            let j = choose|j: int| 0 <= j < t.len() && !is_space(#[trigger] t[j]);
            assert(!is_space(s[j + 1]));
        }
    }
}

/// A text trims to nothing exactly when every one of its characters is
/// whitespace.
pub proof fn lemma_trim_empty_iff_blank(s: Seq<char>)
    ensures
        trim_seq(s).len() == 0 <==> (forall|i: int| 0 <= i < s.len() ==> is_space(#[trigger] s[i])),
{
    lemma_trim_start_blank(s);
    if trim_start_seq(s).len() > 0 {
        lemma_trim_end_keeps_nonspace_first(trim_start_seq(s));
    }
}

/// Removes leading and trailing whitespace.
pub fn trim_text(s: &str) -> (r: String)
    ensures
        r@ == trim_seq(s@),
{
    let n = s.unicode_len();
    let mut i: usize = 0;
    assert(s@.subrange(0, n as int) =~= s@);
    while i < n && char_is_space(s.get_char(i))
        invariant
            n == s@.len(),
            i <= n,
            trim_start_seq(s@) == trim_start_seq(s@.subrange(i as int, n as int)),
        decreases n - i,
    {
        assert(s@.subrange(i as int, n as int).drop_first() =~= s@.subrange(i + 1, n as int));
        i = i + 1;
    }
    assert(trim_start_seq(s@) == s@.subrange(i as int, n as int));
    let mut j: usize = n;
    while j > i && char_is_space(s.get_char(j - 1))
        invariant
            n == s@.len(),
            i <= j <= n,
            trim_seq(s@) == trim_end_seq(s@.subrange(i as int, j as int)),
        decreases j,
    {
        assert(s@.subrange(i as int, j as int).drop_last() =~= s@.subrange(i as int, j - 1));
        j = j - 1;
    }
    assert(trim_end_seq(s@.subrange(i as int, j as int)) == s@.subrange(i as int, j as int));
    String::from_str(s.substring_char(i, j))
}

/// The trimmed text of an optional value; an absent value gives the empty text.
pub open spec fn normalize_spec(value: Option<String>) -> Seq<char> {
    match value {
        Some(s) => trim_seq(s@),
        None => Seq::empty(),
    }
}

/// Trims an optional text field; an absent value becomes empty.
pub fn normalize(value: &Option<String>) -> (r: String)
    ensures
        r@ == normalize_spec(*value),
{
    match value {
        Some(s) => trim_text(s.as_str()),
        None => String::new(),
    }
}

/// Trims an optional text field of an entry being written; an absent value
/// becomes empty.
pub fn normalize_new_text(value: &Option<String>) -> (r: String)
    ensures
        r@ == normalize_spec(*value),
{
    normalize(value)
}

/// Whether `c` is an ASCII decimal digit.
pub open spec fn is_digit(c: char) -> bool {
    '0' <= c && c <= '9'
}

/// The value of an ASCII decimal digit.
pub open spec fn digit_value(c: char) -> int {
    (c as u32) as int - ('0' as u32) as int
}

/// Whether every character of `d` is an ASCII decimal digit.
pub open spec fn all_digits(d: Seq<char>) -> bool {
    forall|k: int| 0 <= k < d.len() ==> is_digit(#[trigger] d[k])
}

/// The number that the decimal digits `d` denote.
pub open spec fn digits_value(d: Seq<char>) -> int
    decreases d.len(),
{
    if d.len() == 0 {
        0
    } else {
        digits_value(d.drop_last()) * 10 + digit_value(d.last())
    }
}

/// The integer written by `s`: an optional `+` or `-`, then at least one
/// decimal digit, and nothing else.
pub open spec fn integer_text_value(s: Seq<char>) -> Option<int> {
    if s.len() > 0 && (s[0] == '-' || s[0] == '+') {
        let d = s.drop_first();
        if d.len() > 0 && all_digits(d) {
            Some(if s[0] == '-' { -digits_value(d) } else { digits_value(d) })
        } else {
            None
        }
    } else if s.len() > 0 && all_digits(s) {
        Some(digits_value(s))
    } else {
        None
    }
}

/// The `i64` written by `s`, when `s` writes an integer that fits.
pub open spec fn parse_i64_spec(s: Seq<char>) -> Option<i64> {
    match integer_text_value(s) {
        Some(v) => if i64::MIN <= v <= i64::MAX {
            Some(v as i64)
        } else {
            None
        },
        None => None,
    }
}

proof fn lemma_digits_value_nonneg(d: Seq<char>)
    requires
        all_digits(d),
    ensures
        digits_value(d) >= 0,
    decreases d.len(),
{
    if d.len() > 0 {
        lemma_digits_value_nonneg(d.drop_last());
        assert(is_digit(d[d.len() - 1]));
    }
}

/// The value of a prefix of a digit string is at most the value of the string.
proof fn lemma_digits_prefix_le(d: Seq<char>, k: int)
    requires
        all_digits(d),
        0 <= k <= d.len(),
    ensures
        digits_value(d.subrange(0, k)) <= digits_value(d),
    decreases d.len(),
{
    if k < d.len() {
        let e = d.drop_last();
        assert(e.subrange(0, k) =~= d.subrange(0, k));
        lemma_digits_prefix_le(e, k);
        lemma_digits_value_nonneg(e);
        assert(is_digit(d[d.len() - 1]));
    } else {
        assert(d.subrange(0, k) =~= d);
    }
}

/// Parses a decimal integer as `i64::from_str` does: an optional sign, then
/// digits; `None` when the text is not such a number or it does not fit.
pub fn parse_i64(s: &str) -> (r: Option<i64>)
    ensures
        r == parse_i64_spec(s@),
{
    let n = s.unicode_len();
    if n == 0 {
        return None;
    }
    let c0 = s.get_char(0);
    let start: usize = if c0 == '-' || c0 == '+' { 1 } else { 0 };
    if start == n {
        return None;
    }
    let ghost d = s@.subrange(start as int, n as int);
    proof {
        if start == 1 {
            assert(d =~= s@.drop_first());
        } else {
            assert(d =~= s@);
        }
    }
    let mut acc: u128 = 0;
    let mut k: usize = start;
    while k < n
        invariant
            n == s@.len(),
            start < n,
            start <= 1,
            start <= k <= n,
            d == s@.subrange(start as int, n as int),
            c0 == s@[0],
            start == 1 <==> (c0 == '-' || c0 == '+'),
            start == 1 ==> d == s@.drop_first(),
            start == 0 ==> d == s@,
            all_digits(d.subrange(0, k - start)),
            acc as int == digits_value(d.subrange(0, k - start)),
            acc <= 9223372036854775808,
        decreases n - k,
    {
        let c = s.get_char(k);
        if !('0' <= c && c <= '9') {
            assert(!is_digit(d[k - start]));
            assert(!all_digits(d));
            return None;
        }
        let dv = (c as u32 - '0' as u32) as u128;
        proof {
            let p = d.subrange(0, k + 1 - start);
            assert(p.drop_last() =~= d.subrange(0, k - start));
            assert(p.last() == c);
            assert(digits_value(p) == acc * 10 + dv);
        }
        acc = acc * 10 + dv;
        k = k + 1;
        if acc > 9223372036854775808 {
            proof {
                if all_digits(d) {
                    lemma_digits_prefix_le(d, k - start);
                    assert(digits_value(d) > 9223372036854775808);
                }
            }
            return None;
        }
    }
    assert(d.subrange(0, n - start) =~= d);
    if c0 == '-' {
        if acc == 9223372036854775808 {
            Some(i64::MIN)
        } else {
            Some(-(acc as i64))
        }
    } else if acc > 9223372036854775807 {
        None
    } else {
        Some(acc as i64)
    }
}

/// The character of a decimal digit value.
pub open spec fn digit_char(v: int) -> char {
    (('0' as u32) as int + v) as char
}

/// The decimal text of a natural number, without leading zeros.
pub open spec fn decimal_seq(n: nat) -> Seq<char>
    decreases n,
{
    if n < 10 {
        seq![digit_char(n as int)]
    } else {
        decimal_seq(n / 10).push(digit_char((n % 10) as int))
    }
}

/// Appends the decimal text of `n` to `out`.
pub fn push_decimal(out: &mut String, n: u64)
    ensures
        final(out)@ == old(out)@ + decimal_seq(n as nat),
    decreases n,
{
    if n >= 10 {
        push_decimal(out, n / 10);
    }
    let c = ((n % 10) as u8 + 48u8) as char;
    push_char(out, c);
    assert(old(out)@ + decimal_seq(n as nat) =~= final(out)@) by {
        if n >= 10 {
            assert(decimal_seq(n as nat) == decimal_seq((n / 10) as nat).push(digit_char((n % 10) as int)));
        }
    }
}

/// Lexicographic order of texts by code point, the order of `str`'s `Ord`.
pub open spec fn text_lt(a: Seq<char>, b: Seq<char>) -> bool
    decreases a.len(),
{
    if a.len() == 0 {
        b.len() > 0
    } else if b.len() == 0 {
        false
    } else if a[0] == b[0] {
        text_lt(a.drop_first(), b.drop_first())
    } else {
        a[0] < b[0]
    }
}

/// The order of texts is asymmetric.
pub proof fn lemma_text_lt_asymmetric(a: Seq<char>, b: Seq<char>)
    ensures
        !(text_lt(a, b) && text_lt(b, a)),
    decreases a.len(),
{
    if a.len() > 0 && b.len() > 0 && a[0] == b[0] {
        lemma_text_lt_asymmetric(a.drop_first(), b.drop_first());
    }
}

/// No text is below itself.
pub proof fn lemma_text_lt_irreflexive(a: Seq<char>)
    ensures
        !text_lt(a, a),
{
    lemma_text_lt_asymmetric(a, a);
}

/// The order of texts is transitive.
pub proof fn lemma_text_lt_transitive(a: Seq<char>, b: Seq<char>, c: Seq<char>)
    requires
        text_lt(a, b),
        text_lt(b, c),
    ensures
        text_lt(a, c),
    decreases a.len(),
{
    if a.len() > 0 && b.len() > 0 && c.len() > 0 && a[0] == b[0] && b[0] == c[0] {
        lemma_text_lt_transitive(a.drop_first(), b.drop_first(), c.drop_first());
    }
}

/// Of two different texts, one comes before the other.
pub proof fn lemma_text_lt_total(a: Seq<char>, b: Seq<char>)
    requires
        a != b,
    ensures
        text_lt(a, b) || text_lt(b, a),
    decreases a.len(),
{
    if a.len() > 0 && b.len() > 0 && a[0] == b[0] {
        if a.drop_first() == b.drop_first() {
            assert(a =~= seq![a[0]] + a.drop_first());
            assert(b =~= seq![b[0]] + b.drop_first());
        }
        lemma_text_lt_total(a.drop_first(), b.drop_first());
    } else if a.len() == 0 && b.len() == 0 {
        assert(a =~= b);
    }
}

/// Whether `a` comes strictly before `b` in the order of `str`.
pub fn text_less(a: &str, b: &str) -> (r: bool)
    ensures
        r == text_lt(a@, b@),
{
    let na = a.unicode_len();
    let nb = b.unicode_len();
    let mut i: usize = 0;
    assert(a@.subrange(0, na as int) =~= a@);
    assert(b@.subrange(0, nb as int) =~= b@);
    while i < na && i < nb
        invariant
            na == a@.len(),
            nb == b@.len(),
            i <= na,
            i <= nb,
            text_lt(a@, b@) == text_lt(a@.subrange(i as int, na as int), b@.subrange(i as int, nb as int)),
        decreases na - i,
    {
        let ca = a.get_char(i);
        let cb = b.get_char(i);
        if ca != cb {
            return ca < cb;
        }
        assert(a@.subrange(i as int, na as int).drop_first() =~= a@.subrange(i + 1, na as int));
        assert(b@.subrange(i as int, nb as int).drop_first() =~= b@.subrange(i + 1, nb as int));
        i = i + 1;
    }
    i < nb
}

/// `s` with every backslash turned into a forward slash.
pub open spec fn forward_slashes(s: Seq<char>) -> Seq<char> {
    Seq::new(s.len(), |k: int| if s[k] == '\\' { '/' } else { s[k] })
}

/// Turns every backslash of `s` into a forward slash.
pub fn to_forward_slashes(s: &str) -> (r: String)
    ensures
        r@ == forward_slashes(s@),
{
    let n = s.unicode_len();
    let mut out = String::new();
    let mut i: usize = 0;
    while i < n
        invariant
            n == s@.len(),
            i <= n,
            out@ == forward_slashes(s@).subrange(0, i as int),
        decreases n - i,
    {
        let c = s.get_char(i);
        let d = if c == '\\' { '/' } else { c };
        push_char(&mut out, d);
        assert(out@ =~= forward_slashes(s@).subrange(0, i + 1));
        i = i + 1;
    }
    assert(out@ =~= forward_slashes(s@));
    out
}

/// The text of `s` up to its first forward slash, or all of `s` when it
/// holds none.
pub open spec fn first_segment(s: Seq<char>) -> Seq<char>
    decreases s.len(),
{
    if s.len() == 0 || s[0] == '/' {
        Seq::empty()
    } else {
        seq![s[0]] + first_segment(s.drop_first())
    }
}

/// The first `/`-separated segment of a relative directory, or `fallback`
/// when that segment is empty.
pub open spec fn default_group_spec(relative_dir: Seq<char>, fallback: Seq<char>) -> Seq<char> {
    if first_segment(relative_dir).len() > 0 {
        first_segment(relative_dir)
    } else {
        fallback
    }
}

/// Takes the first `/`-separated segment of `relative_dir` as a group name,
/// or `fallback` when that segment is empty.
pub fn default_group_from_relative(relative_dir: &str, fallback: &str) -> (r: String)
    ensures
        r@ == default_group_spec(relative_dir@, fallback@),
{
    let s = relative_dir;
    let n = s.unicode_len();
    let mut i: usize = 0;
    assert(s@.subrange(0, 0) =~= Seq::<char>::empty());
    assert(s@.subrange(0, n as int) =~= s@);
    while i < n && s.get_char(i) != '/'
        invariant
            n == s@.len(),
            i <= n,
            first_segment(s@) == s@.subrange(0, i as int) + first_segment(s@.subrange(i as int, n as int)),
        decreases n - i,
    {
        let ghost t = s@.subrange(i as int, n as int);
        assert(t.drop_first() =~= s@.subrange(i + 1, n as int));
        assert(s@.subrange(0, i as int) + (seq![t[0]] + first_segment(t.drop_first()))
            =~= s@.subrange(0, i + 1) + first_segment(s@.subrange(i + 1, n as int)));
        i = i + 1;
    }
    assert(first_segment(s@.subrange(i as int, n as int)) =~= Seq::<char>::empty());
    assert(first_segment(s@) =~= s@.subrange(0, i as int));
    if i == 0 {
        String::from_str(fallback)
    } else {
        String::from_str(s.substring_char(0, i))
    }
}

} // verus!

//! Characters and text: the character classes the lexer tells apart, positions
//! as UTF-8 byte offsets, decimal numerals, and trimming.

use vstd::prelude::*;
use vstd::utf8::*;

verus! {

/// Whether `c` has the Unicode property `Alphabetic`, as `char::is_alphabetic`
/// decides it.
pub uninterp spec fn is_alphabetic(c: char) -> bool;

/// Whether `c` has the Unicode property `White_Space`, as `char::is_whitespace`
/// decides it.
pub uninterp spec fn is_whitespace(c: char) -> bool;

/// An ASCII letter, `a` to `z` or `A` to `Z`.
pub open spec fn is_ascii_letter(c: char) -> bool {
    ('a' <= c && c <= 'z') || ('A' <= c && c <= 'Z')
}

/// An ASCII blank: a space, or one of the control characters from the
/// horizontal tab (U+0009) to the carriage return (U+000D).
pub open spec fn is_ascii_blank(c: char) -> bool {
    c == ' ' || ('\t' <= c && c <= '\r')
}

/// `char::is_alphabetic`. Trusted: the answer depends on the character alone,
/// so it is the value that [`is_alphabetic`] names; and among the ASCII
/// characters, up to U+007F, the alphabetic ones are the letters.
#[verifier::external_body]
pub(crate) fn char_is_alphabetic(c: char) -> (r: bool)
    ensures
        r == is_alphabetic(c),
        c <= '\x7f' ==> r == is_ascii_letter(c),
{
    c.is_alphabetic()
}

/// `char::is_whitespace`. Trusted: the answer depends on the character alone,
/// so it is the value that [`is_whitespace`] names; and among the ASCII
/// characters, up to U+007F, the whitespace is the space and U+0009 to
/// U+000D.
#[verifier::external_body]
pub(crate) fn char_is_whitespace(c: char) -> (r: bool)
    ensures
        r == is_whitespace(c),
        c <= '\x7f' ==> r == is_ascii_blank(c),
{
    c.is_whitespace()
}

/// `String::push`. Trusted: the string afterwards is the string before with
/// `c` appended as its last character.
#[verifier::external_body]
pub(crate) fn push_char(s: &mut String, c: char)
    ensures
        final(s)@ == old(s)@.push(c),
{
    s.push(c)
}

/// A letter: an ASCII letter, or a character beyond ASCII that is
/// alphabetic.
pub open spec fn is_letter(c: char) -> bool {
    if c <= '\x7f' {
        is_ascii_letter(c)
    } else {
        is_alphabetic(c)
    }
}

/// A blank: an ASCII blank, or a character beyond ASCII that is whitespace.
pub open spec fn is_blank(c: char) -> bool {
    if c <= '\x7f' {
        is_ascii_blank(c)
    } else {
        is_whitespace(c)
    }
}

/// A character that may begin a name: a letter or an underscore.
pub open spec fn is_name_start_char(c: char) -> bool {
    is_letter(c) || c == '_'
}

/// A decimal digit, `0` to `9`.
pub open spec fn is_digit_char(c: char) -> bool {
    '0' <= c && c <= '9'
}

/// A character that may continue a name: a letter, an underscore or a digit.
pub open spec fn is_name_char(c: char) -> bool {
    is_name_start_char(c) || is_digit_char(c)
}

/// Tests whether `c` may begin a name.
pub fn name_start(c: char) -> (r: bool)
    ensures
        r == is_name_start_char(c),
{
    char_is_alphabetic(c) || c == '_'
}

/// Tests whether `c` is a decimal digit.
pub fn digit(c: char) -> (r: bool)
    ensures
        r == is_digit_char(c),
{
    '0' <= c && c <= '9'
}

/// The number of bytes that `c` takes in UTF-8.
pub open spec fn utf8_width(c: char) -> nat {
    encode_scalar(c as u32).len()
}

/// The length in bytes of the UTF-8 encoding of `s`.
pub open spec fn byte_len(s: Seq<char>) -> nat {
    encode_utf8(s).len()
}

/// The byte offset at which the character of index `k` starts in the UTF-8
/// encoding of `s`: the encoded length of the `k` characters before it.
pub open spec fn byte_offset(s: Seq<char>, k: int) -> nat {
    byte_len(s.take(k))
}

/// Computes the number of bytes that `c` takes in UTF-8.
pub fn char_width(c: char) -> (w: usize)
    ensures
        w == utf8_width(c),
        1 <= w <= 4,
        c <= '\x7f' ==> w == 1,
{
    let u: u32 = c as u32;
    if u <= 0x7F {
        1
    } else if u <= 0x7FF {
        2
    } else if u <= 0xFFFF {
        3
    } else {
        4
    }
}

/// The width of a character by its code: one byte up to U+007F, two up to
/// U+07FF, three up to U+FFFF, four beyond.
pub proof fn lemma_width(c: char)
    ensures
        utf8_width(c) == if c <= '\x7f' {
            1nat
        } else if c <= '\u{7ff}' {
            2nat
        } else if c <= '\u{ffff}' {
            3nat
        } else {
            4nat
        },
{
}

/// Appending one character appends its encoding.
pub proof fn lemma_encode_push(s: Seq<char>, c: char)
    ensures
        encode_utf8(s.push(c)) == encode_utf8(s) + encode_scalar(c as u32),
    decreases s.len(),
{
    if s.len() == 0 {
        assert(s.push(c).drop_first() =~= s);
        assert(encode_utf8(s) =~= Seq::<u8>::empty());
        assert(encode_utf8(s.push(c)) =~= encode_utf8(s) + encode_scalar(c as u32));
    } else {
        assert(s.push(c).drop_first() =~= s.drop_first().push(c));
        lemma_encode_push(s.drop_first(), c);
        assert(encode_utf8(s.push(c)) =~= encode_utf8(s) + encode_scalar(c as u32));
    }
}

/// The offset of a character's successor is its own offset plus its width.
pub proof fn lemma_offset_step(s: Seq<char>, k: int)
    requires
        0 <= k < s.len(),
    ensures
        byte_offset(s, k + 1) == byte_offset(s, k) + utf8_width(s[k]),
        1 <= utf8_width(s[k]) <= 4,
{
    assert(s.take(k + 1) =~= s.take(k).push(s[k]));
    lemma_encode_push(s.take(k), s[k]);
}

/// Offsets grow with the index, by at least one byte for each character,
/// and none passes the encoded length.
pub proof fn lemma_offset_monotone(s: Seq<char>, j: int, k: int)
    requires
        0 <= j <= k <= s.len(),
    ensures
        byte_offset(s, j) <= byte_offset(s, k) <= byte_len(s),
        k - j <= byte_offset(s, k) - byte_offset(s, j),
        byte_offset(s, 0) == 0,
        byte_offset(s, s.len() as int) == byte_len(s),
    decreases s.len() - j,
{
    assert(s.take(s.len() as int) =~= s);
    assert(s.take(0) =~= Seq::<char>::empty());
    if j < s.len() {
        lemma_offset_step(s, j);
        if j < k {
            lemma_offset_monotone(s, j + 1, k);
        } else {
            lemma_offset_monotone(s, j + 1, s.len() as int);
        }
    }
}

/// Copies the characters of a string slice into a vector.
pub fn chars_of(s: &str) -> (v: Vec<char>)
    ensures
        v@ == s@,
{
    let mut v: Vec<char> = Vec::new();
    for c in it: s.chars()
        invariant
            it.seq() == s@,
            v@ == s@.take(it.index() as int),
    {
        v.push(c);
    }
    v
}

/// A kind of run: a maximal stretch of characters that one scan consumes.
#[derive(Clone, Copy)]
pub enum Run {
    /// Letters, underscores and digits.
    Name,
    /// Decimal digits.
    Digits,
    /// Hash signs.
    Hashes,
    /// Blanks.
    Blank,
    /// Anything but a backtick or a line feed.
    Quoted,
    /// Anything but the given character.
    Until(char),
}

/// Whether a run of kind `run` goes on over the character `c`.
pub open spec fn continues(run: Run, c: char) -> bool {
    match run {
        Run::Name => is_name_char(c),
        Run::Digits => is_digit_char(c),
        Run::Hashes => c == '#',
        Run::Blank => is_blank(c),
        Run::Quoted => c != '`' && c != '\n',
        Run::Until(end) => c != end,
    }
}

/// Tests whether a run of kind `run` goes on over the character `c`.
pub fn goes_on(run: Run, c: char) -> (r: bool)
    ensures
        r == continues(run, c),
{
    match run {
        Run::Name => name_start(c) || digit(c),
        Run::Digits => digit(c),
        Run::Hashes => c == '#',
        Run::Blank => char_is_whitespace(c),
        Run::Quoted => c != '`' && c != '\n',
        Run::Until(end) => c != end,
    }
}

/// Where the run of kind `run` that starts at index `from` of `text` ends: the
/// first index at or after `from` whose character does not continue the run,
/// or the length of `text` if there is none.
pub open spec fn run_end(text: Seq<char>, from: int, run: Run) -> int
    decreases text.len() - from,
{
    if 0 <= from < text.len() && continues(run, text[from]) {
        run_end(text, from + 1, run)
    } else {
        from
    }
}

/// What makes `run_end` what it is: every character before it continues the
/// run, and the character at it, if there is one, does not.
pub proof fn lemma_run_end(text: Seq<char>, from: int, run: Run)
    requires
        0 <= from <= text.len(),
    ensures
        from <= run_end(text, from, run) <= text.len(),
        forall|k: int| from <= k < run_end(text, from, run) ==> continues(run, #[trigger] text[k]),
        run_end(text, from, run) < text.len() ==> !continues(
            run,
            text[run_end(text, from, run)],
        ),
    decreases text.len() - from,
{
    if from < text.len() && continues(run, text[from]) {
        lemma_run_end(text, from + 1, run);
    }
}

/// A run that goes on from `from` to `k` ends where the run from `k` ends.
pub proof fn lemma_run_end_from(text: Seq<char>, from: int, k: int, run: Run)
    requires
        0 <= from <= k <= text.len(),
        forall|j: int| from <= j < k ==> continues(run, #[trigger] text[j]),
    ensures
        run_end(text, from, run) == run_end(text, k, run),
    decreases k - from,
{
    if from < k {
        lemma_run_end_from(text, from + 1, k, run);
    }
}

/// A run of characters of one byte each takes as many bytes as it has
/// characters.
pub proof fn lemma_offset_narrow(text: Seq<char>, from: int, to: int)
    requires
        0 <= from <= to <= text.len(),
        forall|j: int| from <= j < to ==> #[trigger] text[j] <= '\x7f',
    ensures
        byte_offset(text, to) == byte_offset(text, from) + (to - from),
    decreases to - from,
{
    if from < to {
        lemma_offset_narrow(text, from, to - 1);
        lemma_offset_step(text, to - 1);
        lemma_width(text[to - 1]);
    }
}

/// The value of a digit.
pub open spec fn digit_value(c: char) -> nat {
    (c as u32 - '0' as u32) as nat
}

/// The number that a sequence of decimal digits writes, leading zeros
/// allowed; the empty sequence writes zero.
pub open spec fn decimal_value(digits: Seq<char>) -> nat
    decreases digits.len(),
{
    if digits.len() == 0 {
        0
    } else {
        10 * decimal_value(digits.drop_last()) + digit_value(digits.last())
    }
}

/// Appending a digit to a numeral multiplies its value by ten and adds the
/// digit.
pub proof fn lemma_decimal_push(digits: Seq<char>, c: char)
    ensures
        decimal_value(digits.push(c)) == 10 * decimal_value(digits) + digit_value(c),
{
    assert(digits.push(c).drop_last() =~= digits);
}

/// Reads the characters of `v` from index `from` up to index `to`, all of
/// them digits, as a decimal numeral. Returns `None` if the number is above
/// `i32::MAX`.
pub fn parse_decimal(v: &Vec<char>, from: usize, to: usize) -> (r: Option<i32>)
    requires
        from <= to <= v.len(),
        forall|j: int| from <= j < to ==> is_digit_char(#[trigger] v@[j]),
    ensures
        r == if decimal_value(v@.subrange(from as int, to as int)) <= i32::MAX {
            Some(decimal_value(v@.subrange(from as int, to as int)) as i32)
        } else {
            None
        },
{
    let mut acc: u32 = 0;
    let mut k: usize = from;
    assert(v@.subrange(from as int, from as int) =~= Seq::<char>::empty());
    while k < to
        invariant
            from <= k <= to <= v.len(),
            forall|j: int| from <= j < to ==> is_digit_char(#[trigger] v@[j]),
            acc == decimal_value(v@.subrange(from as int, k as int)),
            acc <= i32::MAX,
        decreases to - k,
    {
        let c = v[k];
        let d: u32 = c as u32 - '0' as u32;
        proof {
            assert(v@.subrange(from as int, k + 1) =~= v@.subrange(from as int, k as int).push(c));
            lemma_decimal_push(v@.subrange(from as int, k as int), c);
            lemma_decimal_grows(v@, from as int, k + 1, to as int);
        }
        if acc > (i32::MAX as u32 - d) / 10 {
            return None;
        }
        acc = acc * 10 + d;
        k += 1;
    }
    Some(acc as i32)
}

/// A numeral of digits is worth at least as much as any of its beginnings.
pub proof fn lemma_decimal_grows(v: Seq<char>, from: int, k: int, to: int)
    requires
        0 <= from <= k <= to <= v.len(),
    ensures
        decimal_value(v.subrange(from, k)) <= decimal_value(v.subrange(from, to)),
    decreases to - k,
{
    if k < to {
        lemma_decimal_grows(v, from, k, to - 1);
        assert(v.subrange(from, to) =~= v.subrange(from, to - 1).push(v[to - 1]));
        lemma_decimal_push(v.subrange(from, to - 1), v[to - 1]);
    }
}

/// The character that writes a digit's value.
pub open spec fn digit_char(d: nat) -> char {
    (d + '0' as u32) as char
}

/// The decimal numeral of `n`, without leading zeros.
pub open spec fn decimal_digits(n: nat) -> Seq<char>
    decreases n,
{
    if n < 10 {
        seq![digit_char(n)]
    } else {
        decimal_digits(n / 10).push(digit_char(n % 10))
    }
}

/// Appends the decimal numeral of `n` to `s`.
pub fn push_decimal(s: &mut String, n: usize)
    ensures
        final(s)@ == old(s)@ + decimal_digits(n as nat),
    decreases n,
{
    if n >= 10 {
        push_decimal(s, n / 10);
    }
    let d: u8 = (n % 10) as u8;
    let c: char = (d + 48u8) as char;
    push_char(s, c);
    assert(s@ =~= old(s)@ + decimal_digits(n as nat));
}

/// `s` without the blanks at its end.
pub open spec fn strip_back(s: Seq<char>) -> Seq<char>
    decreases s.len(),
{
    if s.len() > 0 && is_blank(s.last()) {
        strip_back(s.drop_last())
    } else {
        s
    }
}

/// `s` without the blanks at its start.
pub open spec fn strip_front(s: Seq<char>) -> Seq<char> {
    s.skip(run_end(s, 0, Run::Blank))
}

/// `s` without the blanks at its start and at its end.
pub open spec fn trimmed(s: Seq<char>) -> Seq<char> {
    strip_front(strip_back(s))
}

/// What is left of `s` without the blanks at its end is a beginning of `s`;
/// it does not end in a blank, and all that follows it in `s` is blanks.
pub proof fn lemma_strip_back(s: Seq<char>)
    ensures
        strip_back(s).len() <= s.len(),
        strip_back(s) == s.take(strip_back(s).len() as int),
        strip_back(s).len() > 0 ==> !is_blank(strip_back(s).last()),
        forall|k: int| strip_back(s).len() <= k < s.len() ==> is_blank(#[trigger] s[k]),
    decreases s.len(),
{
    if s.len() > 0 && is_blank(s.last()) {
        let t = s.drop_last();
        lemma_strip_back(t);
        assert(t.take(strip_back(t).len() as int) =~= s.take(strip_back(t).len() as int));
        assert forall|k: int| strip_back(s).len() <= k < s.len() implies is_blank(
            #[trigger] s[k],
        ) by {
            if k < t.len() {
                assert(s[k] == t[k]);
            }
        }
    } else {
        assert(s.take(s.len() as int) =~= s);
    }
}

/// Trimming cuts a stretch out of `s`: all before it and all after it is
/// blanks, and the stretch, if it is not empty, neither begins nor ends with
/// a blank.
pub proof fn lemma_trimmed(s: Seq<char>)
    ensures
        ({
            let a = run_end(strip_back(s), 0, Run::Blank);
            let b = strip_back(s).len() as int;
            &&& 0 <= a <= b <= s.len()
            &&& trimmed(s) == s.subrange(a, b)
            &&& forall|k: int| 0 <= k < a ==> is_blank(#[trigger] s[k])
            &&& forall|k: int| b <= k < s.len() ==> is_blank(#[trigger] s[k])
            &&& a < b ==> !is_blank(s[a]) && !is_blank(s[b - 1])
        }),
{
    let t = strip_back(s);
    lemma_strip_back(s);
    lemma_run_end(t, 0, Run::Blank);
    let a = run_end(t, 0, Run::Blank);
    assert(t.skip(a) =~= s.subrange(a, t.len() as int));
    assert forall|k: int| 0 <= k < a implies is_blank(#[trigger] s[k]) by {
        assert(continues(Run::Blank, t[k]));
    }
    if a < t.len() {
        assert(!continues(Run::Blank, t[a]));
        assert(t.last() == s[t.len() - 1]);
    }
}

/// The text of `s` without the blanks at its start and at its end.
pub fn trim(s: &str) -> (r: String)
    ensures
        r@ == trimmed(s@),
{
    let v = chars_of(s);
    let mut b: usize = v.len();
    assert(v@.take(v.len() as int) =~= v@);
    while b > 0 && char_is_whitespace(v[b - 1])
        invariant
            b <= v.len(),
            strip_back(v@) == strip_back(v@.take(b as int)),
        decreases b,
    {
        assert(v@.take(b as int).drop_last() =~= v@.take(b - 1));
        b -= 1;
    }
    assert(strip_back(v@) == v@.take(b as int));
    let ghost body = v@.take(b as int);
    let mut a: usize = 0;
    while a < b && char_is_whitespace(v[a])
        invariant
            a <= b <= v.len(),
            body == v@.take(b as int),
            forall|j: int| 0 <= j < a ==> continues(Run::Blank, #[trigger] body[j]),
        decreases b - a,
    {
        a += 1;
    }
    proof {
        lemma_run_end_from(body, 0, a as int, Run::Blank);
    }
    let mut r = String::new();
    let mut k: usize = a;
    while k < b
        invariant
            a <= k <= b <= v.len(),
            r@ == v@.subrange(a as int, k as int),
        decreases b - k,
    {
        push_char(&mut r, v[k]);
        k += 1;
        assert(v@.subrange(a as int, k as int) =~= v@.subrange(a as int, k - 1).push(v@[k - 1]));
    }
    assert(v@.subrange(a as int, b as int) =~= body.skip(a as int));
    r
}

} // verus!

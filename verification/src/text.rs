//! Text: characters, decimal numbers, white space, letter case.

use vstd::prelude::*;
use vstd::string::*;

verus! {

// ---------------------------------------------------------------------------------------------
// Characters
// ---------------------------------------------------------------------------------------------

/// The characters of `s`.
pub(crate) fn char_vec(s: &str) -> (chars: Vec<char>)
    ensures
        chars@ == s@,
{
    let mut chars: Vec<char> = Vec::new();
    for c in it: s.chars()
        invariant
            it.seq() == s@,
            chars@ == s@.take(it.index()),
    {
        chars.push(c);
        assert(chars@ =~= s@.take(it.index() + 1));
    }
    assert(s@.take(s@.len() as int) =~= s@);
    chars
}

/// Whether two texts are the same.
pub(crate) fn same_chars(a: &[char], b: &[char]) -> (same: bool)
    ensures
        same == (a@ == b@),
{
    if a.len() != b.len() {
        return false;
    }
    let n: usize = a.len();
    let mut i: usize = 0;
    while i < n
        invariant
            n == a@.len() == b@.len(),
            i <= n,
            forall|k: int| 0 <= k < i ==> a@[k] == b@[k],
        decreases n - i,
    {
        if a[i] != b[i] {
            return false;
        }
        i = i + 1;
    }
    assert(a@ =~= b@);
    true
}

/// Whether two texts are the same.
pub(crate) fn same_text(a: &str, b: &str) -> (same: bool)
    ensures
        same == (a@ == b@),
{
    let left = char_vec(a);
    let right = char_vec(b);
    same_chars(left.as_slice(), right.as_slice())
}

/// The place of the first `c` in `s` at or after `i`; the length of `s` if there is none.
pub open spec fn next_char(s: Seq<char>, c: char, i: int) -> int
    decreases s.len() - i,
{
    if i < 0 || i >= s.len() {
        s.len() as int
    } else if s[i] == c {
        i
    } else {
        next_char(s, c, i + 1)
    }
}

/// Finds the first `c` in `s`; the length of `s` if there is none.
pub(crate) fn find_char(s: &[char], c: char) -> (at: usize)
    ensures
        at == next_char(s@, c, 0),
        at <= s@.len(),
        at < s@.len() ==> s@[at as int] == c,
        forall|k: int| 0 <= k < at ==> s@[k] != c,
{
    let n: usize = s.len();
    let mut i: usize = 0;
    while i < n && s[i] != c
        invariant
            n == s@.len(),
            i <= n,
            next_char(s@, c, 0) == next_char(s@, c, i as int),
            forall|k: int| 0 <= k < i ==> s@[k] != c,
        decreases n - i,
    {
        i = i + 1;
    }
    i
}

// ---------------------------------------------------------------------------------------------
// Decimal numbers
// ---------------------------------------------------------------------------------------------

/// The digit for a number below ten.
pub open spec fn digit(n: nat) -> char {
    ('0' as u32 + n % 10) as char
}

/// `n` in decimal, without leading zeros.
pub open spec fn decimal(n: nat) -> Seq<char>
    decreases n,
{
    if n < 10 {
        seq![digit(n)]
    } else {
        decimal(n / 10).push(digit(n % 10))
    }
}

fn digit_text(n: u64) -> (text: &'static str)
    requires
        n < 10,
    ensures
        text@ == seq![digit(n as nat)],
{
    proof {
        reveal_strlit("0");
        reveal_strlit("1");
        reveal_strlit("2");
        reveal_strlit("3");
        reveal_strlit("4");
        reveal_strlit("5");
        reveal_strlit("6");
        reveal_strlit("7");
        reveal_strlit("8");
        reveal_strlit("9");
    }
    let text = match n {
        0 => "0",
        1 => "1",
        2 => "2",
        3 => "3",
        4 => "4",
        5 => "5",
        6 => "6",
        7 => "7",
        8 => "8",
        _ => "9",
    };
    assert(text@ =~= seq![digit(n as nat)]);
    text
}

/// Appends `n` in decimal to `out`.
pub fn append_decimal(out: &mut String, n: u64)
    ensures
        final(out)@ == old(out)@ + decimal(n as nat),
    decreases n,
{
    let ghost before = out@;
    if n >= 10 {
        append_decimal(out, n / 10);
    }
    out.append(digit_text(n % 10));
    assert(out@ =~= before + decimal(n as nat));
}

/// `c` is a decimal digit.
pub open spec fn is_digit(c: char) -> bool {
    '0' <= c <= '9'
}

/// The number that the digits `s` spell.
pub open spec fn digits_value(s: Seq<char>) -> nat
    decreases s.len(),
{
    if s.len() == 0 {
        0
    } else {
        (10 * digits_value(s.drop_last()) + (s.last() as u32 - '0' as u32)) as nat
    }
}

/// `s` without a leading plus sign.
pub open spec fn unsigned_part(s: Seq<char>) -> Seq<char> {
    if s.len() > 0 && s[0] == '+' {
        s.skip(1)
    } else {
        s
    }
}

/// The size that `s` spells: digits, after a plus sign or none, whose number a `usize` holds.
pub open spec fn size_value(s: Seq<char>) -> Option<usize> {
    let digits = unsigned_part(s);
    if digits.len() > 0 && (forall|i: int| 0 <= i < digits.len() ==> is_digit(
        #[trigger] digits[i],
    )) && digits_value(digits) <= usize::MAX {
        Some(digits_value(digits) as usize)
    } else {
        None
    }
}

/// A number is no smaller than what its first digits spell.
proof fn lemma_digits_grow(s: Seq<char>, n: int)
    requires
        0 <= n <= s.len(),
        forall|i: int| 0 <= i < s.len() ==> is_digit(#[trigger] s[i]),
    ensures
        digits_value(s.take(n)) <= digits_value(s),
    decreases s.len() - n,
{
    if n < s.len() {
        lemma_digits_grow(s, n + 1);
        assert(s.take(n + 1).drop_last() =~= s.take(n));
        assert(is_digit(s[n]));
    } else {
        assert(s.take(n) =~= s);
    }
}

/// Reads a size out of `s`.
pub fn parse_size(s: &[char]) -> (size: Option<usize>)
    ensures
        size == size_value(s@),
{
    let n: usize = s.len();
    let start: usize = if n > 0 && s[0] == '+' {
        1
    } else {
        0
    };
    let ghost digits = unsigned_part(s@);
    assert(digits =~= s@.skip(start as int));
    if start == n {
        return None;
    }
    let mut value: usize = 0;
    let mut i: usize = start;
    assert(digits.take(0) =~= Seq::<char>::empty());
    while i < n
        invariant
            n == s@.len(),
            start <= i <= n,
            digits == s@.skip(start as int),
            digits == unsigned_part(s@),
            digits.len() > 0,
            forall|k: int| 0 <= k < i - start ==> is_digit(#[trigger] digits[k]),
            value == digits_value(digits.take(i - start)),
        decreases n - i,
    {
        let c = s[i];
        assert(digits[i - start] == c);
        if c < '0' || c > '9' {
            assert(!is_digit(digits[i - start]));
            return None;
        }
        let d: usize = (c as u32 - '0' as u32) as usize;
        let ghost next = digits.take(i - start + 1);
        proof {
            assert(next.drop_last() =~= digits.take(i - start));
            assert(digits_value(next) == 10 * value + d);
            if forall|k: int| 0 <= k < digits.len() ==> is_digit(#[trigger] digits[k]) {
                lemma_digits_grow(digits, i - start + 1);
            }
        }
        match value.checked_mul(10) {
            None => {
                return None;
            },
            Some(tens) => match tens.checked_add(d) {
                None => {
                    return None;
                },
                Some(sum) => {
                    value = sum;
                },
            },
        }
        i = i + 1;
    }
    assert(digits.take(n - start) =~= digits);
    Some(value)
}

proof fn lemma_decimal_digits(n: nat)
    ensures
        decimal(n).len() > 0,
        forall|i: int| 0 <= i < decimal(n).len() ==> is_digit(#[trigger] decimal(n)[i]),
        digits_value(decimal(n)) == n,
    decreases n,
{
    if n < 10 {
        assert(decimal(n).drop_last() =~= Seq::<char>::empty());
        assert(digits_value(Seq::<char>::empty()) == 0);
    } else {
        lemma_decimal_digits(n / 10);
        assert(decimal(n).drop_last() =~= decimal(n / 10));
    }
}

/// A size that is written in decimal is read back.
pub proof fn written_sizes_read_back(n: usize)
    ensures
        size_value(decimal(n as nat)) == Some(n),
{
    lemma_decimal_digits(n as nat);
    assert(is_digit(decimal(n as nat)[0]));
}

// ---------------------------------------------------------------------------------------------
// White space
// ---------------------------------------------------------------------------------------------

/// `c` is white space, as Unicode defines it.
pub open spec fn is_space(c: char) -> bool {
    let u = c as u32;
    ||| 0x9 <= u <= 0xd
    ||| u == 0x20
    ||| u == 0x85
    ||| u == 0xa0
    ||| u == 0x1680
    ||| 0x2000 <= u <= 0x200a
    ||| u == 0x2028
    ||| u == 0x2029
    ||| u == 0x202f
    ||| u == 0x205f
    ||| u == 0x3000
}

fn space(c: char) -> (yes: bool)
    ensures
        yes == is_space(c),
{
    let u: u32 = c as u32;
    (0x9 <= u && u <= 0xd) || u == 0x20 || u == 0x85 || u == 0xa0 || u == 0x1680 || (0x2000 <= u
        && u <= 0x200a) || u == 0x2028 || u == 0x2029 || u == 0x202f || u == 0x205f || u == 0x3000
}

/// The place of the first character at or after `i` that is no white space; the length of `s`
/// if there is none.
pub open spec fn next_text(s: Seq<char>, i: int) -> int
    decreases s.len() - i,
{
    if i < 0 || i >= s.len() {
        s.len() as int
    } else if is_space(s[i]) {
        next_text(s, i + 1)
    } else {
        i
    }
}

/// The place of the first white space at or after `i`; the length of `s` if there is none.
pub open spec fn next_space(s: Seq<char>, i: int) -> int
    decreases s.len() - i,
{
    if i < 0 || i >= s.len() {
        s.len() as int
    } else if is_space(s[i]) {
        i
    } else {
        next_space(s, i + 1)
    }
}

/// The end of the last of the first `n` characters that is no white space; zero if there is
/// none.
pub open spec fn text_end(s: Seq<char>, n: int) -> int
    decreases n,
{
    if n <= 0 {
        0
    } else if is_space(s[n - 1]) {
        text_end(s, n - 1)
    } else {
        n
    }
}

/// `s` without white space at its ends.
pub open spec fn trimmed(s: Seq<char>) -> Seq<char> {
    let from = next_text(s, 0);
    let to = text_end(s, s.len() as int);
    if from < to {
        s.subrange(from, to)
    } else {
        Seq::empty()
    }
}

/// Finds the first character at or after `from` that is no white space.
pub(crate) fn find_text(s: &[char], from: usize) -> (at: usize)
    requires
        from <= s@.len(),
    ensures
        at == next_text(s@, from as int),
        from <= at <= s@.len(),
{
    let n: usize = s.len();
    let mut i: usize = from;
    while i < n && space(s[i])
        invariant
            n == s@.len(),
            from <= i <= n,
            next_text(s@, from as int) == next_text(s@, i as int),
        decreases n - i,
    {
        i = i + 1;
    }
    i
}

/// Finds the first white space at or after `from`.
pub(crate) fn find_space(s: &[char], from: usize) -> (at: usize)
    requires
        from <= s@.len(),
    ensures
        at == next_space(s@, from as int),
        from <= at <= s@.len(),
        from < s@.len() && !is_space(s@[from as int]) ==> from < at,
{
    let n: usize = s.len();
    let mut i: usize = from;
    while i < n && !space(s[i])
        invariant
            n == s@.len(),
            from <= i <= n,
            next_space(s@, from as int) == next_space(s@, i as int),
        decreases n - i,
    {
        i = i + 1;
    }
    i
}

/// `s` without white space at its ends.
pub(crate) fn trim(s: &[char]) -> (inner: &[char])
    ensures
        inner@ == trimmed(s@),
{
    let from: usize = find_text(s, 0);
    let mut to: usize = s.len();
    while to > 0 && space(s[to - 1])
        invariant
            to <= s@.len(),
            text_end(s@, s@.len() as int) == text_end(s@, to as int),
        decreases to,
    {
        to = to - 1;
    }
    if from < to {
        vstd::slice::slice_subrange(s, from, to)
    } else {
        vstd::slice::slice_subrange(s, 0, 0)
    }
}

// ---------------------------------------------------------------------------------------------
// Letter case
// ---------------------------------------------------------------------------------------------

/// `c`, in lower case if it is an ASCII letter.
pub open spec fn ascii_lower_char(c: char) -> char {
    if 'A' <= c <= 'Z' {
        (c as u32 + 32) as char
    } else {
        c
    }
}

/// `s` with its ASCII letters in lower case.
pub open spec fn ascii_lower(s: Seq<char>) -> Seq<char> {
    s.map_values(|c: char| ascii_lower_char(c))
}

/// Puts the ASCII letters of `s` in lower case.
pub(crate) fn to_ascii_lower(s: &[char]) -> (lower: Vec<char>)
    ensures
        lower@ == ascii_lower(s@),
{
    let n: usize = s.len();
    let mut lower: Vec<char> = Vec::new();
    let mut i: usize = 0;
    while i < n
        invariant
            n == s@.len(),
            i <= n,
            lower@.len() == i,
            forall|k: int| 0 <= k < i ==> #[trigger] lower@[k] == ascii_lower_char(s@[k]),
        decreases n - i,
    {
        let c = s[i];
        if 'A' <= c && c <= 'Z' {
            lower.push((c as u8 + 32) as char);
        } else {
            lower.push(c);
        }
        i = i + 1;
    }
    assert(lower@ =~= ascii_lower(s@));
    lower
}

// ---------------------------------------------------------------------------------------------
// What holds of every text
// ---------------------------------------------------------------------------------------------

/// Numbers are written digit by digit, the last digit last.
pub proof fn numbers_are_written_digit_by_digit(n: nat, d: nat)
    requires
        d < 10,
    ensures
        decimal(d).len() == 1,
        decimal(d)[0] as int == 48 + d,
        n > 0 ==> decimal(10 * n + d) == decimal(n) + decimal(d),
{
    if n > 0 {
        assert((10 * n + d) / 10 == n);
        assert((10 * n + d) % 10 == d);
        assert(decimal(10 * n + d) =~= decimal(n) + decimal(d));
    }
}

/// Sizes are read digit by digit: another digit makes ten times as much and itself, unless that
/// is too much. Anything else makes it no size, but for one plus sign in front.
pub proof fn sizes_are_read_digit_by_digit(s: Seq<char>, c: char)
    ensures
        size_value(Seq::empty()) is None,
        size_value(seq![c]) == if '0' <= c <= '9' {
            Some((c as int - 48) as usize)
        } else {
            None
        },
        size_value(s) matches Some(n) ==> size_value(s.push(c)) == if '0' <= c <= '9' && 10 * n
            + (c as int - 48) <= usize::MAX {
            Some((10 * n + (c as int - 48)) as usize)
        } else {
            None
        },
        s.len() > 1 && size_value(s) is None ==> size_value(s.push(c)) is None,
        s.len() > 0 && s[0] != '+' ==> size_value(seq!['+'] + s) == size_value(s),
        s.len() > 0 && s[0] == '+' ==> size_value(seq!['+'] + s) is None,
{
    let one = seq![c];
    assert(one.drop_last() =~= Seq::<char>::empty());
    assert(digits_value(Seq::<char>::empty()) == 0);
    if c == '+' {
        assert(unsigned_part(one) =~= Seq::<char>::empty());
    } else {
        assert(unsigned_part(one) =~= one);
        assert(one[0] == c);
    }
    let digits = unsigned_part(s);
    let more = unsigned_part(s.push(c));
    if s.len() > 0 {
        assert(more =~= digits.push(c));
        assert(more.drop_last() =~= digits);
        assert(more[digits.len() as int] == c);
        if forall|i: int| 0 <= i < more.len() ==> is_digit(#[trigger] more[i]) {
            assert forall|i: int| 0 <= i < digits.len() implies is_digit(#[trigger] digits[i]) by {
                assert(is_digit(more[i]));
            }
        }
        if (forall|i: int| 0 <= i < digits.len() ==> is_digit(#[trigger] digits[i])) && is_digit(c) {
            assert forall|i: int| 0 <= i < more.len() implies is_digit(#[trigger] more[i]) by {
                if i < digits.len() {
                    assert(is_digit(digits[i]));
                }
            }
        }
    }
    let signed = seq!['+'] + s;
    assert(signed.skip(1) =~= s);
    if s.len() > 0 && s[0] == '+' {
        assert(!is_digit(unsigned_part(signed)[0]));
    }
}

/// In ASCII, white space is the space and the five characters from tab to carriage return.
pub proof fn white_space_in_ascii(c: char)
    requires
        c <= '\x7f',
    ensures
        is_space(c) <==> c == ' ' || '\t' <= c <= '\r',
{
}

/// Beyond ASCII, white space is the next line, the spaces of other widths, whether they break a
/// line or not, and the separators of lines and paragraphs.
pub proof fn white_space_beyond_ascii(c: char)
    requires
        c > '\x7f',
    ensures
        is_space(c) <==> {
            ||| c == '\u{85}'
            ||| c == '\u{a0}'
            ||| c == '\u{1680}'
            ||| '\u{2000}' <= c <= '\u{200a}'
            ||| '\u{2028}' <= c <= '\u{2029}'
            ||| c == '\u{202f}'
            ||| c == '\u{205f}'
            ||| c == '\u{3000}'
        },
{
}

/// The next text, by the white space before it.
pub proof fn lemma_next_text(s: Seq<char>, i: int, at: int)
    requires
        0 <= i <= at <= s.len(),
        forall|k: int| i <= k < at ==> is_space(#[trigger] s[k]),
        at < s.len() ==> !is_space(s[at]),
    ensures
        next_text(s, i) == at,
    decreases at - i,
{
    if i < at {
        assert(is_space(s[i]));
        lemma_next_text(s, i + 1, at);
    }
}

/// The next white space, by what comes before it.
pub proof fn lemma_next_space(s: Seq<char>, i: int, at: int)
    requires
        0 <= i <= at <= s.len(),
        forall|k: int| i <= k < at ==> !is_space(#[trigger] s[k]),
        at < s.len() ==> is_space(s[at]),
    ensures
        next_space(s, i) == at,
    decreases at - i,
{
    if i < at {
        assert(!is_space(s[i]));
        lemma_next_space(s, i + 1, at);
    }
}

/// The next place of a character, by what comes before it.
pub proof fn lemma_next_char(s: Seq<char>, c: char, i: int, at: int)
    requires
        0 <= i <= at <= s.len(),
        forall|k: int| i <= k < at ==> #[trigger] s[k] != c,
        at < s.len() ==> s[at] == c,
    ensures
        next_char(s, c, i) == at,
    decreases at - i,
{
    if i < at {
        assert(s[i] != c);
        lemma_next_char(s, c, i + 1, at);
    }
}

proof fn lemma_text_end(s: Seq<char>, at: int, n: int)
    requires
        0 <= at <= n <= s.len(),
        forall|k: int| at <= k < n ==> is_space(#[trigger] s[k]),
        at > 0 ==> !is_space(s[at - 1]),
    ensures
        text_end(s, n) == at,
    decreases n,
{
    if at < n {
        assert(is_space(s[n - 1]));
        lemma_text_end(s, at, n - 1);
    }
}

/// Trimming takes the white space around a text away, and nothing of the text itself.
pub proof fn trimming_keeps_the_text(left: Seq<char>, inner: Seq<char>, right: Seq<char>)
    requires
        forall|k: int| 0 <= k < left.len() ==> is_space(#[trigger] left[k]),
        forall|k: int| 0 <= k < right.len() ==> is_space(#[trigger] right[k]),
        inner.len() > 0 ==> !is_space(inner[0]) && !is_space(inner.last()),
    ensures
        trimmed(left + inner + right) == inner,
{
    let s = left + inner + right;
    let from = left.len() as int;
    let to = from + inner.len();
    assert forall|k: int| to <= k < s.len() implies is_space(#[trigger] s[k]) by {
        assert(s[k] == right[k - to]);
    }
    assert forall|k: int| 0 <= k < from implies is_space(#[trigger] s[k]) by {
        assert(s[k] == left[k]);
    }
    if inner.len() > 0 {
        assert(s[from] == inner[0]);
        assert(s[to - 1] == inner.last());
        lemma_next_text(s, 0, from);
        lemma_text_end(s, to, s.len() as int);
        assert(s.subrange(from, to) =~= inner);
    } else {
        lemma_next_text(s, 0, s.len() as int);
        lemma_text_end(s, 0, s.len() as int);
        assert(inner =~= Seq::<char>::empty());
    }
}

/// Lower case keeps every character but the 26 capital letters of ASCII, which it moves by 32.
pub proof fn lower_case_moves_capitals_only(s: Seq<char>, i: int)
    requires
        0 <= i < s.len(),
    ensures
        ascii_lower(s).len() == s.len(),
        'A' <= s[i] <= 'Z' ==> ascii_lower(s)[i] as int == s[i] as int + 32,
        !('A' <= s[i] <= 'Z') ==> ascii_lower(s)[i] == s[i],
{
}

} // verus!

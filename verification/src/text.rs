//! Character and text helpers: decimal and hexadecimal formatting, decimal parsing with
//! the rules of Rust's integer `FromStr`, Unicode white space, trimming and ASCII case folding.

use vstd::prelude::*;

verus! {

/// The ASCII digit for `d` (0..=9).
pub open spec fn digit_char(d: int) -> char {
    ((48 + d) as u8) as char
}

/// Decimal representation of `v`, without leading zeros (`0` for zero).
pub open spec fn dec_chars(v: nat) -> Seq<char>
    decreases v,
{
    if v < 10 {
        seq![digit_char(v as int)]
    } else {
        dec_chars(v / 10) + seq![digit_char((v % 10) as int)]
    }
}

/// Decimal representation of a signed value, with a leading `-` when negative.
pub open spec fn dec_chars_signed(v: int) -> Seq<char> {
    if v < 0 {
        seq!['-'] + dec_chars((-v) as nat)
    } else {
        dec_chars(v as nat)
    }
}

/// Hexadecimal digit for `d` (0..=15), lower case when `upper` is false.
pub open spec fn hex_digit(d: int, upper: bool) -> char {
    if d < 10 {
        digit_char(d)
    } else if upper {
        ((55 + d) as u8) as char
    } else {
        ((87 + d) as u8) as char
    }
}

/// The lowest `n` hexadecimal digits of `v`, most significant first, zero padded.
pub open spec fn hex_chars(v: nat, n: nat, upper: bool) -> Seq<char>
    decreases n,
{
    if n == 0 {
        Seq::empty()
    } else {
        hex_chars(v / 16, (n - 1) as nat, upper) + seq![hex_digit((v % 16) as int, upper)]
    }
}

/// A one-character string holding the digit `d`.
pub fn digit_str(d: u64) -> (s: &'static str)
    requires
        d < 10,
    ensures
        s@ == seq![digit_char(d as int)],
{
    proof {
        reveal_strlit("0");
        reveal_strlit("1");
        reveal_strlit("2");
        reveal_strlit("3");
        reveal_strlit("4");
        reveal_strlit("5");
        reveal_strlit("6");
        reveal_strlit("7");
        reveal_strlit("8");
        reveal_strlit("9");
    }
    match d {
        0 => "0",
        1 => "1",
        2 => "2",
        3 => "3",
        4 => "4",
        5 => "5",
        6 => "6",
        7 => "7",
        8 => "8",
        _ => "9",
    }
}

/// A one-character string holding the hexadecimal digit `d`.
pub fn hex_str(d: u64, upper: bool) -> (s: &'static str)
    requires
        d < 16,
    ensures
        s@ == seq![hex_digit(d as int, upper)],
{
    if d < 10 {
        return digit_str(d);
    }
    proof {
        reveal_strlit("a");
        reveal_strlit("b");
        reveal_strlit("c");
        reveal_strlit("d");
        reveal_strlit("e");
        reveal_strlit("f");
        reveal_strlit("A");
        reveal_strlit("B");
        reveal_strlit("C");
        reveal_strlit("D");
        reveal_strlit("E");
        reveal_strlit("F");
    }
    if upper {
        match d {
            10 => "A",
            11 => "B",
            12 => "C",
            13 => "D",
            14 => "E",
            _ => "F",
        }
    } else {
        match d {
            10 => "a",
            11 => "b",
            12 => "c",
            13 => "d",
            14 => "e",
            _ => "f",
        }
    }
}

/// Appends the decimal representation of `v`.
pub fn push_dec(s: &mut String, v: u64)
    ensures
        final(s)@ == old(s)@ + dec_chars(v as nat),
    decreases v,
{
    if v >= 10 {
        push_dec(s, v / 10);
    }
    s.append(digit_str(v % 10));
    assert(s@ =~= old(s)@ + dec_chars(v as nat));
}

/// Appends the decimal representation of the signed value `v`.
pub fn push_dec_signed(s: &mut String, v: i64)
    ensures
        final(s)@ == old(s)@ + dec_chars_signed(v as int),
{
    if v < 0 {
        s.append("-");
        proof { reveal_strlit("-"); }
        let m: u64 = if v == i64::MIN { 9223372036854775808u64 } else { (-v) as u64 };
        push_dec(s, m);
        assert(s@ =~= old(s)@ + dec_chars_signed(v as int));
    } else {
        push_dec(s, v as u64);
    }
}

/// Appends the lowest `n` hexadecimal digits of `v`, zero padded.
pub fn push_hex(s: &mut String, v: u64, n: u64, upper: bool)
    ensures
        final(s)@ == old(s)@ + hex_chars(v as nat, n as nat, upper),
    decreases n,
{
    if n > 0 {
        push_hex(s, v / 16, n - 1, upper);
        s.append(hex_str(v % 16, upper));
        assert(s@ =~= old(s)@ + hex_chars(v as nat, n as nat, upper));
    }
}

/// A new string holding `lit`.
pub fn string_of(lit: &str) -> (s: String)
    ensures
        s@ == lit@,
{
    String::from_str(lit)
}

} // verus!

verus! {

/// The characters of `s`, one per element.
pub fn chars_of(s: &str) -> (v: Vec<char>)
    ensures
        v@ == s@,
{
    let mut v: Vec<char> = Vec::new();
    for c in it: s.chars()
        invariant
            v@ == it.seq().subrange(0, it.index() as int),
    {
        v.push(c);
    }
    v
}

/// Unicode White_Space, the set `char::is_whitespace` and `str::trim` use.
pub open spec fn is_ws(c: char) -> bool {
    ('\u{9}' <= c && c <= '\u{d}') || c == ' ' || c == '\u{85}' || c == '\u{a0}' || c == '\u{1680}'
        || ('\u{2000}' <= c && c <= '\u{200a}') || c == '\u{2028}' || c == '\u{2029}' || c == '\u{202f}'
        || c == '\u{205f}' || c == '\u{3000}'
}

/// Whether `c` is Unicode white space.
pub fn char_is_ws(c: char) -> (r: bool)
    ensures
        r == is_ws(c),
{
    ('\u{9}' <= c && c <= '\u{d}') || c == ' ' || c == '\u{85}' || c == '\u{a0}' || c == '\u{1680}'
        || ('\u{2000}' <= c && c <= '\u{200a}') || c == '\u{2028}' || c == '\u{2029}' || c == '\u{202f}'
        || c == '\u{205f}' || c == '\u{3000}'
}

/// Index of the first character from `i` on that is not white space (`s.len()` if none).
pub open spec fn skip_ws(s: Seq<char>, i: int) -> int
    decreases s.len() - i,
{
    if i < 0 || i >= s.len() {
        i
    } else if is_ws(s[i]) {
        skip_ws(s, i + 1)
    } else {
        i
    }
}

/// End of `s[..j]` once trailing white space is removed.
pub open spec fn trim_end_at(s: Seq<char>, j: int) -> int
    decreases j,
{
    if j <= 0 || j > s.len() {
        j
    } else if is_ws(s[j - 1]) {
        trim_end_at(s, j - 1)
    } else {
        j
    }
}

/// `s[a..b]` without leading and trailing white space, as a range.
pub open spec fn trim_range(s: Seq<char>, a: int, b: int) -> (int, int) {
    let start = skip_ws(s.subrange(0, b), a);
    let end = trim_end_at(s, b);
    if start >= end {
        (start, start)
    } else {
        (start, end)
    }
}

/// `s` without leading and trailing white space (`str::trim`).
pub open spec fn trim(s: Seq<char>) -> Seq<char> {
    let (x, y) = trim_range(s, 0, s.len() as int);
    s.subrange(x, y)
}

/// `skip_ws` lands between `i` and the end.
pub proof fn lemma_skip_ws_bounds(s: Seq<char>, i: int)
    requires
        0 <= i <= s.len(),
    ensures
        i <= skip_ws(s, i) <= s.len(),
    decreases s.len() - i,
{
    if i < s.len() && is_ws(s[i]) {
        lemma_skip_ws_bounds(s, i + 1);
    }
}

proof fn lemma_trim_end_bounds(s: Seq<char>, j: int)
    requires
        0 <= j <= s.len(),
    ensures
        0 <= trim_end_at(s, j) <= j,
    decreases j,
{
    if j > 0 && is_ws(s[j - 1]) {
        lemma_trim_end_bounds(s, j - 1);
    }
}

/// The range of `s[a..b]` without leading and trailing white space.
pub fn trim_bounds(s: &Vec<char>, a: usize, b: usize) -> (r: (usize, usize))
    requires
        a <= b <= s.len(),
    ensures
        (r.0 as int, r.1 as int) == trim_range(s@, a as int, b as int),
        a <= r.0 <= r.1 <= b,
{
    let ghost pre = s@.subrange(0, b as int);
    let mut i = a;
    while i < b && char_is_ws(s[i])
        invariant
            a <= i <= b <= s.len(),
            pre == s@.subrange(0, b as int),
            skip_ws(pre, a as int) == skip_ws(pre, i as int),
        decreases b - i,
    {
        i += 1;
    }
    let mut j = b;
    while j > 0 && char_is_ws(s[j - 1])
        invariant
            j <= b <= s.len(),
            trim_end_at(s@, b as int) == trim_end_at(s@, j as int),
        decreases j,
    {
        j -= 1;
    }
    proof {
        lemma_trim_end_bounds(s@, b as int);
    }
    if i >= j {
        (i, i)
    } else {
        (i, j)
    }
}

/// ASCII lower case of one character; other characters are left as they are.
pub open spec fn ascii_lower(c: char) -> char {
    if 'A' <= c && c <= 'Z' {
        ((c as u32) + 32) as char
    } else {
        c
    }
}

/// ASCII lower case of a character sequence.
pub open spec fn lower_seq(s: Seq<char>) -> Seq<char> {
    s.map_values(|c: char| ascii_lower(c))
}

/// Whether `s[from..to]` equals `lit` once ASCII letters are lower-cased.
pub fn lower_eq(s: &Vec<char>, from: usize, to: usize, lit: &str) -> (r: bool)
    requires
        from <= to <= s.len(),
    ensures
        r == (lower_seq(s@.subrange(from as int, to as int)) == lit@),
{
    let n = lit.unicode_len();
    if n != to - from {
        proof {
            assert(lower_seq(s@.subrange(from as int, to as int)).len() != lit@.len());
        }
        return false;
    }
    let mut k: usize = 0;
    while k < n
        invariant
            k <= n,
            n == to - from,
            n == lit@.len(),
            from <= to <= s.len(),
            forall|m: int| 0 <= m < k ==> ascii_lower(s@[from + m]) == lit@[m],
        decreases n - k,
    {
        let c = s[from + k];
        let lc = if 'A' <= c && c <= 'Z' { ((c as u32) + 32) as u8 as char } else { c };
        if lc != lit.get_char(k) {
            proof {
                assert(lower_seq(s@.subrange(from as int, to as int))[k as int] != lit@[k as int]);
            }
            return false;
        }
        k += 1;
    }
    assert(lower_seq(s@.subrange(from as int, to as int)) =~= lit@);
    true
}

/// Whether `s[from..to]` equals `lit`.
pub fn range_eq(s: &Vec<char>, from: usize, to: usize, lit: &str) -> (r: bool)
    requires
        from <= to <= s.len(),
    ensures
        r == (s@.subrange(from as int, to as int) == lit@),
{
    let n = lit.unicode_len();
    if n != to - from {
        return false;
    }
    let mut k: usize = 0;
    while k < n
        invariant
            k <= n,
            n == to - from,
            n == lit@.len(),
            from <= to <= s.len(),
            forall|m: int| 0 <= m < k ==> s@[from + m] == lit@[m],
        decreases n - k,
    {
        if s[from + k] != lit.get_char(k) {
            proof {
                assert(s@.subrange(from as int, to as int)[k as int] != lit@[k as int]);
            }
            return false;
        }
        k += 1;
    }
    assert(s@.subrange(from as int, to as int) =~= lit@);
    true
}

/// Whether `s` equals `lit`.
pub fn str_is(s: &str, lit: &str) -> (r: bool)
    ensures
        r == (s@ == lit@),
{
    let v = chars_of(s);
    assert(v@.subrange(0, v@.len() as int) =~= v@);
    range_eq(&v, 0, v.len(), lit)
}

/// A one-character string holding the lower-case ASCII letter for `c` ('A'..='Z').
fn lower_letter_str(c: char) -> (s: &'static str)
    requires
        'A' <= c <= 'Z',
    ensures
        s@ == seq![ascii_lower(c)],
{
    proof {
        reveal_strlit("a"); reveal_strlit("b"); reveal_strlit("c"); reveal_strlit("d");
        reveal_strlit("e"); reveal_strlit("f"); reveal_strlit("g"); reveal_strlit("h");
        reveal_strlit("i"); reveal_strlit("j"); reveal_strlit("k"); reveal_strlit("l");
        reveal_strlit("m"); reveal_strlit("n"); reveal_strlit("o"); reveal_strlit("p");
        reveal_strlit("q"); reveal_strlit("r"); reveal_strlit("s"); reveal_strlit("t");
        reveal_strlit("u"); reveal_strlit("v"); reveal_strlit("w"); reveal_strlit("x");
        reveal_strlit("y"); reveal_strlit("z");
    }
    match c {
        'A' => "a", 'B' => "b", 'C' => "c", 'D' => "d", 'E' => "e", 'F' => "f", 'G' => "g",
        'H' => "h", 'I' => "i", 'J' => "j", 'K' => "k", 'L' => "l", 'M' => "m", 'N' => "n",
        'O' => "o", 'P' => "p", 'Q' => "q", 'R' => "r", 'S' => "s", 'T' => "t", 'U' => "u",
        'V' => "v", 'W' => "w", 'X' => "x", 'Y' => "y", _ => "z",
    }
}

/// Appends `src[from..to]`, where `chars` holds the characters of `src`.
pub fn push_range(out: &mut String, src: &str, chars: &Vec<char>, from: usize, to: usize)
    requires
        chars@ == src@,
        from <= to <= chars.len(),
    ensures
        final(out)@ == old(out)@ + src@.subrange(from as int, to as int),
{
    out.append(src.substring_char(from, to));
}

/// Appends `src[from..to]` with ASCII letters lower-cased.
pub fn push_range_lower(out: &mut String, src: &str, chars: &Vec<char>, from: usize, to: usize)
    requires
        chars@ == src@,
        from <= to <= chars.len(),
    ensures
        final(out)@ == old(out)@ + lower_seq(src@.subrange(from as int, to as int)),
{
    let mut k = from;
    while k < to
        invariant
            from <= k <= to <= chars.len(),
            chars@ == src@,
            out@ == old(out)@ + lower_seq(src@.subrange(from as int, k as int)),
        decreases to - k,
    {
        let c = chars[k];
        if 'A' <= c && c <= 'Z' {
            out.append(lower_letter_str(c));
        } else {
            out.append(src.substring_char(k, k + 1));
        }
        assert(lower_seq(src@.subrange(from as int, k + 1)) =~= lower_seq(src@.subrange(from as int, k as int)).push(ascii_lower(c)));
        k += 1;
    }
}

/// Whether `c` is an ASCII digit.
pub open spec fn is_digit(c: char) -> bool {
    '0' <= c && c <= '9'
}

/// Whether every character is an ASCII digit.
pub open spec fn all_digits(s: Seq<char>) -> bool {
    forall|i: int| 0 <= i < s.len() ==> is_digit(#[trigger] s[i])
}

/// The value of a run of decimal digits.
pub open spec fn digits_value(s: Seq<char>) -> nat
    decreases s.len(),
{
    if s.len() == 0 {
        0
    } else {
        digits_value(s.drop_last()) * 10 + (s.last() as nat - 48) as nat
    }
}

/// Rust's integer `FromStr` for a type with range `lo..=hi`: an optional `+` (or `-` when
/// `signed`) that is not the whole text, then one or more ASCII digits, whose value is in range.
pub open spec fn parse_int(s: Seq<char>, signed: bool, lo: int, hi: int) -> Option<int> {
    if s.len() == 0 {
        None
    } else if (s[0] == '+' || s[0] == '-') && s.len() == 1 {
        None
    } else {
        let neg = signed && s[0] == '-';
        let body = if s[0] == '+' || neg {
            s.drop_first()
        } else {
            s
        };
        if !all_digits(body) {
            None
        } else {
            let v = if neg {
                -(digits_value(body) as int)
            } else {
                digits_value(body) as int
            };
            if lo <= v && v <= hi {
                Some(v)
            } else {
                None
            }
        }
    }
}

proof fn lemma_digits_prefix_monotone(s: Seq<char>, i: int)
    requires
        0 <= i <= s.len(),
        all_digits(s),
    ensures
        digits_value(s.subrange(0, i)) <= digits_value(s),
    decreases s.len() - i,
{
    if i < s.len() {
        lemma_digits_prefix_monotone(s, i + 1);
        let p = s.subrange(0, i + 1);
        assert(p.drop_last() =~= s.subrange(0, i));
        assert(is_digit(s[i]));
    }
    assert(s.subrange(0, s.len() as int) =~= s);
}

/// Parses `s[from..to]` as Rust's integer `FromStr` would for the range `lo..=hi`.
#[verifier::loop_isolation(false)]
pub fn parse_range(s: &Vec<char>, from: usize, to: usize, signed: bool, lo: i128, hi: i128) -> (r: Option<i128>)
    requires
        from <= to <= s.len(),
        -0x1_0000_0000_0000_0000 <= lo <= 0,
        0 <= hi <= 0x1_0000_0000_0000_0000,
    ensures
        match parse_int(s@.subrange(from as int, to as int), signed, lo as int, hi as int) {
            Some(v) => r == Some(v as i128),
            None => r is None,
        },
{
    let ghost t = s@.subrange(from as int, to as int);
    if from == to {
        return None;
    }
    let first = s[from];
    if (first == '+' || first == '-') && to - from == 1 {
        return None;
    }
    let neg = signed && first == '-';
    let start = if first == '+' || neg { from + 1 } else { from };
    let ghost body = if first == '+' || neg { t.drop_first() } else { t };
    assert(body =~= s@.subrange(start as int, to as int));
    let limit: i128 = if neg { -lo } else { hi };
    let mut acc: i128 = 0;
    let mut i = start;
    while i < to
        invariant
            from <= start <= i <= to <= s.len(),
            body == s@.subrange(start as int, to as int),
            all_digits(s@.subrange(start as int, i as int)),
            acc as int == digits_value(s@.subrange(start as int, i as int)),
            0 <= acc <= limit,
            0 <= limit <= 0x1_0000_0000_0000_0000,
        decreases to - i,
    {
        let c = s[i];
        if !('0' <= c && c <= '9') {
            proof {
                assert(!is_digit(body[i - start]));
            }
            return None;
        }
        let dv = (c as u32 - 48) as i128;
        assert(s@.subrange(start as int, i + 1).drop_last() =~= s@.subrange(start as int, i as int));
        acc = acc * 10 + dv;
        i += 1;
        if acc > limit {
            proof {
                if all_digits(body) {
                    lemma_digits_prefix_monotone(body, i - start);
                    assert(body.subrange(0, i - start) =~= s@.subrange(start as int, i as int));
                }
            }
            return None;
        }
    }
    assert(s@.subrange(start as int, i as int) =~= body);
    if neg {
        Some(-acc)
    } else {
        Some(acc)
    }
}

/// Index of the first `c` in `v` at or after `i` (`v.len()` if none).
pub open spec fn find_char(v: Seq<char>, c: char, i: int) -> int
    decreases v.len() - i,
{
    if i < 0 || i >= v.len() {
        v.len() as int
    } else if v[i] == c {
        i
    } else {
        find_char(v, c, i + 1)
    }
}

pub proof fn lemma_find_char_bounds(v: Seq<char>, c: char, i: int)
    requires
        0 <= i <= v.len(),
    ensures
        i <= find_char(v, c, i) <= v.len(),
    decreases v.len() - i,
{
    if i < v.len() && v[i] != c {
        lemma_find_char_bounds(v, c, i + 1);
    }
}

/// Index of the first `c` in `v` at or after `i` (`v.len()` if none).
pub fn find_char_exec(v: &Vec<char>, c: char, i: usize) -> (r: usize)
    requires
        i <= v.len(),
    ensures
        r == find_char(v@, c, i as int),
        i <= r <= v.len(),
{
    proof {
        lemma_find_char_bounds(v@, c, i as int);
    }
    let mut k = i;
    while k < v.len()
        invariant
            i <= k <= v.len(),
            find_char(v@, c, i as int) == find_char(v@, c, k as int),
        decreases v.len() - k,
    {
        if v[k] == c {
            return k;
        }
        k += 1;
    }
    k
}

/// A copy of `v[from..to]`.
pub fn sub_chars(v: &Vec<char>, from: usize, to: usize) -> (r: Vec<char>)
    requires
        from <= to <= v.len(),
    ensures
        r@ == v@.subrange(from as int, to as int),
{
    let mut r: Vec<char> = Vec::new();
    let mut k = from;
    while k < to
        invariant
            from <= k <= to <= v.len(),
            r@ == v@.subrange(from as int, k as int),
        decreases to - k,
    {
        r.push(v[k]);
        k += 1;
    }
    r
}


/// `s[a..b]` without leading and trailing white space.
pub open spec fn trimmed(s: Seq<char>, a: int, b: int) -> Seq<char> {
    s.subrange(trim_range(s, a, b).0, trim_range(s, a, b).1)
}


/// What `str::to_lowercase` makes of a text: its Unicode lower case.
pub uninterp spec fn unicode_lower(s: Seq<char>) -> Seq<char>;

/// `str::to_lowercase`: the Unicode lower case of `s`. On ASCII text that is the ASCII lower
/// case: `A`-`Z` become `a`-`z` and every other ASCII character stays.
#[verifier::external_body]
pub(crate) fn to_lower(s: &str) -> (r: String)
    ensures
        r@ == unicode_lower(s@),
        (forall|i: int| 0 <= i < s@.len() ==> (#[trigger] s@[i] as u32) < 128) ==> r@ == lower_seq(s@),
{
    s.to_lowercase()
}

/// `String::push`: appends one character.
#[verifier::external_body]
pub(crate) fn push_char(s: &mut String, c: char)
    ensures
        final(s)@ == old(s)@.push(c),
{
    s.push(c);
}

/// A string holding `v[from..to]`.
pub fn string_from(v: &Vec<char>, from: usize, to: usize) -> (s: String)
    requires
        from <= to <= v.len(),
    ensures
        s@ == v@.subrange(from as int, to as int),
{
    let mut s = String::new();
    let mut k = from;
    while k < to
        invariant
            from <= k <= to <= v.len(),
            s@ == v@.subrange(from as int, k as int),
        decreases to - k,
    {
        push_char(&mut s, v[k]);
        assert(s@ =~= v@.subrange(from as int, k + 1));
        k += 1;
    }
    s
}

} // verus!

//! Conversions between strings and character vectors, and the decimal and
//! column-letter numerals that cell labels are written in.
use vstd::prelude::*;

verus! {

/// The characters of `s`, in order.
pub fn to_chars(s: &str) -> (v: Vec<char>)
    ensures
        v@ == s@,
{
    let mut v: Vec<char> = Vec::new();
    for c in it: s.chars()
        invariant
            v@ == it.seq().take(it.index() as int),
            it.seq() == s@,
    {
        v.push(c);
    }
    v
}

/// `String::push`: the string afterwards is the string before with `c`
/// appended as its last character.
#[verifier::external_body]
fn push_char(s: &mut String, c: char)
    ensures
        final(s)@ == old(s)@.push(c),
{
    s.push(c)
}

/// A string holding the characters of `v`, in order.
pub fn from_chars(v: &Vec<char>) -> (s: String)
    ensures
        s@ == v@,
{
    let mut s = String::new();
    let mut i: usize = 0;
    while i < v.len()
        invariant
            i <= v.len(),
            s@ == v@.take(i as int),
        decreases v.len() - i,
    {
        push_char(&mut s, v[i]);
        i += 1;
    }
    s
}

/// Whether `c` is one of the ten digits.
pub open spec fn is_digit(c: char) -> bool {
    '0' <= c <= '9'
}

/// Whether `c` is an upper-case letter of the basic alphabet.
pub open spec fn is_upper(c: char) -> bool {
    'A' <= c <= 'Z'
}

/// Whether `c` is a lower-case letter of the basic alphabet.
pub open spec fn is_lower(c: char) -> bool {
    'a' <= c <= 'z'
}

/// Whether `c` is a letter of the basic alphabet.
pub open spec fn is_letter(c: char) -> bool {
    is_upper(c) || is_lower(c)
}

/// Whether `c` is a blank: a space, a tab or the end of a line.
pub open spec fn is_space(c: char) -> bool {
    c == ' ' || c == '\t' || c == '\n' || c == '\r'
}

/// The digit character for `d`, `0 <= d <= 9`.
pub open spec fn digit_char(d: int) -> char {
    (('0' as u8) + d) as u8 as char
}

/// The upper-case letter for `d`, `0 <= d <= 25`, with `A` for 0.
pub open spec fn letter_char(d: int) -> char {
    (('A' as u8) + d) as u8 as char
}

/// What a digit character counts for.
pub open spec fn digit_value(c: char) -> int {
    c as u8 - '0' as u8
}

/// What a letter counts for in a column label: 1 for `A` or `a`, 26 for `Z`
/// or `z`.
pub open spec fn letter_value(c: char) -> int {
    if is_lower(c) {
        c as u8 - 'a' as u8 + 1
    } else {
        c as u8 - 'A' as u8 + 1
    }
}

/// The decimal numeral of `n`, without leading zeros.
pub open spec fn decimal(n: nat) -> Seq<char>
    decreases n,
{
    if n < 10 {
        seq![digit_char(n as int)]
    } else {
        decimal(n / 10).push(digit_char((n % 10) as int))
    }
}

/// The number that a sequence of digits writes down.
pub open spec fn decimal_value(s: Seq<char>) -> nat
    decreases s.len(),
{
    if s.len() == 0 {
        0
    } else {
        (decimal_value(s.drop_last()) * 10 + digit_value(s.last())) as nat
    }
}

/// The column label of the 1-based column `n` in bijective base 26: `A` for
/// 1, `Z` for 26, `AA` for 27.
pub open spec fn column_letters(n: nat) -> Seq<char>
    decreases n,
{
    if n == 0 {
        Seq::empty()
    } else {
        column_letters(((n - 1) / 26) as nat).push(letter_char((n - 1) % 26))
    }
}

/// The 1-based column that a sequence of letters names.
pub open spec fn letters_value(s: Seq<char>) -> nat
    decreases s.len(),
{
    if s.len() == 0 {
        0
    } else {
        (letters_value(s.drop_last()) * 26 + letter_value(s.last())) as nat
    }
}

/// Whether `s` holds digits only.
pub open spec fn all_digits(s: Seq<char>) -> bool {
    forall|i: int| 0 <= i < s.len() ==> is_digit(#[trigger] s[i])
}

/// Whether `s` holds letters only.
pub open spec fn all_letters(s: Seq<char>) -> bool {
    forall|i: int| 0 <= i < s.len() ==> is_letter(#[trigger] s[i])
}

/// Whether `s` holds upper-case letters only.
pub open spec fn all_upper(s: Seq<char>) -> bool {
    forall|i: int| 0 <= i < s.len() ==> is_upper(#[trigger] s[i])
}

/// Whether `c` is one of the ten digits.
pub fn char_is_digit(c: char) -> (b: bool)
    ensures
        b == is_digit(c),
{
    '0' <= c && c <= '9'
}

/// Whether `c` is a letter of the basic alphabet.
pub fn char_is_letter(c: char) -> (b: bool)
    ensures
        b == is_letter(c),
{
    ('A' <= c && c <= 'Z') || ('a' <= c && c <= 'z')
}

/// Whether `c` is a blank.
pub fn char_is_space(c: char) -> (b: bool)
    ensures
        b == is_space(c),
{
    c == ' ' || c == '\t' || c == '\n' || c == '\r'
}

/// Appends the decimal numeral of `n` to `out`.
pub fn push_decimal(out: &mut Vec<char>, n: u32)
    ensures
        final(out)@ == old(out)@ + decimal(n as nat),
{
    push_decimal_long(out, n as u64)
}

/// Appends the decimal numeral of `n` to `out`.
pub fn push_decimal_long(out: &mut Vec<char>, n: u64)
    ensures
        final(out)@ == old(out)@ + decimal(n as nat),
{
    let mut digits: Vec<char> = Vec::new();
    let mut rest: u64 = n;
    while rest >= 10
        invariant
            decimal(n as nat) == decimal(rest as nat) + digits@,
        decreases rest,
    {
        let d: u8 = (rest % 10) as u8;
        digits.insert(0, (48u8 + d) as char);
        proof {
            let prev = digits@.drop_first();
            assert(decimal(rest as nat) == decimal((rest / 10) as nat).push(
                digit_char((rest % 10) as int),
            ));
            assert(digits@ == seq![digit_char((rest % 10) as int)] + prev);
            assert(decimal(rest as nat) + prev == decimal((rest / 10) as nat) + digits@);
        }
        rest = rest / 10;
    }
    digits.insert(0, (48u8 + rest as u8) as char);
    proof {
        let prev = digits@.drop_first();
        assert(digits@ == seq![digit_char(rest as int)] + prev);
        assert(decimal(rest as nat) == seq![digit_char(rest as int)]);
        assert(decimal(n as nat) == digits@);
    }
    out.append(&mut digits);
}

/// Appends the column label of the 1-based column `n` to `out`.
pub fn push_column_letters(out: &mut Vec<char>, n: u32)
    ensures
        final(out)@ == old(out)@ + column_letters(n as nat),
{
    let mut letters: Vec<char> = Vec::new();
    let mut rest: u32 = n;
    while rest > 0
        invariant
            column_letters(n as nat) == column_letters(rest as nat) + letters@,
        decreases rest,
    {
        let d: u8 = ((rest - 1) % 26) as u8;
        letters.insert(0, (65u8 + d) as char);
        proof {
            let prev = letters@.drop_first();
            assert(letters@ == seq![letter_char((rest - 1) % 26)] + prev);
            assert(column_letters(rest as nat) + prev == column_letters(
                ((rest - 1) / 26) as nat,
            ) + letters@);
        }
        rest = (rest - 1) / 26;
    }
    assert(column_letters(n as nat) == letters@);
    out.append(&mut letters);
}

/// Whether `needle` stands somewhere in `hay`.
pub open spec fn occurs(hay: Seq<char>, needle: Seq<char>) -> bool {
    exists|i: int| 0 <= i <= hay.len() - needle.len() && #[trigger] hay.subrange(
        i,
        i + needle.len(),
    ) == needle
}

/// Whether the characters of `s` from `from` to `to` are those of `word`.
pub fn same_text(s: &Vec<char>, from: usize, to: usize, word: &Vec<char>) -> (b: bool)
    requires
        from <= to <= s.len(),
    ensures
        b == (s@.subrange(from as int, to as int) == word@),
{
    if to - from != word.len() {
        return false;
    }
    let mut i: usize = 0;
    while i < word.len()
        invariant
            from <= to <= s.len(),
            to - from == word.len(),
            i <= word.len(),
            forall|j: int| 0 <= j < i ==> s@[from + j] == word@[j],
        decreases word.len() - i,
    {
        if s[from + i] != word[i] {
            assert(s@.subrange(from as int, to as int)[i as int] != word@[i as int]);
            return false;
        }
        i += 1;
    }
    assert(s@.subrange(from as int, to as int) =~= word@);
    true
}

/// Whether `needle` stands somewhere in `hay`.
pub fn contains_text(hay: &Vec<char>, needle: &Vec<char>) -> (b: bool)
    ensures
        b == occurs(hay@, needle@),
{
    if needle.len() > hay.len() {
        return false;
    }
    let last = hay.len() - needle.len();
    let mut i: usize = 0;
    loop
        invariant
            last == hay.len() - needle.len(),
            i <= last,
            forall|j: int| 0 <= j < i ==> #[trigger] hay@.subrange(j, j + needle@.len()) != needle@,
        decreases last - i,
    {
        if same_text(hay, i, i + needle.len(), needle) {
            return true;
        }
        if i == last {
            return false;
        }
        i += 1;
    }
}

/// The start of the run of blanks that ends at `p`.
pub open spec fn back_span(s: Seq<char>, p: int) -> int
    decreases p,
{
    if 0 < p <= s.len() && is_space(s[p - 1]) {
        back_span(s, p - 1)
    } else {
        p
    }
}

/// Whether `s` holds nothing but blanks.
pub open spec fn blank(s: Seq<char>) -> bool {
    span(s, 0, CharClass::Space) == s.len()
}

/// `s` without the blanks before and after it.
pub open spec fn trimmed(s: Seq<char>) -> Seq<char> {
    if blank(s) {
        Seq::empty()
    } else {
        s.subrange(span(s, 0, CharClass::Space), back_span(s, s.len() as int))
    }
}

/// The place of the first `c` in `s` from `p` on; the length of `s` if there
/// is none.
pub open spec fn index_of(s: Seq<char>, p: int, c: char) -> int
    decreases s.len() - p,
{
    if 0 <= p < s.len() && s[p] != c {
        index_of(s, p + 1, c)
    } else {
        p
    }
}

/// The place of the first `c` in `s` from `p` on.
pub fn find_char(s: &Vec<char>, p: usize, c: char) -> (q: usize)
    requires
        p <= s.len(),
    ensures
        q == index_of(s@, p as int, c),
        p <= q <= s.len(),
{
    let mut q: usize = p;
    while q < s.len() && s[q] != c
        invariant
            p <= q <= s.len(),
            index_of(s@, p as int, c) == index_of(s@, q as int, c),
        decreases s.len() - q,
    {
        q += 1;
    }
    q
}

/// The bounds of the part of `s` between `from` and `to` that is left when
/// the blanks before and after it are taken away.
pub fn trim(s: &Vec<char>, from: usize, to: usize) -> (bounds: (usize, usize))
    requires
        from <= to <= s.len(),
    ensures
        from <= bounds.0 <= bounds.1 <= to,
        s@.subrange(bounds.0 as int, bounds.1 as int) == trimmed(s@.subrange(from as int, to as int)),
{
    let ghost part = s@.subrange(from as int, to as int);
    let mut a: usize = from;
    while a < to && char_is_space(s[a])
        invariant
            from <= a <= to <= s.len(),
            part == s@.subrange(from as int, to as int),
            span(part, 0, CharClass::Space) == span(part, a - from, CharClass::Space),
        decreases to - a,
    {
        a += 1;
    }
    if a == to {
        assert(s@.subrange(a as int, a as int) =~= Seq::<char>::empty());
        return (a, a);
    }
    assert(part[a - from] == s@[a as int]);
    let mut b: usize = to;
    while b > a && char_is_space(s[b - 1])
        invariant
            from <= a < to <= s.len(),
            a < b <= to,
            !is_space(s@[a as int]),
            span(part, 0, CharClass::Space) == a - from,
            part == s@.subrange(from as int, to as int),
            back_span(part, part.len() as int) == back_span(part, b - from),
        decreases b,
    {
        assert(part[b - from - 1] == s@[b - 1]);
        b -= 1;
    }
    assert(part[b - from - 1] == s@[b - 1]);
    assert(s@.subrange(a as int, b as int) =~= part.subrange(a - from, b - from));
    (a, b)
}

/// The whole number that `t` writes: digits, which a plus or a minus sign
/// may precede, for a number from -2147483648 to 2147483647.
pub open spec fn whole(t: Seq<char>) -> Option<i32> {
    let signed = t.len() > 0 && (t[0] == '-' || t[0] == '+');
    let digits = if signed {
        t.subrange(1, t.len() as int)
    } else {
        t
    };
    let value = if t.len() > 0 && t[0] == '-' {
        -(decimal_value(digits) as int)
    } else {
        decimal_value(digits) as int
    };
    if digits.len() > 0 && all_digits(digits) && i32::MIN <= value <= i32::MAX {
        Some(value as i32)
    } else {
        None
    }
}

/// The whole number that the characters of `t` write.
pub fn read_whole(t: &Vec<char>) -> (r: Option<i32>)
    ensures
        r == whole(t@),
{
    if t.len() == 0 {
        return None;
    }
    let negative = t[0] == '-';
    let from: usize = if t[0] == '-' || t[0] == '+' {
        1
    } else {
        0
    };
    let ghost digits = t@.subrange(from as int, t@.len() as int);
    proof {
        if from == 0 {
            assert(digits =~= t@);
        }
    }
    if from == t.len() {
        return None;
    }
    let end = scan(t, from, CharClass::Digit);
    proof {
        span_is_run(t@, from as int, CharClass::Digit);
    }
    if end != t.len() {
        assert(!is_digit(digits[end - from]));
        return None;
    }
    assert forall|i: int| 0 <= i < digits.len() implies is_digit(#[trigger] digits[i]) by {
        assert(CharClass::Digit.has(t@[from + i]));
    }
    read_long(t, from, end, negative)
}

/// The whole number that the digits of `t` from `from` to `to` write, of
/// whatever length, with a minus sign before it if `negative`.
fn read_long(t: &Vec<char>, from: usize, to: usize, negative: bool) -> (r: Option<i32>)
    requires
        from <= to <= t.len(),
        all_digits(t@.subrange(from as int, to as int)),
    ensures
        ({
            let value = if negative {
                -(decimal_value(t@.subrange(from as int, to as int)) as int)
            } else {
                decimal_value(t@.subrange(from as int, to as int)) as int
            };
            r == if i32::MIN <= value <= i32::MAX {
                Some(value as i32)
            } else {
                None
            }
        }),
{
    let mut acc: u64 = 0;
    let mut i: usize = from;
    assert(t@.subrange(from as int, from as int) =~= Seq::<char>::empty());
    while i < to
        invariant
            from <= i <= to <= t.len(),
            all_digits(t@.subrange(from as int, to as int)),
            acc == decimal_value(t@.subrange(from as int, i as int)),
            acc <= 0x8000_0000,
        decreases to - i,
    {
        let c = t[i];
        assert(c == t@.subrange(from as int, to as int)[i - from]);
        let d: u64 = (c as u8 - 48u8) as u64;
        proof {
            assert(t@.subrange(from as int, i + 1).drop_last() == t@.subrange(
                from as int,
                i as int,
            ));
            assert(t@.subrange(from as int, i + 1).last() == c);
            assert(d == digit_value(c));
        }
        acc = acc * 10 + d;
        i += 1;
        if acc > 0x8000_0000 {
            proof {
                decimal_value_grows(t@, from as int, i as int, to as int);
            }
            return None;
        }
    }
    if negative {
        Some((-(acc as i64)) as i32)
    } else if acc <= 0x7fff_ffff {
        Some(acc as i32)
    } else {
        None
    }
}

/// Why a text was refused.
#[derive(Copy, Clone, Debug, PartialEq, Eq, Structural)]
pub enum ParseError {
    /// A label that names no cell, or a cell outside the grid.
    InvalidCell,
    /// A text that the grammar does not derive, or an unknown function name.
    InvalidFormula,
    /// A range whose corners are out of order or outside the grid.
    InvalidRange,
}

/// The classes of characters that the scanner tells apart.
#[derive(Copy, Clone, Debug, PartialEq, Eq, Structural)]
pub enum CharClass {
    Letter,
    Digit,
    Space,
}

impl CharClass {
    /// Whether `c` belongs to the class.
    pub open spec fn has(self, c: char) -> bool {
        match self {
            CharClass::Letter => is_letter(c),
            CharClass::Digit => is_digit(c),
            CharClass::Space => is_space(c),
        }
    }

    /// Whether `c` belongs to the class.
    pub fn holds(&self, c: char) -> (b: bool)
        ensures
            b == self.has(c),
    {
        match self {
            CharClass::Letter => char_is_letter(c),
            CharClass::Digit => char_is_digit(c),
            CharClass::Space => char_is_space(c),
        }
    }
}

/// The end of the longest run of characters of `class` that starts at `p`.
pub open spec fn span(s: Seq<char>, p: int, class: CharClass) -> int
    decreases s.len() - p,
{
    if 0 <= p < s.len() && class.has(s[p]) {
        span(s, p + 1, class)
    } else {
        p
    }
}

/// A run ends inside the text, holds only characters of its class, and is
/// followed by none of them.
pub proof fn span_is_run(s: Seq<char>, p: int, class: CharClass)
    requires
        0 <= p <= s.len(),
    ensures
        p <= span(s, p, class) <= s.len(),
        forall|i: int| p <= i < span(s, p, class) ==> class.has(#[trigger] s[i]),
        span(s, p, class) < s.len() ==> !class.has(s[span(s, p, class)]),
    decreases s.len() - p,
{
    if p < s.len() && class.has(s[p]) {
        span_is_run(s, p + 1, class);
    }
}

/// A run of characters of a class that is followed by none of them is the
/// longest one.
pub proof fn span_exact(s: Seq<char>, p: int, e: int, class: CharClass)
    requires
        0 <= p <= e <= s.len(),
        forall|i: int| p <= i < e ==> class.has(#[trigger] s[i]),
        e == s.len() || !class.has(s[e]),
    ensures
        span(s, p, class) == e,
    decreases e - p,
{
    if p < e {
        span_exact(s, p + 1, e, class);
    }
}

/// The digit for `d` is a digit and counts for `d`; the letter for `d` is an
/// upper-case letter and counts for `d + 1`.
pub proof fn numerals_count(d: int)
    ensures
        0 <= d <= 9 ==> is_digit(digit_char(d)) && digit_value(digit_char(d)) == d,
        0 <= d <= 25 ==> is_upper(letter_char(d)) && !is_lower(letter_char(d)) && letter_value(
            letter_char(d),
        ) == d + 1,
{
    if 0 <= d <= 9 {
        assert(digit_char(d) as u8 == 48 + d);
    }
    if 0 <= d <= 25 {
        assert(letter_char(d) as u8 == 65 + d);
    }
}

/// The decimal numeral of a number holds digits only, at least one, and
/// writes that number.
pub proof fn decimal_reads_back(n: nat)
    ensures
        decimal(n).len() >= 1,
        all_digits(decimal(n)),
        decimal_value(decimal(n)) == n,
    decreases n,
{
    if n < 10 {
        numerals_count(n as int);
        let s = decimal(n);
        assert(s.drop_last() =~= Seq::<char>::empty());
        assert(decimal_value(s.drop_last()) == 0);
    } else {
        decimal_reads_back(n / 10);
        numerals_count((n % 10) as int);
        let s = decimal(n);
        assert(s.drop_last() =~= decimal(n / 10));
        assert forall|i: int| 0 <= i < s.len() implies is_digit(#[trigger] s[i]) by {
            if i < s.len() - 1 {
                assert(s[i] == decimal(n / 10)[i]);
            }
        }
    }
}

/// The label of a column holds upper-case letters only, at least one, and
/// names that column.
pub proof fn column_reads_back(n: nat)
    ensures
        n >= 1 ==> column_letters(n).len() >= 1,
        all_upper(column_letters(n)),
        letters_value(column_letters(n)) == n,
    decreases n,
{
    if n > 0 {
        let rest = ((n - 1) / 26) as nat;
        column_reads_back(rest);
        numerals_count((n - 1) % 26);
        let s = column_letters(n);
        assert(s.drop_last() =~= column_letters(rest));
        assert forall|i: int| 0 <= i < s.len() implies is_upper(#[trigger] s[i]) by {
            if i < s.len() - 1 {
                assert(s[i] == column_letters(rest)[i]);
            }
        }
    }
}

/// The end of the longest run of characters of `class` that starts at `p`.
pub fn scan(s: &Vec<char>, p: usize, class: CharClass) -> (q: usize)
    requires
        p <= s.len(),
    ensures
        q == span(s@, p as int, class),
        p <= q <= s.len(),
{
    let mut q: usize = p;
    while q < s.len() && class.holds(s[q])
        invariant
            p <= q <= s.len(),
            span(s@, p as int, class) == span(s@, q as int, class),
        decreases s.len() - q,
    {
        q += 1;
    }
    q
}

/// The largest row or column number, counted from 1, that a label can name.
pub const LABEL_LIMIT: u32 = 32768;

/// A longer run of letters names no smaller column.
pub proof fn letters_value_grows(s: Seq<char>, from: int, mid: int, to: int)
    requires
        0 <= from <= mid <= to <= s.len(),
        all_letters(s.subrange(from, to)),
    ensures
        letters_value(s.subrange(from, mid)) <= letters_value(s.subrange(from, to)),
    decreases to - mid,
{
    if mid < to {
        assert(s.subrange(from, to).drop_last() == s.subrange(from, to - 1));
        assert forall|i: int| 0 <= i < to - 1 - from implies is_letter(
            #[trigger] s.subrange(from, to - 1)[i],
        ) by {
            assert(s.subrange(from, to - 1)[i] == s.subrange(from, to)[i]);
        }
        letters_value_grows(s, from, mid, to - 1);
        assert(is_letter(s.subrange(from, to).last()));
    }
}

/// A longer run of digits writes no smaller number.
pub proof fn decimal_value_grows(s: Seq<char>, from: int, mid: int, to: int)
    requires
        0 <= from <= mid <= to <= s.len(),
        all_digits(s.subrange(from, to)),
    ensures
        decimal_value(s.subrange(from, mid)) <= decimal_value(s.subrange(from, to)),
    decreases to - mid,
{
    if mid < to {
        assert(s.subrange(from, to).drop_last() == s.subrange(from, to - 1));
        assert forall|i: int| 0 <= i < to - 1 - from implies is_digit(
            #[trigger] s.subrange(from, to - 1)[i],
        ) by {
            assert(s.subrange(from, to - 1)[i] == s.subrange(from, to)[i]);
        }
        decimal_value_grows(s, from, mid, to - 1);
        assert(is_digit(s.subrange(from, to).last()));
    }
}

/// The greatest limit that the readers of numerals take.
pub const READ_LIMIT: u32 = 100_000_000;

/// The column that the letters from `from` to `to` name, where it is at most
/// `limit`.
pub fn read_letters(s: &Vec<char>, from: usize, to: usize, limit: u32) -> (v: Option<u32>)
    requires
        from <= to <= s.len(),
        all_letters(s@.subrange(from as int, to as int)),
        limit <= READ_LIMIT,
    ensures
        v matches Some(n) ==> n == letters_value(s@.subrange(from as int, to as int)) && n <= limit,
        v is None ==> letters_value(s@.subrange(from as int, to as int)) > limit,
{
    let mut acc: u32 = 0;
    let mut i: usize = from;
    while i < to
        invariant
            from <= i <= to <= s.len(),
            all_letters(s@.subrange(from as int, to as int)),
            limit <= READ_LIMIT,
            acc == letters_value(s@.subrange(from as int, i as int)),
            acc <= limit,
        decreases to - i,
    {
        let c = s[i];
        assert(c == s@.subrange(from as int, to as int)[i - from]);
        let d: u32 = if 'a' <= c && c <= 'z' {
            (c as u8 - 97u8) as u32 + 1
        } else {
            (c as u8 - 65u8) as u32 + 1
        };
        proof {
            assert(s@.subrange(from as int, i + 1).drop_last() == s@.subrange(
                from as int,
                i as int,
            ));
            assert(s@.subrange(from as int, i + 1).last() == c);
            assert(d == letter_value(c));
        }
        acc = acc * 26 + d;
        i += 1;
        if acc > limit {
            proof {
                letters_value_grows(s@, from as int, i as int, to as int);
            }
            return None;
        }
    }
    Some(acc)
}

/// The number that the digits from `from` to `to` write, where it is at most
/// `limit`.
pub fn read_digits(s: &Vec<char>, from: usize, to: usize, limit: u32) -> (v: Option<u32>)
    requires
        from <= to <= s.len(),
        all_digits(s@.subrange(from as int, to as int)),
        limit <= READ_LIMIT,
    ensures
        v matches Some(n) ==> n == decimal_value(s@.subrange(from as int, to as int)) && n <= limit,
        v is None ==> decimal_value(s@.subrange(from as int, to as int)) > limit,
{
    let mut acc: u32 = 0;
    let mut i: usize = from;
    while i < to
        invariant
            from <= i <= to <= s.len(),
            all_digits(s@.subrange(from as int, to as int)),
            limit <= READ_LIMIT,
            acc == decimal_value(s@.subrange(from as int, i as int)),
            acc <= limit,
        decreases to - i,
    {
        let c = s[i];
        assert(c == s@.subrange(from as int, to as int)[i - from]);
        let d: u32 = (c as u8 - 48u8) as u32;
        proof {
            assert(s@.subrange(from as int, i + 1).drop_last() == s@.subrange(
                from as int,
                i as int,
            ));
            assert(s@.subrange(from as int, i + 1).last() == c);
            assert(d == digit_value(c));
        }
        acc = acc * 10 + d;
        i += 1;
        if acc > limit {
            proof {
                decimal_value_grows(s@, from as int, i as int, to as int);
            }
            return None;
        }
    }
    Some(acc)
}

} // verus!

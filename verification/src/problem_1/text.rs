//! Numbers, blanks and lines in a text of bytes.

use vstd::prelude::*;

verus! {

/// The line feed.
pub const NEWLINE: u8 = 10;

/// The space.
pub const SPACE: u8 = 32;

/// The digit zero.
pub const ZERO: u8 = 48;

/// The plus sign.
pub const PLUS: u8 = 43;

/// A decimal digit.
pub open spec fn is_digit(b: u8) -> bool {
    48 <= b <= 57
}

/// ASCII white space that does not end a line: space, tab, vertical tab,
/// form feed and carriage return.
pub open spec fn is_blank(b: u8) -> bool {
    b == 32 || b == 9 || b == 11 || b == 12 || b == 13
}

/// Where the line that holds position `i` ends: at the first line feed at or
/// behind `i`, or at the end of the text.
pub open spec fn line_end(s: Seq<u8>, i: int) -> int
    decreases s.len() - i,
{
    if i >= s.len() || s[i] == NEWLINE {
        i
    } else {
        line_end(s, i + 1)
    }
}

/// The three bytes encode a blank beyond ASCII that takes three bytes: the
/// Ogham space mark, the spaces from the en quad to the hair space, the line
/// and the paragraph separator, the narrow no-break space, the medium
/// mathematical space or the ideographic space.
pub open spec fn is_wide_blank(a: u8, b: u8, c: u8) -> bool {
    ||| a == 0xE1 && b == 0x9A && c == 0x80
    ||| a == 0xE2 && b == 0x80 && (0x80 <= c <= 0x8A || c == 0xA8 || c == 0xA9 || c == 0xAF)
    ||| a == 0xE2 && b == 0x81 && c == 0x9F
    ||| a == 0xE3 && b == 0x80 && c == 0x80
}

/// How many bytes the blank takes that starts at position `i` of a line
/// that ends at `hi`; zero where none starts there. Blanks are the white
/// space of Unicode but for the line feed: the ASCII blanks in one byte,
/// the next-line mark and the no-break space in two, the others in three.
pub open spec fn blank_width(s: Seq<u8>, i: int, hi: int) -> int {
    if i < 0 || i >= hi {
        0
    } else if is_blank(s[i]) {
        1
    } else if i + 1 < hi && s[i] == 0xC2 && (s[i + 1] == 0x85 || s[i + 1] == 0xA0) {
        2
    } else if i + 2 < hi && is_wide_blank(s[i], s[i + 1], s[i + 2]) {
        3
    } else {
        0
    }
}

/// The first position at or behind `i` and before `hi` at which no blank
/// starts, or `hi`.
pub open spec fn skip_blanks(s: Seq<u8>, i: int, hi: int) -> int
    decreases hi - i,
{
    if blank_width(s, i, hi) == 0 {
        i
    } else {
        skip_blanks(s, i + blank_width(s, i, hi), hi)
    }
}

/// The first position at or behind `i` and before `hi` that holds no digit,
/// or `hi`.
pub open spec fn digits_end(s: Seq<u8>, i: int, hi: int) -> int
    decreases hi - i,
{
    if i >= hi || !is_digit(s[i]) {
        i
    } else {
        digits_end(s, i + 1, hi)
    }
}

/// The number that the digits from `i` up to `j` spell.
pub open spec fn number_at(s: Seq<u8>, i: int, j: int) -> nat
    decreases j - i,
{
    if j <= i {
        0
    } else {
        number_at(s, i, j - 1) * 10 + (s[j - 1] - ZERO) as nat
    }
}

/// Where the line behind the one that ends at `hi` starts: behind the line
/// feed, if there is one.
pub open spec fn line_after(s: Seq<u8>, hi: int) -> int {
    if hi < s.len() {
        hi + 1
    } else {
        hi
    }
}

/// How many line feeds the text holds.
pub open spec fn line_feeds(s: Seq<u8>) -> nat
    decreases s.len(),
{
    if s.len() == 0 {
        0
    } else if s.last() == NEWLINE {
        line_feeds(s.drop_last()) + 1
    } else {
        line_feeds(s.drop_last())
    }
}

/// How many lines the text has: one for each line feed, and one more for
/// what stands behind the last line feed, unless nothing stands there.
pub open spec fn line_count(s: Seq<u8>) -> nat {
    if s.len() > 0 && s.last() != NEWLINE {
        line_feeds(s) + 1
    } else {
        line_feeds(s)
    }
}

/// How many fields stand from position `i` to the end of the line at `hi`:
/// a field is a run of bytes with no blank in it, and `inside` says whether
/// position `i` goes on a field that began before it.
pub open spec fn fields_in(s: Seq<u8>, i: int, hi: int, inside: bool) -> nat
    decreases hi - i,
{
    if i < 0 || i >= hi {
        0
    } else if blank_width(s, i, hi) > 0 {
        fields_in(s, i + blank_width(s, i, hi), hi, false)
    } else if inside {
        fields_in(s, i + 1, hi, true)
    } else {
        1 + fields_in(s, i + 1, hi, true)
    }
}

/// A field read from position `i` of a line that ends at `hi`.
pub enum Field {
    /// Nothing but blanks is left on the line.
    Missing,
    /// What follows the blanks is no number, or a number above the limit.
    Malformed,
    /// A number, and the position behind its last digit.
    Number { value: u64, next: usize },
}

/// Where the digits of the field that starts at `start` begin: behind a
/// plus sign, if one stands there.
pub open spec fn behind_sign(s: Seq<u8>, start: int, hi: int) -> int {
    if start < hi && s[start] == PLUS {
        start + 1
    } else {
        start
    }
}

/// The field that starts at or behind position `i` of a line that ends at
/// `hi`: blanks are skipped, then a plus sign if there is one, then digits
/// are read up to a blank or the end of the line, and the number they spell
/// must not exceed `limit`.
pub open spec fn field_at(s: Seq<u8>, i: int, hi: int, limit: u64) -> Field {
    let start = skip_blanks(s, i, hi);
    let a = behind_sign(s, start, hi);
    let b = digits_end(s, a, hi);
    if start >= hi {
        Field::Missing
    } else if b == a || (b < hi && blank_width(s, b, hi) == 0) || number_at(s, a, b) > limit {
        Field::Malformed
    } else {
        Field::Number { value: number_at(s, a, b) as u64, next: b as usize }
    }
}

/// The decimal digits of `v`, without leading zeros.
pub open spec fn decimal(v: nat) -> Seq<u8>
    decreases v,
{
    if v < 10 {
        seq![(ZERO + v) as u8]
    } else {
        decimal(v / 10).push((ZERO + v % 10) as u8)
    }
}

/// Where the line that holds position `i` ends.
pub fn find_line_end(s: &[u8], i: usize) -> (end: usize)
    requires
        i <= s@.len(),
    ensures
        end == line_end(s@, i as int),
        i <= end <= s@.len(),
        end < s@.len() ==> s@[end as int] == NEWLINE,
        forall|k: int| i <= k < end ==> s@[k] != NEWLINE,
{
    let mut end: usize = i;
    while end < s.len() && s[end] != NEWLINE
        invariant
            i <= end <= s@.len(),
            line_end(s@, i as int) == line_end(s@, end as int),
            forall|k: int| i <= k < end ==> s@[k] != NEWLINE,
        decreases s@.len() - end,
    {
        end = end + 1;
    }
    end
}

/// Where the line behind the one that ends at `hi` starts.
pub fn next_line(s: &[u8], hi: usize) -> (next: usize)
    requires
        hi <= s@.len(),
    ensures
        next == line_after(s@, hi as int),
        hi <= next <= s@.len(),
{
    if hi < s.len() {
        hi + 1
    } else {
        hi
    }
}

/// Counts the lines of a text.
pub fn count_lines(s: &[u8]) -> (count: usize)
    ensures
        count == line_count(s@),
{
    let mut feeds: usize = 0;
    let mut i: usize = 0;
    while i < s.len()
        invariant
            i <= s@.len(),
            feeds <= i,
            feeds == line_feeds(s@.take(i as int)),
        decreases s@.len() - i,
    {
        proof {
            assert(s@.take(i + 1).drop_last() =~= s@.take(i as int));
        }
        if s[i] == NEWLINE {
            feeds = feeds + 1;
        }
        i = i + 1;
    }
    proof {
        assert(s@.take(i as int) =~= s@);
        if s@.len() > 0 {
            lemma_line_feeds_bound(s@.drop_last());
        }
    }
    if s.len() > 0 && s[s.len() - 1] != NEWLINE {
        feeds + 1
    } else {
        feeds
    }
}

/// Whether `b` is white space that does not end a line.
pub fn blank(b: u8) -> (yes: bool)
    ensures
        yes == is_blank(b),
{
    b == 32 || b == 9 || b == 11 || b == 12 || b == 13
}

/// How many bytes the blank takes that starts at position `i` of a line
/// that ends at `hi`; zero where none starts there.
pub fn blank_at(s: &[u8], i: usize, hi: usize) -> (width: usize)
    requires
        i <= hi <= s@.len(),
    ensures
        width == blank_width(s@, i as int, hi as int),
        i + width <= hi,
{
    if i >= hi {
        return 0;
    }
    let a: u8 = s[i];
    if blank(a) {
        return 1;
    }
    if hi - i >= 2 && a == 0xC2 && (s[i + 1] == 0x85 || s[i + 1] == 0xA0) {
        return 2;
    }
    if hi - i >= 3 {
        let b: u8 = s[i + 1];
        let c: u8 = s[i + 2];
        if (a == 0xE1 && b == 0x9A && c == 0x80) || (a == 0xE2 && b == 0x80 && ((0x80 <= c && c
            <= 0x8A) || c == 0xA8 || c == 0xA9 || c == 0xAF)) || (a == 0xE2 && b == 0x81 && c
            == 0x9F) || (a == 0xE3 && b == 0x80 && c == 0x80) {
            return 3;
        }
    }
    0
}

/// The first position at or behind `i` and before `hi` at which no blank
/// starts, or `hi`.
pub fn skip_to_field(s: &[u8], i: usize, hi: usize) -> (at: usize)
    requires
        i <= hi <= s@.len(),
    ensures
        at == skip_blanks(s@, i as int, hi as int),
        i <= at <= hi,
{
    let mut a: usize = i;
    let mut width: usize = blank_at(s, a, hi);
    while width > 0
        invariant
            i <= a <= hi <= s@.len(),
            width == blank_width(s@, a as int, hi as int),
            a + width <= hi,
            skip_blanks(s@, i as int, hi as int) == skip_blanks(s@, a as int, hi as int),
        decreases hi - a,
    {
        a = a + width;
        width = blank_at(s, a, hi);
    }
    a
}

/// Counts the fields on the line from position `i` to its end at `hi`.
pub fn count_fields(s: &[u8], i: usize, hi: usize) -> (count: usize)
    requires
        i <= hi <= s@.len(),
    ensures
        count == fields_in(s@, i as int, hi as int, false),
        count <= hi - i,
{
    let mut count: usize = 0;
    let mut a: usize = i;
    let mut inside: bool = false;
    while a < hi
        invariant
            i <= a <= hi <= s@.len(),
            count <= a - i,
            count + fields_in(s@, a as int, hi as int, inside) == fields_in(
                s@,
                i as int,
                hi as int,
                false,
            ),
        decreases hi - a,
    {
        let width: usize = blank_at(s, a, hi);
        if width > 0 {
            a = a + width;
            inside = false;
        } else {
            if !inside {
                count = count + 1;
                inside = true;
            }
            a = a + 1;
        }
    }
    count
}

/// Reads the field that starts at or behind position `i` of a line that
/// ends at `hi`.
pub fn read_field(s: &[u8], i: usize, hi: usize, limit: u64) -> (field: Field)
    requires
        i <= hi <= s@.len(),
    ensures
        field == field_at(s@, i as int, hi as int, limit),
        field matches Field::Number { value, next } ==> i < next <= hi && value <= limit,
{
    let mut a: usize = skip_to_field(s, i, hi);
    if a >= hi {
        return Field::Missing;
    }
    if s[a] == PLUS {
        a = a + 1;
    }
    let mut b: usize = a;
    let mut value: u128 = 0;
    let mut too_big: bool = false;
    while b < hi && 48 <= s[b] && s[b] <= 57
        invariant
            a <= b <= hi <= s@.len(),
            digits_end(s@, a as int, hi as int) == digits_end(s@, b as int, hi as int),
            !too_big ==> value == number_at(s@, a as int, b as int) && value <= limit,
            too_big ==> number_at(s@, a as int, b as int) > limit,
        decreases hi - b,
    {
        let digit: u128 = (s[b] - 48) as u128;
        if !too_big {
            value = value * 10 + digit;
            if value > limit as u128 {
                too_big = true;
            }
        }
        b = b + 1;
    }
    if b == a || (b < hi && blank_at(s, b, hi) == 0) || too_big {
        Field::Malformed
    } else {
        Field::Number { value: value as u64, next: b }
    }
}

/// Whether nothing but blanks stands from `i` to the end of the line at
/// `hi`.
pub fn rest_is_blank(s: &[u8], i: usize, hi: usize) -> (yes: bool)
    requires
        i <= hi <= s@.len(),
    ensures
        yes == (skip_blanks(s@, i as int, hi as int) >= hi),
{
    skip_to_field(s, i, hi) >= hi
}

/// Appends the decimal digits of `v` to `out`.
pub fn push_decimal(out: &mut Vec<u8>, v: u64)
    ensures
        final(out)@ == old(out)@ + decimal(v as nat),
{
    let mut digits: Vec<u8> = Vec::new();
    let mut rest: u64 = v;
    // digits, lowest first
    while rest >= 10
        invariant
            decimal(v as nat) == decimal(rest as nat) + digits@.reverse(),
        decreases rest,
    {
        let d: u8 = (rest % 10) as u8;
        let ghost before = digits@;
        digits.push(48 + d);
        proof {
            assert(digits@.reverse() =~= seq![(48 + d) as u8] + before.reverse());
            assert(decimal(rest as nat) == decimal((rest / 10) as nat).push((48 + d) as u8));
            assert(decimal((rest / 10) as nat).push((48 + d) as u8) + before.reverse()
                =~= decimal((rest / 10) as nat) + digits@.reverse());
        }
        rest = rest / 10;
    }
    let ghost low = digits@;
    digits.push(48 + rest as u8);
    proof {
        assert(digits@.reverse() =~= seq![(48 + rest) as u8] + low.reverse());
        assert(decimal(v as nat) =~= digits@.reverse());
    }
    let ghost start = out@;
    let n: usize = digits.len();
    let mut k: usize = 0;
    while k < n
        invariant
            k <= n,
            n == digits@.len(),
            out@ == start + digits@.reverse().take(k as int),
        decreases n - k,
    {
        out.push(digits[n - 1 - k]);
        proof {
            assert(digits@.reverse().take(k + 1) =~= digits@.reverse().take(k as int).push(
                digits@[n - 1 - k],
            ));
            assert(out@ =~= start + digits@.reverse().take(k + 1));
        }
        k = k + 1;
    }
    proof {
        assert(digits@.reverse().take(n as int) =~= digits@.reverse());
    }
}

/// The decimal form of a number is made of digits, at least one, and spells
/// that number.
pub proof fn lemma_decimal(v: nat)
    ensures
        decimal(v).len() >= 1,
        forall|i: int| 0 <= i < decimal(v).len() ==> is_digit(#[trigger] decimal(v)[i]),
        number_at(decimal(v), 0, decimal(v).len() as int) == v,
    decreases v,
{
    if v >= 10 {
        lemma_decimal(v / 10);
        let head = decimal(v / 10);
        let all = decimal(v);
        assert(head.subrange(0, head.len() as int) =~= all.subrange(0, head.len() as int));
        lemma_number_at_same(head, 0, all, 0, head.len() as int);
    } else {
        assert(number_at(decimal(v), 0, 0) == 0);
    }
}

/// The number spelled depends on the digits alone, not on where they stand.
pub proof fn lemma_number_at_same(a: Seq<u8>, i: int, b: Seq<u8>, j: int, len: int)
    requires
        0 <= len,
        0 <= i && i + len <= a.len(),
        0 <= j && j + len <= b.len(),
        a.subrange(i, i + len) == b.subrange(j, j + len),
    ensures
        number_at(a, i, i + len) == number_at(b, j, j + len),
    decreases len,
{
    if len > 0 {
        let x = a.subrange(i, i + len);
        let y = b.subrange(j, j + len);
        assert(a.subrange(i, i + len - 1) =~= x.take(len - 1));
        assert(b.subrange(j, j + len - 1) =~= y.take(len - 1));
        lemma_number_at_same(a, i, b, j, len - 1);
        assert(a[i + len - 1] == x[len - 1]);
        assert(b[j + len - 1] == y[len - 1]);
    }
}

/// Digits that stand at `at` and are followed by something else are read as
/// the number they spell.
pub proof fn lemma_digits_found(s: Seq<u8>, at: int, hi: int, v: nat)
    requires
        0 <= at,
        at + decimal(v).len() <= hi <= s.len(),
        s.subrange(at, at + decimal(v).len()) == decimal(v),
        at + decimal(v).len() < hi ==> !is_digit(s[at + decimal(v).len()]),
    ensures
        digits_end(s, at, hi) == at + decimal(v).len(),
        number_at(s, at, at + decimal(v).len()) == v,
{
    let d = decimal(v);
    lemma_decimal(v);
    assert(d.subrange(0, d.len() as int) =~= d);
    lemma_number_at_same(d, 0, s, at, d.len() as int);
    assert forall|k: int| at <= k < at + d.len() implies is_digit(#[trigger] s[k]) by {
        assert(s.subrange(at, at + d.len())[k - at] == d[k - at]);
    }
    lemma_digits_run(s, at, at + d.len(), hi);
}

/// A run of digits is read to its end.
proof fn lemma_digits_run(s: Seq<u8>, i: int, end: int, hi: int)
    requires
        0 <= i <= end <= hi <= s.len(),
        forall|k: int| i <= k < end ==> is_digit(s[k]),
        end < hi ==> !is_digit(s[end]),
    ensures
        digits_end(s, i, hi) == end,
    decreases end - i,
{
    if i < end {
        lemma_digits_run(s, i + 1, end, hi);
    }
}

/// A line without a line feed ends where the next line feed stands.
pub proof fn lemma_line_found(s: Seq<u8>, i: int, end: int)
    requires
        0 <= i <= end <= s.len(),
        forall|k: int| i <= k < end ==> s[k] != NEWLINE,
        end < s.len() ==> s[end] == NEWLINE,
    ensures
        line_end(s, i) == end,
    decreases end - i,
{
    if i < end {
        lemma_line_found(s, i + 1, end);
    }
}

/// A text holds no more line feeds than bytes.
pub proof fn lemma_line_feeds_bound(s: Seq<u8>)
    ensures
        line_feeds(s) <= s.len(),
    decreases s.len(),
{
    if s.len() > 0 {
        lemma_line_feeds_bound(s.drop_last());
    }
}

/// The line feeds of two texts, one behind the other, are those of both.
pub proof fn lemma_line_feeds_sum(a: Seq<u8>, b: Seq<u8>)
    ensures
        line_feeds(a + b) == line_feeds(a) + line_feeds(b),
    decreases b.len(),
{
    if b.len() == 0 {
        assert(a + b =~= a);
    } else {
        lemma_line_feeds_sum(a, b.drop_last());
        assert((a + b).drop_last() =~= a + b.drop_last());
    }
}

/// A line feed alone is one line feed.
pub proof fn lemma_one_line_feed()
    ensures
        line_feeds(seq![NEWLINE]) == 1,
{
    let nl = seq![NEWLINE];
    assert(nl.drop_last() =~= Seq::<u8>::empty());
    assert(line_feeds(Seq::<u8>::empty()) == 0);
    assert(nl.last() == NEWLINE);
}

/// A text without a line feed holds none.
pub proof fn lemma_no_line_feeds(s: Seq<u8>)
    requires
        forall|i: int| 0 <= i < s.len() ==> s[i] != NEWLINE,
    ensures
        line_feeds(s) == 0,
    decreases s.len(),
{
    if s.len() > 0 {
        lemma_no_line_feeds(s.drop_last());
    }
}

/// A run of bytes in which no blank starts is one field, or the rest of
/// one.
pub proof fn lemma_fields_run(s: Seq<u8>, i: int, end: int, hi: int, inside: bool)
    requires
        0 <= i < end <= hi <= s.len(),
        forall|k: int| i <= k < end ==> is_digit(s[k]),
    ensures
        fields_in(s, i, hi, inside) == fields_in(s, end, hi, true) + (if inside {
            0nat
        } else {
            1nat
        }),
    decreases end - i,
{
    assert(is_digit(s[i]));
    assert(blank_width(s, i, hi) == 0);
    if i + 1 < end {
        lemma_fields_run(s, i + 1, end, hi, true);
    }
}

} // verus!

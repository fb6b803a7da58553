//! Text primitives: order, decimal and hexadecimal numerals, trimming, searching and padding.
//!
//! Text is modelled as a sequence of characters.

use vstd::prelude::*;
use vstd::utf8::*;

verus! {

/// `String::push` appends one character.
pub assume_specification[ std::string::String::push ](s: &mut std::string::String, c: char)
    ensures
        final(s)@ == old(s)@.push(c),
;

/// What is said of bytes that are not valid UTF-8.
pub uninterp spec fn utf8_fault(bytes: Seq<u8>) -> Seq<char>;

/// `String::from_utf8` accepts exactly the valid UTF-8 sequences and keeps their bytes; of any
/// other it says where it goes wrong.
#[verifier::external_body]
pub(crate) fn utf8_text(bytes: &[u8]) -> (r: Result<String, String>)
    ensures
        r is Ok <==> valid_utf8(bytes@),
        match r {
            Ok(s) => s@ == decode_utf8(bytes@),
            Err(e) => e@ == utf8_fault(bytes@),
        },
{
    String::from_utf8(bytes.to_vec()).map_err(|e| e.to_string())
}

/// What `String::from_utf8_lossy` makes of a byte sequence.
pub uninterp spec fn lossy_utf8(bytes: Seq<u8>) -> Seq<char>;

/// `String::from_utf8_lossy` keeps valid UTF-8 as it is and replaces what is not valid.
#[verifier::external_body]
pub(crate) fn lossy_text(bytes: &[u8]) -> (r: String)
    ensures
        r@ == lossy_utf8(bytes@),
        valid_utf8(bytes@) ==> r@ == decode_utf8(bytes@),
{
    String::from_utf8_lossy(bytes).into_owned()
}

/// The outcome of comparing two texts.
#[derive(Clone, Copy, Debug, PartialEq, Eq, Structural)]
pub enum Order {
    Less,
    Equal,
    Greater,
}

/// Lexicographic order by code point.
pub open spec fn text_lt(a: Seq<char>, b: Seq<char>) -> bool
    decreases a.len(),
{
    if b.len() == 0 {
        false
    } else if a.len() == 0 {
        true
    } else if a[0] != b[0] {
        (a[0] as int) < (b[0] as int)
    } else {
        text_lt(a.drop_first(), b.drop_first())
    }
}

pub proof fn lemma_text_lt_irreflexive(a: Seq<char>)
    ensures
        !text_lt(a, a),
    decreases a.len(),
{
    if a.len() > 0 {
        lemma_text_lt_irreflexive(a.drop_first());
    }
}

pub proof fn lemma_text_lt_transitive(a: Seq<char>, b: Seq<char>, c: Seq<char>)
    requires
        text_lt(a, b),
        text_lt(b, c),
    ensures
        text_lt(a, c),
    decreases a.len(),
{
    if a.len() > 0 && b.len() > 0 && c.len() > 0 && a[0] == b[0] && b[0] == c[0] {
        lemma_text_lt_transitive(a.drop_first(), b.drop_first(), c.drop_first());
    }
}

pub proof fn lemma_text_lt_total(a: Seq<char>, b: Seq<char>)
    ensures
        text_lt(a, b) || a == b || text_lt(b, a),
    decreases a.len(),
{
    if a.len() > 0 && b.len() > 0 {
        if a[0] == b[0] {
            lemma_text_lt_total(a.drop_first(), b.drop_first());
            if a.drop_first() == b.drop_first() {
                assert(a =~= seq![a[0]] + a.drop_first());
                assert(b =~= seq![b[0]] + b.drop_first());
            }
        }
    } else if a.len() == 0 && b.len() == 0 {
        assert(a =~= b);
    }
}

/// The characters of a text.
pub fn chars_of(s: &str) -> (r: Vec<char>)
    ensures
        r@ == s@,
{
    let mut out: Vec<char> = Vec::new();
    for c in it: s.chars()
        invariant
            out@ == s@.take(it.index()),
            it.seq() == s@,
    {
        out.push(c);
        assert(s@.take(it.index() + 1) =~= s@.take(it.index()).push(c));
    }
    assert(s@.take(s@.len() as int) =~= s@);
    out
}

/// The text made of the characters `from..to`.
pub fn text_of(chars: &Vec<char>, from: usize, to: usize) -> (r: String)
    requires
        from <= to <= chars@.len(),
    ensures
        r@ == chars@.subrange(from as int, to as int),
{
    let mut out = String::new();
    let mut i: usize = from;
    while i < to
        invariant
            from <= i <= to <= chars@.len(),
            out@ == chars@.subrange(from as int, i as int),
        decreases to - i,
    {
        out.push(chars[i]);
        i += 1;
        assert(chars@.subrange(from as int, i as int) =~= chars@.subrange(
            from as int,
            i - 1,
        ).push(chars@[i - 1]));
    }
    out
}

/// Compares two texts by code point.
pub fn order_text(a: &str, b: &str) -> (r: Order)
    ensures
        r == Order::Less <==> text_lt(a@, b@),
        r == Order::Equal <==> a@ == b@,
        r == Order::Greater <==> text_lt(b@, a@),
{
    let x = chars_of(a);
    let y = chars_of(b);
    let mut i: usize = 0;
    proof {
        assert(a@.skip(0) =~= a@);
        assert(b@.skip(0) =~= b@);
        lemma_text_lt_irreflexive(a@);
        lemma_text_lt_irreflexive(b@);
    }
    while i < x.len() && i < y.len()
        invariant
            x@ == a@,
            y@ == b@,
            i <= x@.len(),
            i <= y@.len(),
            a@.take(i as int) == b@.take(i as int),
            text_lt(a@, b@) == text_lt(a@.skip(i as int), b@.skip(i as int)),
            text_lt(b@, a@) == text_lt(b@.skip(i as int), a@.skip(i as int)),
        decreases x.len() - i,
    {
        let ghost p = a@.skip(i as int);
        let ghost q = b@.skip(i as int);
        assert(p[0] == a@[i as int] && q[0] == b@[i as int]);
        if x[i] < y[i] {
            assert(text_lt(p, q) && !text_lt(q, p));
            assert(a@ != b@);
            return Order::Less;
        }
        if x[i] > y[i] {
            assert(text_lt(q, p) && !text_lt(p, q));
            assert(a@ != b@);
            return Order::Greater;
        }
        assert(p.drop_first() =~= a@.skip(i + 1));
        assert(q.drop_first() =~= b@.skip(i + 1));
        assert(a@.take(i + 1) =~= a@.take(i as int).push(a@[i as int]));
        assert(b@.take(i + 1) =~= b@.take(i as int).push(b@[i as int]));
        i += 1;
    }
    if i < y.len() {
        assert(a@.skip(i as int).len() == 0);
        Order::Less
    } else if i < x.len() {
        assert(b@.skip(i as int).len() == 0);
        Order::Greater
    } else {
        assert(a@ =~= a@.take(i as int));
        assert(b@ =~= b@.take(i as int));
        Order::Equal
    }
}

/// Whether two texts are equal.
pub fn same_text(a: &str, b: &str) -> (r: bool)
    ensures
        r == (a@ == b@),
{
    match order_text(a, b) {
        Order::Equal => true,
        _ => false,
    }
}


/// The decimal digit `d`, for `0 <= d <= 9`.
pub open spec fn digit_char(d: int) -> char {
    if d == 0 {
        '0'
    } else if d == 1 {
        '1'
    } else if d == 2 {
        '2'
    } else if d == 3 {
        '3'
    } else if d == 4 {
        '4'
    } else if d == 5 {
        '5'
    } else if d == 6 {
        '6'
    } else if d == 7 {
        '7'
    } else if d == 8 {
        '8'
    } else {
        '9'
    }
}

fn digit_of(d: u8) -> (r: char)
    requires
        d <= 9,
    ensures
        r == digit_char(d as int),
{
    match d {
        0 => '0',
        1 => '1',
        2 => '2',
        3 => '3',
        4 => '4',
        5 => '5',
        6 => '6',
        7 => '7',
        8 => '8',
        _ => '9',
    }
}

/// The decimal numeral of a natural number, without leading zeros.
pub open spec fn numeral(n: nat) -> Seq<char>
    decreases n,
{
    if n < 10 {
        seq![digit_char(n as int)]
    } else {
        numeral(n / 10).push(digit_char((n % 10) as int))
    }
}

/// The decimal numeral of an integer, with a leading minus sign when it is negative.
pub open spec fn signed_numeral(i: int) -> Seq<char> {
    if i < 0 {
        seq!['-'] + numeral((-i) as nat)
    } else {
        numeral(i as nat)
    }
}

fn push_numeral(out: &mut String, n: u128)
    ensures
        final(out)@ == old(out)@ + numeral(n as nat),
    decreases n,
{
    if n >= 10 {
        push_numeral(out, n / 10);
    }
    out.push(digit_of((n % 10) as u8));
    assert(out@ =~= old(out)@ + numeral(n as nat));
}

/// The numeral of an unsigned number.
pub fn unsigned_text(n: u128) -> (r: String)
    ensures
        r@ == numeral(n as nat),
{
    let mut out = String::new();
    push_numeral(&mut out, n);
    assert(out@ =~= numeral(n as nat));
    out
}

/// The numeral of a length.
pub fn size_text(n: usize) -> (r: String)
    ensures
        r@ == numeral(n as nat),
{
    unsigned_text(n as u128)
}

/// The numeral of a signed number.
pub fn signed_text(i: i64) -> (r: String)
    ensures
        r@ == signed_numeral(i as int),
{
    let mut out = String::new();
    if i < 0 {
        out.push('-');
        let n: u128 = (-(i as i128)) as u128;
        push_numeral(&mut out, n);
        assert(out@ =~= signed_numeral(i as int));
    } else {
        push_numeral(&mut out, i as u128);
        assert(out@ =~= signed_numeral(i as int));
    }
    out
}

/// The lower case hexadecimal digit `d`, for `0 <= d <= 15`.
pub open spec fn hex_char(d: int) -> char {
    if d < 10 {
        digit_char(d)
    } else if d == 10 {
        'a'
    } else if d == 11 {
        'b'
    } else if d == 12 {
        'c'
    } else if d == 13 {
        'd'
    } else if d == 14 {
        'e'
    } else {
        'f'
    }
}

fn hex_of(d: u8) -> (r: char)
    requires
        d <= 15,
    ensures
        r == hex_char(d as int),
{
    match d {
        10 => 'a',
        11 => 'b',
        12 => 'c',
        13 => 'd',
        14 => 'e',
        15 => 'f',
        _ => digit_of(d),
    }
}

/// Two lower case hexadecimal digits per byte.
pub open spec fn hex(bytes: Seq<u8>) -> Seq<char> {
    Seq::new(
        2 * bytes.len(),
        |i: int|
            if i % 2 == 0 {
                hex_char(bytes[i / 2] as int / 16)
            } else {
                hex_char(bytes[i / 2] as int % 16)
            },
    )
}

/// The hexadecimal text of a byte sequence.
pub fn hex_text(bytes: &[u8]) -> (r: String)
    ensures
        r@ == hex(bytes@),
{
    let mut out = String::new();
    let mut i: usize = 0;
    while i < bytes.len()
        invariant
            i <= bytes@.len(),
            out@ == hex(bytes@.take(i as int)),
        decreases bytes.len() - i,
    {
        out.push(hex_of(bytes[i] / 16));
        out.push(hex_of(bytes[i] % 16));
        i += 1;
        assert(out@ =~= hex(bytes@.take(i as int)));
    }
    assert(bytes@.take(i as int) =~= bytes@);
    out
}

/// The value of a decimal digit.
pub open spec fn digit_value(c: char) -> Option<int> {
    if '0' <= c <= '9' {
        Some(c as int - '0' as int)
    } else {
        None
    }
}

/// The number that a sequence of decimal digits stands for; none when the sequence is
/// empty or holds anything else.
pub open spec fn digits_value(s: Seq<char>) -> Option<nat>
    decreases s.len(),
{
    if s.len() == 0 {
        None
    } else {
        match digit_value(s.last()) {
            None => None,
            Some(d) => if s.len() == 1 {
                Some(d as nat)
            } else {
                match digits_value(s.drop_last()) {
                    None => None,
                    Some(n) => Some((10 * n + d) as nat),
                }
            },
        }
    }
}

/// The digits of a numeral that may carry a plus sign.
pub open spec fn unsigned_digits(s: Seq<char>) -> Seq<char> {
    if s.len() > 0 && s[0] == '+' {
        s.drop_first()
    } else {
        s
    }
}

/// The natural number below `limit` that a decimal numeral, with an optional plus sign,
/// stands for.
pub open spec fn unsigned_value(s: Seq<char>, limit: nat) -> Option<nat> {
    match digits_value(unsigned_digits(s)) {
        Some(n) => if n < limit {
            Some(n)
        } else {
            None
        },
        None => None,
    }
}

/// The integer that a decimal numeral, with an optional sign, stands for, if it fits in 32 bits.
pub open spec fn i32_value(s: Seq<char>) -> Option<int> {
    if s.len() > 0 && s[0] == '-' {
        match digits_value(s.drop_first()) {
            Some(n) => if -(n as int) >= i32::MIN {
                Some(-(n as int))
            } else {
                None
            },
            None => None,
        }
    } else {
        match digits_value(unsigned_digits(s)) {
            Some(n) => if n <= i32::MAX {
                Some(n as int)
            } else {
                None
            },
            None => None,
        }
    }
}

proof fn lemma_digits_monotone(s: Seq<char>, i: int)
    requires
        0 < i <= s.len(),
        digits_value(s) is Some,
    ensures
        digits_value(s.take(i)) is Some,
        digits_value(s.take(i))->0 <= digits_value(s)->0,
    decreases s.len(),
{
    if i < s.len() {
        assert(s.drop_last().take(i) =~= s.take(i));
        lemma_digits_monotone(s.drop_last(), i);
    } else {
        assert(s.take(i) =~= s);
    }
}

/// Reads the digits `from..`, none when they are not a number below `2^64`.
fn read_digits(chars: &Vec<char>, from: usize) -> (r: Option<u64>)
    requires
        from <= chars@.len(),
    ensures
        match digits_value(chars@.skip(from as int)) {
            Some(n) => if n <= u64::MAX {
                r == Some(n as u64)
            } else {
                r is None
            },
            None => r is None,
        },
{
    let ghost s = chars@.skip(from as int);
    if from == chars.len() {
        return None;
    }
    let mut n: u64 = 0;
    let mut i: usize = from;
    while i < chars.len()
        invariant
            from <= i <= chars@.len(),
            from < chars@.len(),
            s == chars@.skip(from as int),
            i > from ==> digits_value(s.take(i - from)) == Some(n as nat),
            i == from ==> n == 0,
        decreases chars.len() - i,
    {
        let c = chars[i];
        assert(s.take(i - from + 1).drop_last() =~= s.take(i - from));
        assert(s.take(i - from + 1).last() == c);
        proof {
            if digits_value(s) is Some {
                lemma_digits_monotone(s, i - from + 1);
            }
        }
        if !('0' <= c && c <= '9') {
            return None;
        }
        let d: u64 = (c as u32 - '0' as u32) as u64;
        if n > (u64::MAX - d) / 10 {
            return None;
        }
        n = 10 * n + d;
        i += 1;
    }
    assert(s.take(i - from) =~= s);
    Some(n)
}

/// Reads an unsigned 64-bit number as `str::parse` does.
pub fn parse_u64(s: &str) -> (r: Option<u64>)
    ensures
        match unsigned_value(s@, 0x1_0000_0000_0000_0000) {
            Some(n) => r == Some(n as u64),
            None => r is None,
        },
{
    let chars = chars_of(s);
    if chars.len() > 0 && chars[0] == '+' {
        assert(chars@.skip(1) =~= s@.drop_first());
        read_digits(&chars, 1)
    } else {
        assert(chars@.skip(0) =~= s@);
        read_digits(&chars, 0)
    }
}

/// Reads a signed 32-bit number as `str::parse` does.
pub fn parse_i32(s: &str) -> (r: Option<i32>)
    ensures
        match i32_value(s@) {
            Some(n) => r == Some(n as i32),
            None => r is None,
        },
{
    let chars = chars_of(s);
    if chars.len() > 0 && chars[0] == '-' {
        assert(chars@.skip(1) =~= s@.drop_first());
        match read_digits(&chars, 1) {
            Some(n) => if n <= 0x8000_0000 {
                Some((-(n as i64)) as i32)
            } else {
                None
            },
            None => None,
        }
    } else {
        let from: usize = if chars.len() > 0 && chars[0] == '+' {
            1
        } else {
            0
        };
        assert(chars@.skip(from as int) =~= unsigned_digits(s@));
        match read_digits(&chars, from) {
            Some(n) => if n <= 0x7fff_ffff {
                Some(n as i32)
            } else {
                None
            },
            None => None,
        }
    }
}

/// The characters with the Unicode property White_Space.
pub open spec fn is_space(c: char) -> bool {
    let u = c as u32;
    ||| 0x09 <= u <= 0x0d
    ||| u == 0x20
    ||| u == 0x85
    ||| u == 0xa0
    ||| u == 0x1680
    ||| 0x2000 <= u <= 0x200a
    ||| u == 0x2028
    ||| u == 0x2029
    ||| u == 0x202f
    ||| u == 0x205f
    ||| u == 0x3000
}

/// Whether a character is white space.
pub fn space(c: char) -> (r: bool)
    ensures
        r == is_space(c),
{
    let u: u32 = c as u32;
    (0x09 <= u && u <= 0x0d) || u == 0x20 || u == 0x85 || u == 0xa0 || u == 0x1680 || (0x2000 <= u
        && u <= 0x200a) || u == 0x2028 || u == 0x2029 || u == 0x202f || u == 0x205f || u == 0x3000
}

/// A text without its leading white space.
pub open spec fn trimmed_start(s: Seq<char>) -> Seq<char>
    decreases s.len(),
{
    if s.len() > 0 && is_space(s[0]) {
        trimmed_start(s.drop_first())
    } else {
        s
    }
}

/// A text without its trailing white space.
pub open spec fn trimmed_end(s: Seq<char>) -> Seq<char>
    decreases s.len(),
{
    if s.len() > 0 && is_space(s.last()) {
        trimmed_end(s.drop_last())
    } else {
        s
    }
}

/// A text without its leading and trailing white space.
pub open spec fn trimmed(s: Seq<char>) -> Seq<char> {
    trimmed_end(trimmed_start(s))
}

/// Drops leading and trailing white space.
pub fn trim(s: &str) -> (r: String)
    ensures
        r@ == trimmed(s@),
{
    let chars = chars_of(s);
    let mut from: usize = 0;
    assert(chars@.skip(0) =~= s@);
    while from < chars.len() && space(chars[from])
        invariant
            chars@ == s@,
            from <= chars@.len(),
            trimmed_start(s@) == trimmed_start(chars@.skip(from as int)),
        decreases chars.len() - from,
    {
        assert(chars@.skip(from as int).drop_first() =~= chars@.skip(from + 1));
        from += 1;
    }
    let ghost mid = chars@.skip(from as int);
    assert(trimmed_start(s@) == mid);
    let mut to: usize = chars.len();
    assert(chars@.subrange(from as int, to as int) =~= mid);
    while from < to && space(chars[to - 1])
        invariant
            chars@ == s@,
            from <= to <= chars@.len(),
            trimmed_end(mid) == trimmed_end(chars@.subrange(from as int, to as int)),
        decreases to,
    {
        assert(chars@.subrange(from as int, to as int).drop_last() =~= chars@.subrange(
            from as int,
            to - 1,
        ));
        to -= 1;
    }
    text_of(&chars, from, to)
}

/// Whether `part` occurs in `s` at position `i`.
pub open spec fn occurs_at<T>(s: Seq<T>, part: Seq<T>, i: int) -> bool {
    0 <= i && i + part.len() <= s.len() && s.subrange(i, i + part.len()) == part
}

/// Whether `part` occurs in `s`.
pub open spec fn occurs(s: Seq<char>, part: Seq<char>) -> bool {
    exists|i: int| occurs_at(s, part, i)
}

/// Whether `s` begins with `part`.
pub open spec fn begins_with(s: Seq<char>, part: Seq<char>) -> bool {
    occurs_at(s, part, 0)
}

fn matches_at(s: &Vec<char>, part: &Vec<char>, at: usize) -> (r: bool)
    requires
        at + part@.len() <= s@.len(),
    ensures
        r == occurs_at(s@, part@, at as int),
{
    let ghost window = s@.subrange(at as int, at + part@.len());
    let total: usize = s.len();
    let mut i: usize = 0;
    while i < part.len()
        invariant
            total == s@.len(),
            i <= part@.len(),
            at + part@.len() <= s@.len(),
            window == s@.subrange(at as int, at + part@.len()),
            forall|k: int| 0 <= k < i ==> s@[at + k] == part@[k],
        decreases part.len() - i,
    {
        if s[at + i] != part[i] {
            assert(window[i as int] != part@[i as int]);
            return false;
        }
        i += 1;
    }
    assert(window =~= part@);
    true
}

/// Whether `part` occurs in `s`.
pub fn contains_text(s: &str, part: &str) -> (r: bool)
    ensures
        r == occurs(s@, part@),
{
    let x = chars_of(s);
    let y = chars_of(part);
    let mut i: usize = 0;
    while y.len() <= x.len() - i
        invariant
            x@ == s@,
            y@ == part@,
            i <= x@.len(),
            forall|k: int| 0 <= k < i ==> !occurs_at(s@, part@, k),
        decreases x.len() + 1 - i,
    {
        if matches_at(&x, &y, i) {
            return true;
        }
        if i == x.len() {
            return false;
        }
        i += 1;
    }
    false
}

/// Whether `s` begins with `part`.
pub fn starts_with(s: &str, part: &str) -> (r: bool)
    ensures
        r == begins_with(s@, part@),
{
    let x = chars_of(s);
    let y = chars_of(part);
    y.len() <= x.len() && matches_at(&x, &y, 0)
}

/// The text with `other` in the place of the first `part` in it.
pub open spec fn with_first(s: Seq<char>, part: Seq<char>, other: Seq<char>) -> Seq<char>
    decreases s.len(),
{
    if begins_with(s, part) {
        other + s.skip(part.len() as int)
    } else if s.len() == 0 {
        s
    } else {
        seq![s[0]] + with_first(s.skip(1), part, other)
    }
}

/// Puts `other` in the place of the first `part` in a text.
pub fn replace_first(s: &str, part: &str, other: &str) -> (r: String)
    ensures
        r@ == with_first(s@, part@, other@),
{
    let x = chars_of(s);
    let y = chars_of(part);
    let mut i: usize = 0;
    assert(x@.skip(0) =~= x@);
    assert(x@.take(0) + with_first(x@.skip(0), y@, other@) =~= with_first(x@, y@, other@));
    while i < x.len()
        invariant_except_break
            i <= x@.len(),
            x@ == s@,
            y@ == part@,
            with_first(x@, y@, other@) == x@.take(i as int) + with_first(
                x@.skip(i as int),
                y@,
                other@,
            ),
        ensures
            i <= x@.len(),
            with_first(x@, y@, other@) == x@.take(i as int) + with_first(
                x@.skip(i as int),
                y@,
                other@,
            ),
            i < x@.len() ==> begins_with(x@.skip(i as int), y@),
        decreases x.len() - i,
    {
        let ghost rest = x@.skip(i as int);
        assert(y@.len() <= rest.len() ==> rest.subrange(0, y@.len() as int) =~= x@.subrange(
            i as int,
            i + y@.len(),
        ));
        if y.len() <= x.len() - i && matches_at(&x, &y, i) {
            break;
        }
        proof {
            assert(rest.skip(1) =~= x@.skip(i + 1));
            let tail = with_first(x@.skip(i + 1), y@, other@);
            assert(x@.take(i as int) + (seq![rest[0]] + tail) =~= x@.take(i + 1) + tail);
        }
        i += 1;
    }
    let ghost rest = x@.skip(i as int);
    let mut r = text_of(&x, 0, i);
    assert(r@ =~= x@.take(i as int));
    if y.len() <= x.len() - i && matches_at(&x, &y, i) {
        assert(rest.subrange(0, y@.len() as int) =~= x@.subrange(i as int, i + y@.len()));
        r.append(other);
        r.append(text_of(&x, i + y.len(), x.len()).as_str());
        assert(x@.subrange(i + y@.len(), x@.len() as int) =~= rest.skip(y@.len() as int));
        assert(r@ =~= x@.take(i as int) + (other@ + rest.skip(y@.len() as int)));
    } else {
        assert(!begins_with(rest, y@)) by {
            if begins_with(rest, y@) {
                assert(rest.subrange(0, y@.len() as int) =~= x@.subrange(
                    i as int,
                    i + y@.len(),
                ));
            }
        }
        assert(with_first(rest, y@, other@) == rest);
        assert(rest.len() == 0);
        assert(r@ =~= x@.take(i as int) + rest);
    }
    r
}

/// What follows `prefix` in `s`, or all of `s` when it does not begin with `prefix`.
pub open spec fn stripped(s: Seq<char>, prefix: Seq<char>) -> Seq<char> {
    if begins_with(s, prefix) {
        s.skip(prefix.len() as int)
    } else {
        s
    }
}

/// Drops `prefix` from the front of `s` where it stands there.
pub fn strip(s: &str, prefix: &str) -> (r: String)
    ensures
        r@ == stripped(s@, prefix@),
{
    if starts_with(s, prefix) {
        let x = chars_of(s);
        let from: usize = prefix.unicode_len();
        let r = text_of(&x, from, x.len());
        assert(r@ =~= s@.skip(prefix@.len() as int));
        r
    } else {
        s.to_owned()
    }
}

/// A text filled up with blanks to at least `width` characters.
pub open spec fn padded(s: Seq<char>, width: nat) -> Seq<char>
    decreases width - s.len(),
{
    if s.len() >= width {
        s
    } else {
        padded(s.push(' '), width)
    }
}

/// Fills a text up with blanks to at least `width` characters.
pub fn pad(s: &str, width: usize) -> (r: String)
    ensures
        r@ == padded(s@, width as nat),
{
    let mut out = s.to_owned();
    let mut n: usize = s.unicode_len();
    while n < width
        invariant
            n == out@.len(),
            padded(s@, width as nat) == padded(out@, width as nat),
        decreases width - n,
    {
        out.push(' ');
        n += 1;
    }
    out
}

/// Texts with a separator between neighbours.
pub open spec fn joined(parts: Seq<Seq<char>>, separator: Seq<char>) -> Seq<char>
    decreases parts.len(),
{
    if parts.len() == 0 {
        Seq::empty()
    } else if parts.len() == 1 {
        parts[0]
    } else {
        joined(parts.drop_last(), separator) + separator + parts.last()
    }
}

/// The texts of a list of strings.
pub open spec fn texts(v: Seq<String>) -> Seq<Seq<char>> {
    Seq::new(v.len(), |i: int| v[i]@)
}

/// Joins texts with a separator between neighbours.
pub fn join(parts: &Vec<String>, separator: &str) -> (r: String)
    ensures
        r@ == joined(texts(parts@), separator@),
{
    let mut out = String::new();
    let mut i: usize = 0;
    while i < parts.len()
        invariant
            i <= parts@.len(),
            out@ == joined(texts(parts@).take(i as int), separator@),
        decreases parts.len() - i,
    {
        if i > 0 {
            out.append(separator);
        }
        out.append(parts[i].as_str());
        assert(texts(parts@).take(i + 1).drop_last() =~= texts(parts@).take(i as int));
        i += 1;
        assert(out@ =~= joined(texts(parts@).take(i as int), separator@));
    }
    assert(texts(parts@).take(i as int) =~= texts(parts@));
    out
}

/// A text comes before another if they first differ in a character that does.
pub proof fn lemma_text_lt_at(a: Seq<char>, b: Seq<char>, i: int)
    requires
        0 <= i < a.len(),
        i < b.len(),
        forall|j: int| 0 <= j < i ==> a[j] == b[j],
        (a[i] as int) < (b[i] as int),
    ensures
        text_lt(a, b),
    decreases i,
{
    if i > 0 {
        let x = a.drop_first();
        let y = b.drop_first();
        assert(a[0] == b[0]);
        assert forall|j: int| 0 <= j < i - 1 implies x[j] == y[j] by {
            assert(x[j] == a[j + 1] && y[j] == b[j + 1]);
        }
        lemma_text_lt_at(x, y, i - 1);
    }
}

/// What stands before and after the first `c`, if there is one.
pub open spec fn split_once(s: Seq<char>, c: char) -> Option<(Seq<char>, Seq<char>)>
    decreases s.len(),
{
    if s.len() == 0 {
        None
    } else if s[0] == c {
        Some((Seq::empty(), s.drop_first()))
    } else {
        match split_once(s.drop_first(), c) {
            Some(p) => Some((seq![s[0]] + p.0, p.1)),
            None => None,
        }
    }
}

/// The first `c` of a text is where it is split.
pub proof fn lemma_split_once(s: Seq<char>, c: char, i: int)
    requires
        0 <= i < s.len(),
        s[i] == c,
        forall|j: int| 0 <= j < i ==> s[j] != c,
    ensures
        split_once(s, c) == Some((s.take(i), s.skip(i + 1))),
    decreases i,
{
    if i == 0 {
        assert(s.take(0) =~= Seq::<char>::empty());
        assert(s.skip(1) =~= s.drop_first());
    } else {
        let t = s.drop_first();
        assert forall|j: int| 0 <= j < i - 1 implies t[j] != c by {
            assert(t[j] == s[j + 1]);
        }
        lemma_split_once(t, c, i - 1);
        assert(seq![s[0]] + t.take(i - 1) =~= s.take(i));
        assert(t.skip(i) =~= s.skip(i + 1));
    }
}

/// A text without `c` is not split.
pub proof fn lemma_split_once_none(s: Seq<char>, c: char)
    requires
        forall|j: int| 0 <= j < s.len() ==> s[j] != c,
    ensures
        split_once(s, c) is None,
    decreases s.len(),
{
    if s.len() > 0 {
        let t = s.drop_first();
        assert forall|j: int| 0 <= j < t.len() implies t[j] != c by {
            assert(t[j] == s[j + 1]);
        }
        lemma_split_once_none(t, c);
    }
}

/// Splits a text at the first `c`.
pub fn split_at_char(s: &str, c: char) -> (r: Option<(String, String)>)
    ensures
        match r {
            Some(p) => split_once(s@, c) == Some((p.0@, p.1@)),
            None => split_once(s@, c) is None,
        },
{
    let chars = chars_of(s);
    let mut i: usize = 0;
    while i < chars.len()
        invariant
            i <= chars@.len(),
            chars@ == s@,
            forall|j: int| 0 <= j < i ==> s@[j] != c,
        decreases chars.len() - i,
    {
        if chars[i] == c {
            proof {
                lemma_split_once(s@, c, i as int);
            }
            let front = text_of(&chars, 0, i);
            let back = text_of(&chars, i + 1, chars.len());
            assert(s@.subrange(0, i as int) =~= s@.take(i as int));
            assert(s@.subrange(i + 1, s@.len() as int) =~= s@.skip(i + 1));
            return Some((front, back));
        }
        i += 1;
    }
    proof {
        lemma_split_once_none(s@, c);
    }
    None
}

/// One text after another.
pub fn cat(a: &str, b: &str) -> (r: String)
    ensures
        r@ == a@ + b@,
{
    let mut r: String = a.to_owned();
    r.append(b);
    r
}

/// Three texts in a row.
pub fn cat3(a: &str, b: &str, c: &str) -> (r: String)
    ensures
        r@ == a@ + b@ + c@,
{
    let mut r: String = a.to_owned();
    r.append(b);
    r.append(c);
    r
}

/// Five texts in a row.
pub fn cat5(a: &str, b: &str, c: &str, d: &str, e: &str) -> (r: String)
    ensures
        r@ == a@ + b@ + c@ + d@ + e@,
{
    let mut r: String = cat3(a, b, c);
    r.append(d);
    r.append(e);
    r
}

/// Whether a list of texts holds `t`.
pub fn holds_text(v: &Vec<String>, t: &str) -> (r: bool)
    ensures
        r == texts(v@).contains(t@),
{
    let mut i: usize = 0;
    while i < v.len()
        invariant
            i <= v@.len(),
            forall|k: int| 0 <= k < i ==> texts(v@)[k] != t@,
        decreases v.len() - i,
    {
        if same_text(v[i].as_str(), t) {
            assert(texts(v@)[i as int] == t@);
            return true;
        }
        i += 1;
    }
    false
}

/// A numeral reads as the number that it was written for. It holds at least one digit and no leading
/// zero.
pub proof fn lemma_numeral_read(n: nat)
    ensures
        digits_value(numeral(n)) == Some(n),
        numeral(n).len() > 0,
        n > 0 ==> numeral(n)[0] != '0',
        n == 0 ==> numeral(n) == seq!['0'],
        forall|i: int| 0 <= i < numeral(n).len() ==> '0' <= #[trigger] numeral(n)[i] <= '9',
    decreases n,
{
    let s = numeral(n);
    if n < 10 {
        assert(s.last() == digit_char(n as int));
    } else {
        lemma_numeral_read(n / 10);
        assert(s.drop_last() =~= numeral(n / 10));
        assert(s.last() == digit_char((n % 10) as int));
        assert(n == 10 * (n / 10) + n % 10);
        assert(s[0] == numeral(n / 10)[0]);
        assert forall|i: int| 0 <= i < s.len() implies '0' <= #[trigger] s[i] <= '9' by {
            if i < s.len() - 1 {
                assert(s[i] == numeral(n / 10)[i]);
            }
        }
    }
}

/// The integer that a decimal numeral stands for, with a leading minus sign if it is negative.
pub open spec fn signed_value(s: Seq<char>) -> Option<int> {
    if s.len() > 0 && s[0] == '-' {
        match digits_value(s.drop_first()) {
            Some(n) => Some(-(n as int)),
            None => None,
        }
    } else {
        match digits_value(s) {
            Some(n) => Some(n as int),
            None => None,
        }
    }
}

/// The numeral of an integer reads as that integer, so different integers have different numerals.
pub proof fn lemma_signed_numeral_read(i: int)
    ensures
        signed_value(signed_numeral(i)) == Some(i),
        signed_numeral(i).len() > 0,
        i32::MIN <= i <= i32::MAX ==> i32_value(signed_numeral(i)) == Some(i),
{
    if i < 0 {
        lemma_numeral_read((-i) as nat);
        assert(signed_numeral(i).drop_first() =~= numeral((-i) as nat));
    } else {
        lemma_numeral_read(i as nat);
        assert('0' <= numeral(i as nat)[0]);
    }
}

/// A number below the limit is read from its numeral, with a plus sign or without, and no number
/// from the limit on is.
pub proof fn lemma_unsigned_read(n: nat, limit: nat)
    ensures
        unsigned_value(numeral(n), limit) == if n < limit {
            Some(n)
        } else {
            None
        },
        unsigned_value(seq!['+'] + numeral(n), limit) == unsigned_value(numeral(n), limit),
        unsigned_value(Seq::empty(), limit) is None,
        unsigned_value(seq!['-'] + numeral(n), limit) is None,
{
    lemma_numeral_read(n);
    assert('0' <= numeral(n)[0] <= '9');
    assert((seq!['+'] + numeral(n)).drop_first() =~= numeral(n));
    let m = seq!['-'] + numeral(n);
    assert(m[0] == '-');
    if digits_value(m) is Some {
        lemma_digits_monotone(m, 1);
        assert(m.take(1).last() == '-');
    }
}

/// What is read as a number is a run of digits, and each digit counts by its place.
pub proof fn lemma_digits_read(s: Seq<char>)
    ensures
        digits_value(s) is Some <==> s.len() > 0 && forall|i: int|
            0 <= i < s.len() ==> '0' <= #[trigger] s[i] <= '9',
        forall|c: char|
            '0' <= c <= '9' && digits_value(s) is Some ==> #[trigger] digits_value(s.push(c)) == Some(
                (10 * digits_value(s)->0 + (c as int - '0' as int)) as nat,
            ),
    decreases s.len(),
{
    if s.len() > 0 {
        let t = s.drop_last();
        lemma_digits_read(t);
        if s.len() == 1 {
            assert(s[0] == s.last());
        } else {
            if digits_value(t) is Some && '0' <= s.last() <= '9' {
                assert forall|i: int| 0 <= i < s.len() implies '0' <= #[trigger] s[i] <= '9' by {
                    if i < t.len() {
                        assert(t[i] == s[i]);
                    }
                }
            }
            if forall|i: int| 0 <= i < s.len() ==> '0' <= #[trigger] s[i] <= '9' {
                assert forall|i: int| 0 <= i < t.len() implies '0' <= #[trigger] t[i] <= '9' by {
                    assert(t[i] == s[i]);
                }
                assert(s[s.len() - 1] == s.last());
            }
        }
    }
    assert forall|c: char| '0' <= c <= '9' && digits_value(s) is Some implies #[trigger] digits_value(
        s.push(c),
    ) == Some((10 * digits_value(s)->0 + (c as int - '0' as int)) as nat) by {
        assert(s.push(c).drop_last() =~= s);
    }
}

/// The value of a lower case hexadecimal digit.
pub open spec fn hex_value(c: char) -> int {
    if '0' <= c <= '9' {
        c as int - '0' as int
    } else {
        c as int - 'a' as int + 10
    }
}

/// Each byte is read from the two digits that it was written as.
pub proof fn lemma_hex_read(bytes: Seq<u8>)
    ensures
        hex(bytes).len() == 2 * bytes.len(),
        forall|i: int|
            0 <= i < bytes.len() ==> #[trigger] bytes[i] == 16 * hex_value(hex(bytes)[2 * i])
                + hex_value(hex(bytes)[2 * i + 1]),
        forall|j: int|
            0 <= j < hex(bytes).len() ==> '0' <= #[trigger] hex(bytes)[j] <= '9' || 'a' <= hex(
                bytes,
            )[j] <= 'f',
{
    assert forall|i: int| 0 <= i < bytes.len() implies #[trigger] bytes[i] == 16 * hex_value(
        hex(bytes)[2 * i],
    ) + hex_value(hex(bytes)[2 * i + 1]) by {
        let b = bytes[i] as int;
        assert((2 * i) / 2 == i && (2 * i) % 2 == 0 && (2 * i + 1) / 2 == i && (2 * i + 1) % 2 == 1);
        assert(hex(bytes)[2 * i] == hex_char(b / 16));
        assert(hex(bytes)[2 * i + 1] == hex_char(b % 16));
        assert(b == 16 * (b / 16) + b % 16);
    }
    assert forall|j: int| 0 <= j < hex(bytes).len() implies '0' <= #[trigger] hex(bytes)[j] <= '9'
        || 'a' <= hex(bytes)[j] <= 'f' by {
        let b = bytes[j / 2] as int;
        assert(0 <= b / 16 < 16 && 0 <= b % 16 < 16);
    }
}

proof fn lemma_trimmed_start_cut(s: Seq<char>) -> (k: int)
    ensures
        0 <= k <= s.len(),
        trimmed_start(s) == s.skip(k),
        forall|i: int| 0 <= i < k ==> is_space(#[trigger] s[i]),
        k < s.len() ==> !is_space(s[k]),
    decreases s.len(),
{
    if s.len() > 0 && is_space(s[0]) {
        let k = lemma_trimmed_start_cut(s.drop_first());
        assert(s.drop_first().skip(k) =~= s.skip(k + 1));
        assert forall|i: int| 0 <= i < k + 1 implies is_space(#[trigger] s[i]) by {
            if i > 0 {
                assert(s.drop_first()[i - 1] == s[i]);
            }
        }
        k + 1
    } else {
        assert(s.skip(0) =~= s);
        0
    }
}

proof fn lemma_trimmed_end_cut(s: Seq<char>) -> (k: int)
    ensures
        0 <= k <= s.len(),
        trimmed_end(s) == s.take(k),
        forall|i: int| k <= i < s.len() ==> is_space(#[trigger] s[i]),
        k > 0 ==> !is_space(s[k - 1]),
    decreases s.len(),
{
    if s.len() > 0 && is_space(s.last()) {
        let k = lemma_trimmed_end_cut(s.drop_last());
        assert(s.drop_last().take(k) =~= s.take(k));
        assert forall|i: int| k <= i < s.len() implies is_space(#[trigger] s[i]) by {
            if i < s.len() - 1 {
                assert(s.drop_last()[i] == s[i]);
            }
        }
        k
    } else {
        assert(s.take(s.len() as int) =~= s);
        s.len() as int
    }
}

/// Trimming takes the white space off both ends and nothing else: what is left is the part of the
/// text from its first character that is not white space to its last.
pub proof fn lemma_trimmed(s: Seq<char>) -> (cut: (int, int))
    ensures
        0 <= cut.0 <= cut.1 <= s.len(),
        trimmed(s) == s.subrange(cut.0, cut.1),
        forall|i: int| 0 <= i < cut.0 || cut.1 <= i < s.len() ==> is_space(#[trigger] s[i]),
        trimmed(s).len() > 0 ==> !is_space(trimmed(s)[0]) && !is_space(trimmed(s).last()),
        trimmed(s).len() == 0 <==> forall|i: int| 0 <= i < s.len() ==> is_space(#[trigger] s[i]),
{
    let a = lemma_trimmed_start_cut(s);
    let mid = s.skip(a);
    let b = lemma_trimmed_end_cut(mid);
    assert(mid.take(b) =~= s.subrange(a, a + b));
    assert forall|i: int| 0 <= i < a || a + b <= i < s.len() implies is_space(#[trigger] s[i]) by {
        if i >= a + b {
            assert(mid[i - a] == s[i]);
        }
    }
    if b > 0 {
        assert(mid[0] == s[a]);
        if a < s.len() {
            assert(!is_space(s[a]));
        }
        assert(trimmed(s)[0] == s[a]);
        assert(trimmed(s).last() == mid[b - 1]);
    }
    (a, a + b)
}

/// Filling up leaves the text in front and puts nothing but blanks behind it, just as many as are
/// missing.
pub proof fn lemma_padded(s: Seq<char>, width: nat)
    ensures
        padded(s, width).len() == if s.len() < width {
            width
        } else {
            s.len()
        },
        padded(s, width).take(s.len() as int) == s,
        forall|i: int| s.len() <= i < padded(s, width).len() ==> #[trigger] padded(s, width)[i] == ' ',
    decreases width - s.len(),
{
    let p = padded(s, width);
    if s.len() < width {
        lemma_padded(s.push(' '), width);
        assert(p.take(s.len() as int) =~= s) by {
            assert(p.take(s.len() as int + 1) == s.push(' '));
            assert forall|i: int| 0 <= i < s.len() implies p[i] == s[i] by {
                assert(p.take(s.len() as int + 1)[i] == s.push(' ')[i]);
            }
        }
        assert forall|i: int| s.len() <= i < p.len() implies #[trigger] p[i] == ' ' by {
            if i == s.len() {
                assert(p.take(s.len() as int + 1)[i] == s.push(' ')[i]);
            }
        }
    } else {
        assert(p.take(s.len() as int) =~= s);
    }
}

/// Every text occurs in what it was joined into, one text alone is what it was, and the length is
/// that of the texts and of the separators between them.
pub proof fn lemma_joined(parts: Seq<Seq<char>>, separator: Seq<char>, i: int)
    requires
        0 <= i < parts.len(),
    ensures
        occurs(joined(parts, separator), parts[i]),
        parts.len() == 1 ==> joined(parts, separator) == parts[0],
        parts.len() == 2 ==> joined(parts, separator) == parts[0] + separator + parts[1],
        parts.len() > 1 ==> joined(parts, separator).len() == joined(
            parts.drop_last(),
            separator,
        ).len() + separator.len() + parts.last().len(),
        parts.len() > 1 && i < parts.len() - 1 ==> occurs(
            joined(parts, separator),
            joined(parts.drop_last(), separator),
        ),
    decreases parts.len(),
{
    let all = joined(parts, separator);
    if parts.len() == 1 {
        assert(all.subrange(0, all.len() as int) =~= parts[i]);
        assert(occurs_at(all, parts[i], 0));
    } else {
        let front = joined(parts.drop_last(), separator);
        if parts.len() == 2 {
            assert(parts.drop_last()[0] == parts[0]);
        }
        assert(all.subrange(0, front.len() as int) =~= front);
        assert(occurs_at(all, front, 0));
        if i == parts.len() - 1 {
            let at = all.len() - parts[i].len();
            assert(all.subrange(at, at + parts[i].len()) =~= parts[i]);
            assert(occurs_at(all, parts[i], at));
        } else {
            lemma_joined(parts.drop_last(), separator, i);
            assert(parts.drop_last()[i] == parts[i]);
            let at = choose|at: int| occurs_at(front, parts[i], at);
            assert(all.subrange(at, at + parts[i].len()) =~= front.subrange(
                at,
                at + parts[i].len(),
            ));
            assert(occurs_at(all, parts[i], at));
        }
    }
}

/// Of the places where a part occurs, the first is replaced, and what stands before and after it
/// stays. A text in which it does not occur stays as it is.
pub proof fn lemma_first_replaced(s: Seq<char>, part: Seq<char>, other: Seq<char>, i: int)
    requires
        0 <= i <= s.len(),
        forall|j: int| 0 <= j < i ==> !#[trigger] occurs_at(s, part, j),
        occurs_at(s, part, i) || i == s.len(),
    ensures
        with_first(s, part, other) == if occurs_at(s, part, i) {
            s.take(i) + other + s.skip(i + part.len())
        } else {
            s
        },
    decreases s.len(),
{
    if i == 0 {
        if occurs_at(s, part, 0) {
            assert(s.take(0) + other + s.skip(0int + part.len()) =~= other + s.skip(
                part.len() as int,
            ));
        } else {
            assert(with_first(s, part, other) =~= s);
        }
    } else {
        let t = s.skip(1);
        assert(!occurs_at(s, part, 0));
        assert forall|j: int| 0 <= j < i - 1 implies !#[trigger] occurs_at(t, part, j) by {
            if occurs_at(t, part, j) {
                assert(t.subrange(j, j + part.len()) =~= s.subrange(j + 1, j + 1 + part.len()));
                assert(occurs_at(s, part, j + 1));
            }
        }
        if i - 1 + part.len() <= t.len() {
            assert(t.subrange(i - 1, i - 1 + part.len()) =~= s.subrange(i, i + part.len()));
        }
        assert(occurs_at(t, part, i - 1) <==> occurs_at(s, part, i));
        lemma_first_replaced(t, part, other, i - 1);
        if occurs_at(s, part, i) {
            assert(seq![s[0]] + (t.take(i - 1) + other + t.skip(i - 1 + part.len())) =~= s.take(i)
                + other + s.skip(i + part.len()));
        } else {
            assert(seq![s[0]] + t =~= s);
        }
    }
}

/// Only a number below zero has a sign.
pub proof fn lemma_sign_shown(i: int)
    ensures
        i < 0 <==> signed_numeral(i)[0] == '-',
        i >= 0 ==> signed_numeral(i) == numeral(i as nat),
{
    if i >= 0 {
        lemma_numeral_read(i as nat);
    }
}

/// White space are the space, the characters from the tab to the carriage return and no other
/// character of ASCII.
pub proof fn lemma_white_space(c: char)
    requires
        (c as u32) < 128,
    ensures
        is_space(c) <==> c == ' ' || '\t' <= c <= '\r',
{
}

} // verus!

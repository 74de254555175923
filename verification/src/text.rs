//! Characters and strings: decimal and hexadecimal numerals, prefixes, case.
use vstd::prelude::*;
use vstd::string::*;
use vstd::utf8::*;

verus! {

/// `String::push`: appends the given character to the end of the string.
pub assume_specification[ String::push ](s: &mut String, c: char)
    ensures
        final(s)@ == old(s)@.push(c),
;

/// The lower-case form that `str::to_lowercase` gives to the characters `s`.
pub uninterp spec fn lowercase(s: Seq<char>) -> Seq<char>;

/// The upper-case form that `str::to_uppercase` gives to the characters `s`.
pub uninterp spec fn uppercase(s: Seq<char>) -> Seq<char>;

/// Calls `str::to_lowercase`. The result is named: Unicode's case tables decide it,
/// as a function of the characters alone.
#[verifier::external_body]
pub(crate) fn to_lower(s: &str) -> (r: String)
    ensures
        r@ == lowercase(s@),
{
    s.to_lowercase()
}

/// Calls `str::to_uppercase`. The result is named, as that of `to_lower` is.
#[verifier::external_body]
pub(crate) fn to_upper(s: &str) -> (r: String)
    ensures
        r@ == uppercase(s@),
{
    s.to_uppercase()
}

/// The characters of `s`, in order.
pub fn chars_of(s: &str) -> (r: Vec<char>)
    ensures
        r@ == s@,
{
    let mut r: Vec<char> = Vec::new();
    for c in it: s.chars()
        invariant
            r@ == it.seq().take(it.index() as int),
            it.seq() == s@,
    {
        r.push(c);
    }
    assert(r@ =~= s@);
    r
}

/// Whether two strings hold the same characters.
pub fn same(a: &str, b: &str) -> (r: bool)
    ensures
        r == (a@ == b@),
{
    broadcast use vstd::utf8::group_utf8_lib;

    let x = a.as_bytes();
    let y = b.as_bytes();
    if x.len() != y.len() {
        return false;
    }
    for i in 0..x.len()
        invariant
            x@ == encode_utf8(a@),
            y@ == encode_utf8(b@),
            x@.len() == y@.len(),
            forall|j: int| 0 <= j < i ==> x@[j] == #[trigger] y@[j],
    {
        if x[i] != y[i] {
            return false;
        }
    }
    assert(x@ =~= y@);
    assert(decode_utf8(encode_utf8(a@)) == a@);
    assert(decode_utf8(encode_utf8(b@)) == b@);
    true
}

/// The string of the first `n` characters of `s`, or of all of them when there are fewer.
pub fn take_chars(s: &str, n: usize) -> (r: String)
    ensures
        r@ == s@.take(if n <= s@.len() { n as int } else { s@.len() as int }),
{
    let cs = chars_of(s);
    let m: usize = if n <= cs.len() { n } else { cs.len() };
    let mut r = String::new();
    let mut i: usize = 0;
    while i < m
        invariant
            i <= m <= cs.len(),
            r@ == cs@.take(i as int),
        decreases m - i,
    {
        r.push(cs[i]);
        i += 1;
        assert(r@ =~= cs@.take(i as int));
    }
    r
}

// ---- decimal numerals ----

/// The decimal digit of value `d`, for `d` below ten.
pub open spec fn digit(d: int) -> char {
    (48 + d) as char
}

/// The decimal numeral of `n`, without leading zeros.
pub open spec fn decimal(n: nat) -> Seq<char>
    decreases n,
{
    if n < 10 {
        seq![digit(n as int)]
    } else {
        decimal(n / 10).push(digit((n % 10) as int))
    }
}

fn digit_char(d: u64) -> (c: char)
    requires
        d < 10,
    ensures
        c == digit(d as int),
{
    (48 + d as u8) as char
}

/// The decimal numeral of `n`.
pub fn long_decimal_string(n: u128) -> (r: String)
    ensures
        r@ == decimal(n as nat),
    decreases n,
{
    if n < 10 {
        let mut r = String::new();
        r.push(digit_char(n as u64));
        assert(r@ =~= decimal(n as nat));
        r
    } else {
        let mut r = long_decimal_string(n / 10);
        r.push(digit_char((n % 10) as u64));
        r
    }
}

/// The decimal numeral of `n`.
pub fn decimal_string(n: u64) -> (r: String)
    ensures
        r@ == decimal(n as nat),
{
    long_decimal_string(n as u128)
}

/// The last `width` decimal digits of `n`, leading zeros kept.
pub open spec fn padded(n: nat, width: nat) -> Seq<char>
    decreases width,
{
    if width == 0 {
        Seq::empty()
    } else {
        padded(n / 10, (width - 1) as nat).push(digit((n % 10) as int))
    }
}

/// Appends the last `width` decimal digits of `n` to `s`.
pub(crate) fn push_padded(s: &mut String, n: u64, width: u64)
    ensures
        final(s)@ == old(s)@ + padded(n as nat, width as nat),
    decreases width,
{
    if width > 0 {
        push_padded(s, n / 10, width - 1);
        s.push(digit_char(n % 10));
    }
    assert(s@ =~= old(s)@ + padded(n as nat, width as nat));
}

// ---- hexadecimal numerals ----

/// The value of a hexadecimal digit of either case, or `None` for any other character.
pub open spec fn hex_digit(c: char) -> Option<nat> {
    if '0' <= c <= '9' {
        Some((c as int - 48) as nat)
    } else if 'a' <= c <= 'f' {
        Some((c as int - 87) as nat)
    } else if 'A' <= c <= 'F' {
        Some((c as int - 55) as nat)
    } else {
        None
    }
}

/// Whether `s` consists of hexadecimal digits alone.
pub open spec fn all_hex(s: Seq<char>) -> bool {
    forall|i: int| 0 <= i < s.len() ==> hex_digit(#[trigger] s[i]) is Some
}

/// The number that the hexadecimal digits `s` write, most significant digit first.
pub open spec fn hex_value(s: Seq<char>) -> nat
    decreases s.len(),
{
    if s.len() == 0 {
        0
    } else {
        hex_value(s.drop_last()) * 16 + hex_digit(s.last()).unwrap_or(0)
    }
}

/// `s` without one leading plus sign.
pub open spec fn unsigned_part(s: Seq<char>) -> Seq<char> {
    if s.len() > 0 && s[0] == '+' {
        s.skip(1)
    } else {
        s
    }
}

/// The number that `s` writes in base sixteen: an optional plus sign and at least one
/// hexadecimal digit, and nothing else. `None` when `s` is no such numeral or its value
/// exceeds `max`.
pub open spec fn hex_number(s: Seq<char>, max: nat) -> Option<nat> {
    let digits = unsigned_part(s);
    if digits.len() > 0 && all_hex(digits) && hex_value(digits) <= max {
        Some(hex_value(digits))
    } else {
        None
    }
}

/// `s` without its leading `0x` prefixes, however many there are.
pub open spec fn without_0x(s: Seq<char>) -> Seq<char>
    decreases s.len(),
{
    if s.len() >= 2 && s[0] == '0' && s[1] == 'x' {
        without_0x(s.skip(2))
    } else {
        s
    }
}

proof fn lemma_hex_value_prefix(s: Seq<char>, i: int)
    requires
        0 <= i <= s.len(),
    ensures
        hex_value(s.take(i)) <= hex_value(s),
    decreases s.len() - i,
{
    if i < s.len() {
        lemma_hex_value_prefix(s, i + 1);
        assert(s.take(i + 1).drop_last() =~= s.take(i));
    } else {
        assert(s.take(i) =~= s);
    }
}

spec fn power_of_16(n: nat) -> nat
    decreases n,
{
    if n == 0 {
        1
    } else {
        16 * power_of_16((n - 1) as nat)
    }
}

proof fn lemma_hex_value_bound(s: Seq<char>)
    ensures
        hex_value(s) < power_of_16(s.len()),
    decreases s.len(),
{
    if s.len() > 0 {
        lemma_hex_value_bound(s.drop_last());
    }
}

/// Up to six hexadecimal digits write less than two to the twenty-fourth.
pub(crate) proof fn lemma_six_digits(s: Seq<char>)
    requires
        s.len() <= 6,
    ensures
        hex_value(unsigned_part(s)) < 0x100_0000,
{
    lemma_hex_value_bound(unsigned_part(s));
    reveal_with_fuel(power_of_16, 7);
}

fn hex_digit_of(c: char) -> (r: Option<u64>)
    ensures
        match r {
            Some(d) => hex_digit(c) == Some(d as nat) && d < 16,
            None => hex_digit(c) is None,
        },
{
    let u: u32 = c as u32;
    if 48 <= u && u <= 57 {
        Some((u - 48) as u64)
    } else if 97 <= u && u <= 102 {
        Some((u - 87) as u64)
    } else if 65 <= u && u <= 70 {
        Some((u - 55) as u64)
    } else {
        None
    }
}

/// Reads the characters of `s` from `from` on as a hexadecimal numeral, as
/// `u64::from_str_radix` does with base sixteen.
pub fn read_hex(s: &Vec<char>, from: usize) -> (r: Option<u64>)
    requires
        from <= s@.len(),
    ensures
        match r {
            Some(v) => hex_number(s@.skip(from as int), u64::MAX as nat) == Some(v as nat),
            None => hex_number(s@.skip(from as int), u64::MAX as nat) is None,
        },
{
    let ghost body = s@.skip(from as int);
    let start: usize = if from < s.len() && s[from] == '+' { from + 1 } else { from };
    let ghost digits = unsigned_part(body);
    assert(digits =~= s@.skip(start as int));
    if start == s.len() {
        return None;
    }
    let mut v: u64 = 0;
    let mut i: usize = start;
    while i < s.len()
        invariant
            start <= i <= s.len(),
            digits == s@.skip(start as int),
            digits == unsigned_part(s@.skip(from as int)),
            all_hex(digits.take(i - start)),
            v as nat == hex_value(digits.take(i - start)),
        decreases s.len() - i,
    {
        let ghost k = i - start;
        assert(digits[k] == s@[i as int]);
        assert(digits.take(k + 1).drop_last() =~= digits.take(k));
        assert(digits.take(k + 1).last() == s@[i as int]);
        match hex_digit_of(s[i]) {
            None => {
                assert(!all_hex(digits));
                return None;
            },
            Some(d) => {
                proof {
                    lemma_hex_value_prefix(digits, k + 1);
                }
                if v > (u64::MAX - d) / 16 {
                    assert(hex_value(digits) > u64::MAX);
                    return None;
                }
                v = v * 16 + d;
                i += 1;
                assert(all_hex(digits.take(i - start))) by {
                    assert forall|j: int| 0 <= j < i - start implies hex_digit(
                        #[trigger] digits.take(i - start)[j],
                    ) is Some by {
                        if j < k {
                            assert(digits.take(k)[j] == digits.take(i - start)[j]);
                        }
                    }
                }
            },
        }
    }
    assert(digits.take(i - start) =~= digits);
    Some(v)
}

/// The position in `s` behind its leading `0x` prefixes.
pub fn skip_0x(s: &Vec<char>) -> (i: usize)
    ensures
        i <= s@.len(),
        s@.skip(i as int) == without_0x(s@),
{
    let mut i: usize = 0;
    assert(s@.skip(0) =~= s@);
    while s.len() - i >= 2 && s[i] == '0' && s[i + 1] == 'x'
        invariant
            i <= s@.len(),
            without_0x(s@.skip(i as int)) == without_0x(s@),
        decreases s.len() - i,
    {
        assert(s@.skip(i as int).skip(2) =~= s@.skip(i + 2));
        i += 2;
    }
    i
}

/// The number written by a `0x`-prefixed hexadecimal string; zero when it writes none.
pub open spec fn hex_or_zero(s: Seq<char>) -> u64 {
    match hex_number(without_0x(s), u64::MAX as nat) {
        Some(v) => v as u64,
        None => 0,
    }
}

/// Reads a `0x`-prefixed hexadecimal string, taking what is no such numeral as zero.
pub fn read_hex_or_zero(s: &str) -> (r: u64)
    ensures
        r == hex_or_zero(s@),
{
    let cs = chars_of(s);
    let from = skip_0x(&cs);
    match read_hex(&cs, from) {
        Some(v) => v,
        None => 0,
    }
}

/// The hexadecimal digit of value `d`, in lower case, for `d` below sixteen.
pub open spec fn hex_char(d: int) -> char {
    if d < 10 {
        (48 + d) as char
    } else {
        (87 + d) as char
    }
}

/// The hexadecimal numeral of `n`, in lower case, without leading zeros.
pub open spec fn hex_numeral(n: nat) -> Seq<char>
    decreases n,
{
    if n < 16 {
        seq![hex_char(n as int)]
    } else {
        hex_numeral(n / 16).push(hex_char((n % 16) as int))
    }
}

/// The numeral of `n` behind `0x`.
pub open spec fn tag_of(n: u64) -> Seq<char> {
    seq!['0', 'x'] + hex_numeral(n as nat)
}

fn push_hex(s: &mut String, n: u64)
    ensures
        final(s)@ == old(s)@ + hex_numeral(n as nat),
    decreases n,
{
    if n >= 16 {
        push_hex(s, n / 16);
    }
    let d: u8 = (n % 16) as u8;
    let c: char = if d < 10 {
        (48 + d) as char
    } else {
        (87 + d) as char
    };
    s.push(c);
    assert(s@ =~= old(s)@ + hex_numeral(n as nat));
}

/// Writes a number in hexadecimal, behind `0x`.
pub fn hex_tag(n: u64) -> (r: String)
    ensures
        r@ == tag_of(n),
{
    let mut r = String::new();
    r.push('0');
    r.push('x');
    push_hex(&mut r, n);
    assert(r@ =~= tag_of(n));
    r
}

proof fn lemma_hex_numeral(n: nat)
    ensures
        hex_numeral(n).len() > 0,
        all_hex(hex_numeral(n)),
        hex_value(hex_numeral(n)) == n,
        forall|i: int|
            0 <= i < hex_numeral(n).len() ==> #[trigger] hex_numeral(n)[i] != 'x' && hex_numeral(n)[i]
                != '+',
    decreases n,
{
    let s = hex_numeral(n);
    if n < 16 {
        assert(s.drop_last() =~= Seq::empty());
        assert(hex_value(s.drop_last()) == 0);
    } else {
        lemma_hex_numeral(n / 16);
        assert(s.drop_last() =~= hex_numeral(n / 16));
    }
}

/// What `hex_tag` writes, `read_hex_or_zero` reads back.
pub proof fn law_tags_read_back(n: u64)
    ensures
        hex_or_zero(tag_of(n)) == n,
{
    let t = tag_of(n);
    let s = hex_numeral(n as nat);
    lemma_hex_numeral(n as nat);
    assert(t.skip(2) =~= s);
    assert(without_0x(s) == s) by {
        if s.len() >= 2 {
            assert(s[1] != 'x');
        }
    }
    assert(s[0] != '+');
    assert(without_0x(t) == s);
}

// ---- ASCII case ----

/// The lower-case form of an ASCII capital; any other character is its own.
pub open spec fn ascii_lower(c: char) -> char {
    if 'A' <= c <= 'Z' {
        (c as int + 32) as char
    } else {
        c
    }
}

/// Whether two strings agree but for the case of ASCII letters.
pub open spec fn same_ignoring_case(a: Seq<char>, b: Seq<char>) -> bool {
    a.len() == b.len() && forall|i: int|
        0 <= i < a.len() ==> ascii_lower(#[trigger] a[i]) == ascii_lower(b[i])
}

fn lower_char(c: char) -> (r: char)
    ensures
        r == ascii_lower(c),
{
    if 'A' <= c && c <= 'Z' {
        (c as u8 + 32) as char
    } else {
        c
    }
}

/// Compares two strings, taking ASCII letters of either case as equal.
pub fn eq_ignore_case(a: &str, b: &str) -> (r: bool)
    ensures
        r == same_ignoring_case(a@, b@),
{
    let x = chars_of(a);
    let y = chars_of(b);
    if x.len() != y.len() {
        return false;
    }
    let mut i: usize = 0;
    while i < x.len()
        invariant
            i <= x.len() == y.len(),
            x@ == a@,
            y@ == b@,
            forall|j: int| 0 <= j < i ==> ascii_lower(#[trigger] x@[j]) == ascii_lower(y@[j]),
        decreases x.len() - i,
    {
        if lower_char(x[i]) != lower_char(y[i]) {
            assert(ascii_lower(a@[i as int]) != ascii_lower(b@[i as int]));
            return false;
        }
        i += 1;
    }
    true
}

// ---- addresses ----

/// The short form of an address: its first six bytes and its last four with two dots
/// between, or all of it where it has at most twelve.
pub open spec fn short_of(a: Seq<char>) -> Seq<char> {
    let bytes = encode_utf8(a);
    if bytes.len() > 12 {
        decode_utf8(bytes.take(6)) + ".."@ + decode_utf8(bytes.skip(bytes.len() - 4))
    } else {
        a
    }
}

/// Whether an address can be cut after six bytes and before its last four.
pub open spec fn can_shorten(a: Seq<char>) -> bool {
    let bytes = encode_utf8(a);
    bytes.len() > 12 ==> is_char_boundary(bytes, 6) && is_char_boundary(bytes, bytes.len() - 4)
}

/// Whether an address can be shortened: no character of it is cut.
pub fn shortens(a: &str) -> (r: bool)
    ensures
        r == can_shorten(a@),
{
    let n: usize = a.as_bytes().len();
    n <= 12 || (a.is_char_boundary(6) && a.is_char_boundary(n - 4))
}

/// Shortens an address.
pub fn short(a: &str) -> (r: String)
    requires
        can_shorten(a@),
    ensures
        r@ == short_of(a@),
{
    broadcast use vstd::utf8::group_utf8_lib;

    let n: usize = a.as_bytes().len();
    if n > 12 {
        let ghost bytes = a.spec_bytes();
        let (front, _) = a.split_at(6);
        let (_, back) = a.split_at(n - 4);
        assert(front.spec_bytes() =~= bytes.take(6));
        assert(back.spec_bytes() =~= bytes.skip(bytes.len() - 4));
        let mut r = front.to_owned();
        r.append("..");
        r.append(back);
        r
    } else {
        a.to_owned()
    }
}

/// An address in ASCII can be shortened; the short form of a long one is its first six
/// characters, two dots and its last four.
pub proof fn law_ascii_addresses_shorten(a: Seq<char>)
    requires
        is_ascii_chars(a),
    ensures
        can_shorten(a),
        short_of(a) == if a.len() > 12 {
            a.take(6) + ".."@ + a.skip(a.len() - 4)
        } else {
            a
        },
{
    broadcast use vstd::utf8::group_utf8_lib;

    is_ascii_chars_encode_utf8(a);
    let bytes = encode_utf8(a);
    if bytes.len() > 12 {
        let front = a.take(6);
        let back = a.skip(a.len() - 4);
        is_ascii_chars_encode_utf8(front);
        is_ascii_chars_encode_utf8(back);
        assert(bytes.take(6) =~= encode_utf8(front));
        assert(bytes.skip(bytes.len() - 4) =~= encode_utf8(back));
        lemma_ascii_boundary(a, 6);
        lemma_ascii_boundary(a, a.len() - 4);
    }
}

/// Every place in ASCII is between two characters.
proof fn lemma_ascii_boundary(a: Seq<char>, i: int)
    requires
        is_ascii_chars(a),
        0 <= i <= a.len(),
    ensures
        is_char_boundary(encode_utf8(a), i),
{
    broadcast use vstd::utf8::group_utf8_lib;

    is_ascii_chars_encode_utf8(a);
    if i < a.len() {
        assert(encode_utf8(a)[i] == a[i] as u8);
        assert(!is_continuation_byte(encode_utf8(a)[i]));
    }
}

// ---- laws of numerals ----

/// The number that digits write in a base, most significant first, each by the value that
/// `value` gives it.
pub open spec fn written(s: Seq<char>, base: int, value: spec_fn(char) -> int) -> int {
    s.fold_left(0int, |v: int, c: char| base * v + value(c))
}

/// The value of a decimal digit.
pub open spec fn ten_value(c: char) -> int {
    c as int - '0' as int
}

/// The value of a hexadecimal digit: its place in the row of digits, in either case.
pub open spec fn sixteen_value(c: char) -> int {
    if '0' <= c <= '9' {
        c as int - '0' as int
    } else if 'a' <= c <= 'f' {
        c as int - 'a' as int + 10
    } else {
        c as int - 'A' as int + 10
    }
}

proof fn lemma_decimal(n: nat)
    ensures
        decimal(n).len() > 0,
        forall|i: int| 0 <= i < decimal(n).len() ==> '0' <= #[trigger] decimal(n)[i] <= '9',
        written(decimal(n), 10, |c: char| ten_value(c)) == n,
        n > 0 ==> decimal(n)[0] != '0',
    decreases n,
{
    let s = decimal(n);
    if n < 10 {
        assert(s.drop_last() =~= Seq::empty());
        reveal_with_fuel(Seq::fold_left, 2);
    } else {
        lemma_decimal(n / 10);
        assert(s.drop_last() =~= decimal(n / 10));
    }
}

/// A decimal numeral is of digits, writes its number, and has no zero in front but that of zero.
pub proof fn law_decimals_write_their_number(n: u64, r: String, m: u128, q: String, i: int)
    requires
        call_ensures(decimal_string, (n,), r),
        call_ensures(long_decimal_string, (m,), q),
    ensures
        r@.len() > 0 && q@.len() > 0,
        0 <= i < r@.len() ==> '0' <= r@[i] <= '9',
        0 <= i < q@.len() ==> '0' <= q@[i] <= '9',
        written(r@, 10, |c: char| ten_value(c)) == n,
        written(q@, 10, |c: char| ten_value(c)) == m,
        n > 0 ==> r@[0] != '0',
        m > 0 ==> q@[0] != '0',
{
    lemma_decimal(n as nat);
    lemma_decimal(m as nat);
}

/// The hexadecimal digits are the decimal ones, and the letters from a to f of either case.
pub proof fn law_there_are_sixteen_digits(c: char)
    ensures
        hex_digit(c) is Some <==> '0' <= c <= '9' || 'a' <= c <= 'f' || 'A' <= c <= 'F',
        hex_digit(c) matches Some(d) ==> d == sixteen_value(c) && d < 16,
        sixteen_value('a') == 10 && sixteen_value('F') == 15 && sixteen_value('9') == 9,
{
}

proof fn lemma_hex_value_written(s: Seq<char>)
    requires
        all_hex(s),
    ensures
        hex_value(s) == written(s, 16, |c: char| sixteen_value(c)),
    decreases s.len(),
{
    if s.len() > 0 {
        let rest = s.drop_last();
        assert(all_hex(rest)) by {
            assert forall|i: int| 0 <= i < rest.len() implies hex_digit(
                #[trigger] rest[i],
            ) is Some by {
                assert(rest[i] == s[i]);
            }
        }
        lemma_hex_value_written(rest);
        assert(hex_digit(s[s.len() - 1]) is Some);
    }
}

/// A number is read from hexadecimal digits, with `0x` in front or without; what they write is
/// zero where it does not fit; and zero is read where there are no digits, or anything but
/// digits.
pub proof fn law_hexadecimals_are_read(s: &str, r: u64, digits: Seq<char>)
    requires
        call_ensures(read_hex_or_zero, (s,), r),
        s@ == digits || s@ == seq!['0', 'x'] + digits,
        !(digits.len() >= 2 && digits[0] == '0' && digits[1] == 'x'),
        digits.len() > 0 ==> digits[0] != '+',
    ensures
        digits.len() == 0 ==> r == 0,
        (exists|i: int|
            0 <= i < digits.len() && !('0' <= #[trigger] digits[i] <= '9' || 'a' <= digits[i] <= 'f'
                || 'A' <= digits[i] <= 'F')) ==> r == 0,
        (forall|i: int|
            0 <= i < digits.len() ==> '0' <= #[trigger] digits[i] <= '9' || 'a' <= digits[i] <= 'f'
                || 'A' <= digits[i] <= 'F') ==> r == (if written(
            digits,
            16,
            |c: char| sixteen_value(c),
        ) <= u64::MAX {
            written(digits, 16, |c: char| sixteen_value(c))
        } else {
            0
        }),
{
    assert(without_0x(digits) == digits);
    let t = seq!['0', 'x'] + digits;
    assert(t.skip(2) =~= digits);
    assert(without_0x(t) == digits);
    assert(unsigned_part(digits) == digits);
    if all_hex(digits) {
        lemma_hex_value_written(digits);
        assert forall|i: int| 0 <= i < digits.len() implies '0' <= #[trigger] digits[i] <= '9'
            || 'a' <= digits[i] <= 'f' || 'A' <= digits[i] <= 'F' by {
            assert(hex_digit(digits[i]) is Some);
        }
    } else {
        let i = choose|i: int| 0 <= i < digits.len() && hex_digit(#[trigger] digits[i]) is None;
        assert(!('0' <= digits[i] <= '9' || 'a' <= digits[i] <= 'f' || 'A' <= digits[i] <= 'F'));
    }
}

proof fn lemma_hex_numeral_is_lower(n: nat, i: int)
    requires
        0 <= i < hex_numeral(n).len(),
    ensures
        '0' <= hex_numeral(n)[i] <= '9' || 'a' <= hex_numeral(n)[i] <= 'f',
        n > 0 ==> hex_numeral(n)[0] != '0',
    decreases n,
{
    if n >= 16 {
        lemma_hex_numeral(n / 16);
        lemma_hex_numeral_is_lower(n / 16, 0);
        if i < hex_numeral(n / 16).len() {
            lemma_hex_numeral_is_lower(n / 16, i);
        }
    }
}

/// A tag is `0x` and the hexadecimal numeral of its number, in lower case and without a zero in
/// front but that of zero.
pub proof fn law_tags_write_their_number(n: u64, r: String, i: int)
    requires
        call_ensures(hex_tag, (n,), r),
    ensures
        r@.len() > 2,
        r@[0] == '0' && r@[1] == 'x',
        2 <= i < r@.len() ==> '0' <= r@[i] <= '9' || 'a' <= r@[i] <= 'f',
        n > 0 ==> r@[2] != '0',
        written(r@.skip(2), 16, |c: char| sixteen_value(c)) == n,
{
    let s = hex_numeral(n as nat);
    lemma_hex_numeral(n as nat);
    lemma_hex_value_written(s);
    assert(r@.skip(2) =~= s);
    lemma_hex_numeral_is_lower(n as nat, 0);
    if 2 <= i < r@.len() {
        lemma_hex_numeral_is_lower(n as nat, i - 2);
    }
}

/// Strings agree but for case where they are as long and have at each place the same character,
/// or the same letter of ASCII in the other case.
pub proof fn law_letters_agree_in_either_case(a: &str, b: &str, r: bool)
    requires
        call_ensures(eq_ignore_case, (a, b), r),
    ensures
        r <==> a@.len() == b@.len() && forall|i: int|
            0 <= i < a@.len() ==> (#[trigger] a@[i] == b@[i] || ('A' <= a@[i] <= 'Z' && b@[i] as int
                == a@[i] as int + 32) || ('A' <= b@[i] <= 'Z' && a@[i] as int == b@[i] as int + 32)),
{
    assert forall|i: int| 0 <= i < a@.len() && a@.len() == b@.len() implies (ascii_lower(
        #[trigger] a@[i],
    ) == ascii_lower(b@[i]) <==> (a@[i] == b@[i] || ('A' <= a@[i] <= 'Z' && b@[i] as int == a@[i] as int
        + 32) || ('A' <= b@[i] <= 'Z' && a@[i] as int == b@[i] as int + 32))) by {}
}

/// Strings are the same where they have the same characters; the first characters of one are its
/// beginning; and an address in ASCII is shortened where it is longer than twelve.
pub proof fn law_strings_are_their_characters(
    a: &str,
    b: &str,
    eq: bool,
    n: usize,
    front: String,
    brief: String,
)
    requires
        call_ensures(same, (a, b), eq),
        call_ensures(take_chars, (a, n), front),
        is_ascii_chars(a@),
        call_ensures(short, (a,), brief),
    ensures
        eq <==> a@ == b@,
        a@.len() <= n ==> front@ == a@,
        a@.len() > n ==> front@ == a@.subrange(0, n as int),
        a@.len() <= 12 ==> brief@ == a@,
        a@.len() > 12 ==> brief@ == a@.take(6) + seq!['.', '.'] + a@.skip(a@.len() - 4),
{
    law_ascii_addresses_shorten(a@);
    reveal_strlit("..");
    assert(".."@ =~= seq!['.', '.']);
    assert(a@.take(a@.len() as int) =~= a@);
}

/// A plus sign in front of digits changes nothing of what they write, and neither does one more
/// `0x` in front of all.
pub proof fn law_signs_and_prefixes_change_nothing(s: Seq<char>, digits: Seq<char>, max: nat)
    requires
        digits.len() > 0 ==> digits[0] != '+',
    ensures
        hex_number(seq!['+'] + digits, max) == hex_number(digits, max),
        hex_number(seq!['+', '+'] + digits, max) is None,
        without_0x(seq!['0', 'x'] + s) == without_0x(s),
        hex_or_zero(seq!['0', 'x'] + s) == hex_or_zero(s),
{
    assert((seq!['+'] + digits).skip(1) =~= digits);
    let two = seq!['+', '+'] + digits;
    assert(two.skip(1)[0] == '+');
    assert((seq!['0', 'x'] + s).skip(2) =~= s);
}

/// The prefixes that are skipped are `0x` as often as it stands in front, and it does not stand
/// in front of the rest.
pub proof fn law_prefixes_are_skipped(s: Vec<char>, n: usize, j: int)
    requires
        call_ensures(skip_0x, (&s,), n),
    ensures
        n <= s@.len(),
        n % 2 == 0,
        0 <= 2 * j < n ==> s@[2 * j] == '0' && s@[2 * j + 1] == 'x',
        !(n + 2 <= s@.len() && s@[n as int] == '0' && s@[n + 1] == 'x'),
{
    lemma_without_0x(s@, n as int, j);
    let rest = s@.skip(n as int);
    if n + 2 <= s@.len() {
        assert(rest[0] == s@[n as int] && rest[1] == s@[n + 1]);
    }
}

proof fn lemma_without_0x(s: Seq<char>, n: int, j: int)
    requires
        0 <= n <= s.len(),
        s.skip(n) == without_0x(s),
    ensures
        n % 2 == 0,
        0 <= 2 * j < n ==> s[2 * j] == '0' && s[2 * j + 1] == 'x',
        s.skip(n).len() >= 2 ==> !(s.skip(n)[0] == '0' && s.skip(n)[1] == 'x'),
    decreases s.len(),
{
    if s.len() >= 2 && s[0] == '0' && s[1] == 'x' {
        let rest = s.skip(2);
        lemma_without_0x_is_shorter(rest);
        assert(s.skip(n).len() == s.len() - n);
        assert(n >= 2);
        assert(rest.skip(n - 2) =~= s.skip(n));
        lemma_without_0x(rest, n - 2, j - 1);
        if j > 0 && 2 * j < n {
            assert(rest[2 * (j - 1)] == s[2 * j] && rest[2 * (j - 1) + 1] == s[2 * j + 1]);
        }
    } else {
        assert(s.skip(n).len() == s.len() - n);
    }
}

proof fn lemma_without_0x_is_shorter(s: Seq<char>)
    ensures
        without_0x(s).len() <= s.len(),
    decreases s.len(),
{
    if s.len() >= 2 && s[0] == '0' && s[1] == 'x' {
        lemma_without_0x_is_shorter(s.skip(2));
    }
}

/// A numeral is read from a place on: digits alone, one at least, and of a number that fits.
pub proof fn law_numerals_are_read_from_a_place(
    s: Vec<char>,
    from: usize,
    r: Option<u64>,
    digits: Seq<char>,
)
    requires
        call_ensures(read_hex, (&s, from), r),
        from <= s@.len(),
        digits == s@.skip(from as int),
        digits.len() > 0 ==> digits[0] != '+',
    ensures
        r is Some <==> digits.len() > 0 && all_hex(digits) && written(
            digits,
            16,
            |c: char| sixteen_value(c),
        ) <= u64::MAX,
        r matches Some(v) ==> v == written(digits, 16, |c: char| sixteen_value(c)),
{
    if all_hex(digits) {
        lemma_hex_value_written(digits);
    }
}

/// The characters of a string are its characters, and one in ASCII can be shortened.
pub proof fn law_strings_are_taken_apart(a: &str, cs: Vec<char>, ok: bool)
    requires
        call_ensures(chars_of, (a,), cs),
        call_ensures(shortens, (a,), ok),
    ensures
        cs@ == a@,
        is_ascii_chars(a@) ==> ok,
{
    if is_ascii_chars(a@) {
        law_ascii_addresses_shorten(a@);
    }
}

} // verus!

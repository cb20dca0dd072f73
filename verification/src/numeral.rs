//! Reading numbers out of text: white space, whole numbers and decimals.
use vstd::prelude::*;

verus! {

/// A number above every 64-bit integer, at which reading stops counting.
const BIG: u128 = 0x10_0000_0000_0000_0000_0000_0000;

/// The characters that Unicode calls white space.
pub open spec fn is_space(c: char) -> bool {
    let n = c as int;
    ||| 0x09 <= n <= 0x0d
    ||| n == 0x20
    ||| n == 0x85
    ||| n == 0xa0
    ||| n == 0x1680
    ||| 0x2000 <= n <= 0x200a
    ||| n == 0x2028
    ||| n == 0x2029
    ||| n == 0x202f
    ||| n == 0x205f
    ||| n == 0x3000
}

/// Text without the white space at its start.
pub open spec fn trimmed_start(s: Seq<char>) -> Seq<char>
    decreases s.len(),
{
    if s.len() > 0 && is_space(s[0]) {
        trimmed_start(s.skip(1))
    } else {
        s
    }
}

/// Text without the white space at its end.
pub open spec fn trimmed_end(s: Seq<char>) -> Seq<char>
    decreases s.len(),
{
    if s.len() > 0 && is_space(s.last()) {
        trimmed_end(s.drop_last())
    } else {
        s
    }
}

/// Text without the white space at both ends.
pub open spec fn trimmed(s: Seq<char>) -> Seq<char> {
    trimmed_end(trimmed_start(s))
}

fn space(c: char) -> (r: bool)
    ensures
        r == is_space(c),
{
    let n: u32 = c as u32;
    (n >= 0x09 && n <= 0x0d) || n == 0x20 || n == 0x85 || n == 0xa0 || n == 0x1680 || (n >= 0x2000
        && n <= 0x200a) || n == 0x2028 || n == 0x2029 || n == 0x202f || n == 0x205f || n == 0x3000
}

/// Text without the white space at both ends.
pub fn trim(s: &str) -> (r: &str)
    ensures
        r@ == trimmed(s@),
{
    let n: usize = s.unicode_len();
    let mut from: usize = 0;
    assert(s@.skip(0) =~= s@);
    while from < n && space(s.get_char(from))
        invariant
            n == s@.len(),
            from <= n,
            trimmed_start(s@) == trimmed_start(s@.skip(from as int)),
        decreases n - from,
    {
        assert(s@.skip(from as int).skip(1) =~= s@.skip(from + 1));
        from = from + 1;
    }
    let ghost left = s@.skip(from as int);
    assert(trimmed_start(s@) == left);
    let mut to: usize = n;
    assert(s@.subrange(from as int, n as int) =~= left);
    while to > from && space(s.get_char(to - 1))
        invariant
            n == s@.len(),
            from <= to <= n,
            trimmed_end(left) == trimmed_end(s@.subrange(from as int, to as int)),
        decreases to - from,
    {
        assert(s@.subrange(from as int, to as int).drop_last() =~= s@.subrange(
            from as int,
            to - 1,
        ));
        to = to - 1;
    }
    s.substring_char(from, to)
}

pub open spec fn is_digit(c: char) -> bool {
    '0' <= c <= '9'
}

pub open spec fn all_digits(s: Seq<char>) -> bool {
    forall|i: int| #![trigger s[i]] 0 <= i < s.len() ==> is_digit(s[i])
}

/// The number that decimal digits write.
pub open spec fn digits_value(s: Seq<char>) -> nat
    decreases s.len(),
{
    if s.len() == 0 {
        0
    } else {
        10 * digits_value(s.drop_last()) + (s.last() as int - '0' as int) as nat
    }
}

pub open spec fn pow10(n: nat) -> nat
    decreases n,
{
    if n == 0 {
        1
    } else {
        10 * pow10((n - 1) as nat)
    }
}

/// Whether text starts with a minus sign.
pub open spec fn is_negative(s: Seq<char>) -> bool {
    s.len() > 0 && s[0] == '-'
}

/// Text without its sign.
pub open spec fn unsigned(s: Seq<char>) -> Seq<char> {
    if s.len() > 0 && (s[0] == '-' || s[0] == '+') {
        s.skip(1)
    } else {
        s
    }
}

/// A number with a sign.
pub open spec fn with_sign(negative: bool, n: int) -> int {
    if negative {
        -n
    } else {
        n
    }
}

/// The 64-bit integer that text writes: an optional sign and digits.
pub open spec fn parsed_int(s: Seq<char>) -> Option<i64> {
    let body = unsigned(s);
    let n = with_sign(is_negative(s), digits_value(body) as int);
    if body.len() > 0 && all_digits(body) && i64::MIN <= n <= i64::MAX {
        Some(n as i64)
    } else {
        None
    }
}

/// The place of the first of one or two characters, or the length.
pub open spec fn first_of(s: Seq<char>, a: char, b: char) -> nat
    decreases s.len(),
{
    if s.len() == 0 || s[0] == a || s[0] == b {
        0
    } else {
        1 + first_of(s.skip(1), a, b)
    }
}

/// What stands behind a place, without the character at it.
pub open spec fn behind(s: Seq<char>, at: nat) -> Seq<char> {
    if at < s.len() {
        s.skip(at as int + 1)
    } else {
        Seq::empty()
    }
}

/// The whole part of the number whose digits are given, with the decimal point
/// behind the first `point` of them.
pub open spec fn whole_part(digits: Seq<char>, point: int) -> nat {
    if point <= 0 {
        0
    } else if point <= digits.len() {
        digits_value(digits.take(point))
    } else {
        digits_value(digits) * pow10((point - digits.len()) as nat)
    }
}

/// Whether text is a word of small letters, in letters of either size.
pub open spec fn spells(s: Seq<char>, word: Seq<char>) -> bool {
    s.len() == word.len() && forall|i: int|
        #![trigger s[i]]
        0 <= i < s.len() ==> s[i] == word[i] || s[i] as int + 32 == word[i] as int
}

/// The exponent that text writes.
pub open spec fn exponent(s: Seq<char>) -> int {
    with_sign(is_negative(s), digits_value(unsigned(s)) as int)
}

/// Whether text is a decimal number without a sign: digits, a point and digits,
/// of which one may be missing, and an exponent behind `e`.
pub open spec fn is_decimal(body: Seq<char>) -> bool {
    let at = first_of(body, 'e', 'E');
    let number = body.take(at as int);
    let point = first_of(number, '.', '.');
    let whole = number.take(point as int);
    let part = behind(number, point);
    let power = behind(body, at);
    &&& all_digits(whole)
    &&& all_digits(part)
    &&& whole.len() + part.len() > 0
    &&& at < body.len() ==> unsigned(power).len() > 0 && all_digits(unsigned(power))
}

/// The whole part of a decimal number.
pub open spec fn decimal_part(body: Seq<char>) -> nat {
    let at = first_of(body, 'e', 'E');
    let number = body.take(at as int);
    let point = first_of(number, '.', '.');
    let whole = number.take(point as int);
    whole_part(whole + behind(number, point), whole.len() + exponent(behind(body, at)))
}

/// A number brought into the range of a 64-bit integer.
pub open spec fn into_range(n: int) -> i64 {
    if n < i64::MIN {
        i64::MIN
    } else if n > i64::MAX {
        i64::MAX
    } else {
        n as i64
    }
}

/// The decimal number that text writes, cut off at the point and brought into
/// the range of a 64-bit integer; infinity is the end of the range, and what is
/// not a number is zero.
pub open spec fn parsed_decimal(s: Seq<char>) -> Option<i64> {
    let body = unsigned(s);
    if spells(body, "inf"@) || spells(body, "infinity"@) {
        Some(
            if is_negative(s) {
                i64::MIN
            } else {
                i64::MAX
            },
        )
    } else if spells(body, "nan"@) {
        Some(0)
    } else if is_decimal(body) {
        Some(into_range(with_sign(is_negative(s), decimal_part(body) as int)))
    } else {
        None
    }
}

/// A number no greater than `BIG`.
spec fn capped(n: nat) -> nat {
    if n < BIG {
        n
    } else {
        BIG as nat
    }
}

fn digits_only(s: &str) -> (r: bool)
    ensures
        r == all_digits(s@),
{
    let n: usize = s.unicode_len();
    let mut i: usize = 0;
    while i < n
        invariant
            n == s@.len(),
            i <= n,
            forall|k: int| #![trigger s@[k]] 0 <= k < i ==> is_digit(s@[k]),
        decreases n - i,
    {
        let c = s.get_char(i);
        if !(c >= '0' && c <= '9') {
            assert(!is_digit(s@[i as int]));
            return false;
        }
        i = i + 1;
    }
    true
}

/// One digit more.
fn step(acc: u128, c: char, Ghost(n): Ghost<nat>) -> (r: u128)
    requires
        is_digit(c),
        acc == capped(n),
    ensures
        r == capped(10 * n + (c as int - '0' as int) as nat),
{
    let d: u128 = (c as u32 - '0' as u32) as u128;
    if acc >= BIG || acc * 10 + d >= BIG {
        BIG
    } else {
        acc * 10 + d
    }
}

/// The number that digits write, up to `BIG`.
fn read_digits(s: &str) -> (r: u128)
    requires
        all_digits(s@),
    ensures
        r == capped(digits_value(s@)),
{
    let n: usize = s.unicode_len();
    let mut acc: u128 = 0;
    let mut i: usize = 0;
    while i < n
        invariant
            n == s@.len(),
            i <= n,
            all_digits(s@),
            acc == capped(digits_value(s@.take(i as int))),
        decreases n - i,
    {
        let c = s.get_char(i);
        assert(s@.take(i + 1).drop_last() =~= s@.take(i as int));
        acc = step(acc, c, Ghost(digits_value(s@.take(i as int))));
        i = i + 1;
    }
    assert(s@.take(n as int) =~= s@);
    acc
}

/// Text without its sign.
fn without_sign(s: &str) -> (r: &str)
    ensures
        r@ == unsigned(s@),
{
    let n: usize = s.unicode_len();
    if n > 0 {
        let c = s.get_char(0);
        if c == '-' || c == '+' {
            assert(s@.subrange(1, n as int) =~= s@.skip(1));
            return s.substring_char(1, n);
        }
    }
    s
}

fn starts_minus(s: &str) -> (r: bool)
    ensures
        r == is_negative(s@),
{
    let n: usize = s.unicode_len();
    n > 0 && s.get_char(0) == '-'
}

/// The 64-bit integer that text writes.
pub fn parse_int(s: &str) -> (r: Option<i64>)
    ensures
        r == parsed_int(s@),
{
    let body = without_sign(s);
    let n: usize = body.unicode_len();
    if n == 0 || !digits_only(body) {
        return None;
    }
    let value: u128 = read_digits(body);
    if starts_minus(s) {
        if value <= 0x8000_0000_0000_0000 {
            Some((-(value as i128)) as i64)
        } else {
            None
        }
    } else if value <= 0x7fff_ffff_ffff_ffff {
        Some(value as i64)
    } else {
        None
    }
}

proof fn lemma_first_of(s: Seq<char>, a: char, b: char, at: int)
    requires
        0 <= at <= s.len(),
        forall|k: int| #![trigger s[k]] 0 <= k < at ==> s[k] != a && s[k] != b,
        at < s.len() ==> s[at] == a || s[at] == b,
    ensures
        first_of(s, a, b) == at,
    decreases s.len(),
{
    if at > 0 {
        assert(s[0] != a && s[0] != b);
        assert forall|k: int| #![trigger s.skip(1)[k]] 0 <= k < at - 1 implies s.skip(1)[k] != a
            && s.skip(1)[k] != b by {
            assert(s.skip(1)[k] == s[k + 1]);
        }
        lemma_first_of(s.skip(1), a, b, at - 1);
    }
}

/// The place of the first of one or two characters, or the length.
pub fn find_first(s: &str, a: char, b: char) -> (r: usize)
    ensures
        r == first_of(s@, a, b),
        r <= s@.len(),
{
    let n: usize = s.unicode_len();
    let mut i: usize = 0;
    while i < n
        invariant
            n == s@.len(),
            i <= n,
            forall|k: int| #![trigger s@[k]] 0 <= k < i ==> s@[k] != a && s@[k] != b,
        decreases n - i,
    {
        let c = s.get_char(i);
        if c == a || c == b {
            proof {
                lemma_first_of(s@, a, b, i as int);
            }
            return i;
        }
        i = i + 1;
    }
    proof {
        lemma_first_of(s@, a, b, n as int);
    }
    n
}

/// What stands behind a place.
fn text_behind(s: &str, at: usize) -> (r: &str)
    requires
        at <= s@.len(),
    ensures
        r@ == behind(s@, at as nat),
{
    let n: usize = s.unicode_len();
    if at < n {
        assert(s@.subrange(at + 1, n as int) =~= s@.skip(at + 1));
        s.substring_char(at + 1, n)
    } else {
        assert(s@.subrange(n as int, n as int) =~= Seq::<char>::empty());
        s.substring_char(n, n)
    }
}

fn is_word(s: &str, word: &str) -> (r: bool)
    ensures
        r == spells(s@, word@),
{
    let n: usize = s.unicode_len();
    if n != word.unicode_len() {
        return false;
    }
    let mut i: usize = 0;
    while i < n
        invariant
            n == s@.len(),
            n == word@.len(),
            i <= n,
            forall|k: int|
                #![trigger s@[k]]
                0 <= k < i ==> s@[k] == word@[k] || s@[k] as int + 32 == word@[k] as int,
        decreases n - i,
    {
        let c = s.get_char(i);
        let w = word.get_char(i);
        if c != w && c as u64 + 32 != w as u64 {
            assert(s@[i as int] == c);
            return false;
        }
        i = i + 1;
    }
    true
}

proof fn lemma_pow10_grows(a: nat, b: nat)
    requires
        a <= b,
    ensures
        1 <= pow10(a) <= pow10(b),
    decreases b,
{
    if a == b {
        if a > 0 {
            lemma_pow10_grows((a - 1) as nat, (a - 1) as nat);
        }
    } else {
        lemma_pow10_grows(a, (b - 1) as nat);
    }
}

proof fn lemma_pow10_big(n: nat)
    requires
        n >= 40,
    ensures
        pow10(n) >= BIG,
{
    lemma_pow10_grows(40, n);
    reveal_with_fuel(pow10, 21);
    assert(pow10(20) == 100000000000000000000nat);
    assert(pow10(40) == 10000000000000000000000000000000000000000nat);
}

/// A number with zeros behind it, up to `BIG`.
fn shifted(value: u128, zeros: u128, Ghost(n): Ghost<nat>) -> (r: u128)
    requires
        value == capped(n),
    ensures
        r == capped(n * pow10(zeros as nat)),
{
    let stop: u128 = if zeros < 40 {
        zeros
    } else {
        40
    };
    let mut acc: u128 = value;
    let mut i: u128 = 0;
    assert(n * pow10(0) == n) by (nonlinear_arith)
        requires
            pow10(0) == 1,
    ;
    while i < stop
        invariant
            i <= stop <= 40,
            acc == capped(n * pow10(i as nat)),
        decreases stop - i,
    {
        let ghost before = n * pow10(i as nat);
        assert(n * pow10((i + 1) as nat) == 10 * before + 0) by (nonlinear_arith)
            requires
                pow10((i + 1) as nat) == 10 * pow10(i as nat),
                before == n * pow10(i as nat),
        ;
        acc = step(acc, '0', Ghost(before));
        i = i + 1;
    }
    proof {
        if zeros >= 40 {
            lemma_pow10_big(zeros as nat);
            lemma_pow10_big(40);
            let big = pow10(zeros as nat);
            let bound = pow10(40);
            if n == 0 {
                assert(n * big == 0 && n * bound == 0) by (nonlinear_arith)
                    requires
                        n == 0,
                ;
            } else {
                assert(n * big >= big && n * bound >= bound) by (nonlinear_arith)
                    requires
                        n >= 1,
                ;
            }
        }
    }
    acc
}

/// The whole part of a number whose digits stand in two pieces, up to `BIG`.
fn read_whole(whole: &str, part: &str, power: i128) -> (r: u128)
    requires
        all_digits(whole@),
        all_digits(part@),
        -BIG <= power <= BIG,
    ensures
        r == capped(whole_part(whole@ + part@, whole@.len() + power)),
{
    let n: usize = whole.unicode_len();
    let m: usize = part.unicode_len();
    let ghost digits = whole@ + part@;
    let point: i128 = n as i128 + power;
    if point <= 0 {
        return 0;
    }
    let all: i128 = n as i128 + m as i128;
    let count: i128 = if point < all {
        point
    } else {
        all
    };
    let mut acc: u128 = 0;
    let mut i: i128 = 0;
    while i < count
        invariant
            n == whole@.len(),
            m == part@.len(),
            digits == whole@ + part@,
            all == n + m,
            i <= count <= all,
            0 <= i,
            all_digits(whole@),
            all_digits(part@),
            acc == capped(digits_value(digits.take(i as int))),
        decreases count - i,
    {
        let c = if i < n as i128 {
            whole.get_char(i as usize)
        } else {
            part.get_char((i - n as i128) as usize)
        };
        assert(c == digits[i as int]);
        assert(digits.take(i + 1).drop_last() =~= digits.take(i as int));
        acc = step(acc, c, Ghost(digits_value(digits.take(i as int))));
        i = i + 1;
    }
    if point <= all {
        acc
    } else {
        assert(digits.take(all as int) =~= digits);
        shifted(acc, (point - all) as u128, Ghost(digits_value(digits)))
    }
}

/// The exponent that text writes, between `-BIG` and `BIG`.
fn read_exponent(s: &str) -> (r: i128)
    requires
        all_digits(unsigned(s@)),
    ensures
        r == with_sign(is_negative(s@), capped(digits_value(unsigned(s@))) as int),
        -BIG <= r <= BIG,
{
    let body = without_sign(s);
    let value: u128 = read_digits(body);
    if starts_minus(s) {
        -(value as i128)
    } else {
        value as i128
    }
}

/// An exponent out of reach counts like any other out of reach, as far as `BIG`
/// can tell.
proof fn lemma_far_exponent(digits: Seq<char>, whole: nat, near: int, far: int)
    requires
        whole <= digits.len() < BIG - 40,
        near == BIG && far >= BIG || near == -BIG && far <= -BIG,
    ensures
        capped(whole_part(digits, whole + near)) == capped(whole_part(digits, whole + far)),
{
    if near == BIG {
        let v = digits_value(digits);
        let a = pow10((whole + near - digits.len()) as nat);
        let b = pow10((whole + far - digits.len()) as nat);
        lemma_pow10_big((whole + near - digits.len()) as nat);
        lemma_pow10_big((whole + far - digits.len()) as nat);
        if v == 0 {
            assert(v * a == 0 && v * b == 0) by (nonlinear_arith)
                requires
                    v == 0,
            ;
        } else {
            assert(v * a >= a && v * b >= b) by (nonlinear_arith)
                requires
                    v >= 1,
            ;
        }
    }
}

/// The decimal number that text writes, cut off at the point.
pub fn parse_decimal(s: &str) -> (r: Option<i64>)
    ensures
        r == parsed_decimal(s@),
{
    let body = without_sign(s);
    let negative = starts_minus(s);
    if is_word(body, "inf") || is_word(body, "infinity") {
        return if negative {
            Some(i64::MIN)
        } else {
            Some(i64::MAX)
        };
    }
    if is_word(body, "nan") {
        return Some(0);
    }
    let n: usize = body.unicode_len();
    let at: usize = find_first(body, 'e', 'E');
    let number = body.substring_char(0, at);
    assert(number@ =~= body@.take(at as int));
    let point: usize = find_first(number, '.', '.');
    let whole = number.substring_char(0, point);
    assert(whole@ =~= number@.take(point as int));
    let part = text_behind(number, point);
    let power = text_behind(body, at);
    let digits = without_sign(power);
    let whole_len: usize = whole.unicode_len();
    let part_len: usize = part.unicode_len();
    if !digits_only(whole) || !digits_only(part) || (whole_len == 0 && part_len == 0) {
        return None;
    }
    if at < n && (digits.unicode_len() == 0 || !digits_only(digits)) {
        return None;
    }
    assert(all_digits(digits@));
    let by: i128 = read_exponent(power);
    let value: u128 = read_whole(whole, part, by);
    proof {
        let far = exponent(power@);
        if by != far {
            assert(digits_value(digits@) >= BIG);
            lemma_far_exponent(whole@ + part@, whole@.len(), by as int, far);
        }
        assert(value == capped(decimal_part(body@)));
    }
    if negative {
        if value >= 0x8000_0000_0000_0000 {
            Some(i64::MIN)
        } else {
            Some((-(value as i128)) as i64)
        }
    } else if value >= 0x7fff_ffff_ffff_ffff {
        Some(i64::MAX)
    } else {
        Some(value as i64)
    }
}

} // verus!

//! Reading decimal numbers as double-precision ones.
use crate::arithmetic;
use crate::double;
use crate::double::{Double, INFINITE, SIGN};
use crate::natural::{Natural, Standing};
use crate::text;
use vstd::arithmetic::power2::*;
use vstd::prelude::*;

verus! {

pub open spec fn ten_to(exponent: nat) -> nat
    decreases exponent,
{
    if exponent == 0 {
        1
    } else {
        10 * ten_to((exponent - 1) as nat)
    }
}

/// The magnitude nearest to `digits * 10^exponent`.
pub open spec fn scaled(digits: nat, exponent: int) -> nat {
    if exponent >= 0 {
        arithmetic::nearest(digits * ten_to(exponent as nat) * pow2(1074), 1)
    } else {
        arithmetic::nearest(digits * pow2(1074), ten_to((-exponent) as nat))
    }
}

/// A text without its sign, and whether that was a minus.
pub open spec fn unsigned(text: Seq<char>) -> (bool, Seq<char>) {
    if text.len() > 0 && text[0] == '-' {
        (true, text.skip(1))
    } else if text.len() > 0 && text[0] == '+' {
        (false, text.skip(1))
    } else {
        (false, text)
    }
}

/// The whole number behind an exponent sign: a sign or none, and digits.
pub open spec fn exponent_value(text: Seq<char>) -> Option<int> {
    let (negative, digits) = unsigned(text);
    if digits.len() > 0 && text::all_digits(digits) {
        if negative {
            Some(-(text::digits_value(digits) as int))
        } else {
            Some(text::digits_value(digits) as int)
        }
    } else {
        None
    }
}

/// Where the exponent sign stands, or the length where there is none.
pub open spec fn find_exponent(text: Seq<char>) -> int
    decreases text.len(),
{
    if text.len() == 0 || text[0] == 'e' || text[0] == 'E' {
        0
    } else {
        1 + find_exponent(text.skip(1))
    }
}

/// The exponent that a number ends with; none at all counts as zero.
pub open spec fn exponent_of(text: Seq<char>) -> Option<int> {
    let at = find_exponent(text);
    if at < text.len() {
        exponent_value(text.skip(at + 1))
    } else {
        Some(0)
    }
}

/// The digits before and behind the decimal point.
pub open spec fn mantissa_of(text: Seq<char>) -> (Seq<char>, Seq<char>) {
    let mantissa = text.take(find_exponent(text));
    let point = text::find(mantissa, '.');
    if point < mantissa.len() {
        (mantissa.take(point), mantissa.skip(point + 1))
    } else {
        (mantissa, Seq::empty())
    }
}

/// The digits of an unsigned number, and the power of ten that they count:
/// digits with at most one point among them, at least one digit, and an
/// exponent or none.
pub open spec fn parsed(text: Seq<char>) -> Option<(Seq<char>, int)> {
    let (whole, fraction) = mantissa_of(text);
    match exponent_of(text) {
        Some(exponent) => if text::all_digits(whole) && text::all_digits(fraction) && whole.len()
            + fraction.len() > 0 {
            Some((whole + fraction, exponent - fraction.len()))
        } else {
            None
        },
        None => None,
    }
}

/// A letter in lower case.
pub open spec fn lower(character: char) -> char {
    if 'A' <= character <= 'Z' {
        (character as u32 + 0x20) as char
    } else {
        character
    }
}

/// That `text` is `word`, whatever the case of its letters.
pub open spec fn spells(text: Seq<char>, word: Seq<char>) -> bool {
    text.map_values(|c: char| lower(c)) == word
}

/// The number that `text` spells: a decimal one, rounded to the nearest; or a
/// word for infinity or for no number; behind a sign or none.
pub open spec fn number(text: Seq<char>) -> Option<Double> {
    let (negative, rest) = unsigned(text);
    if spells(rest, "inf"@) || spells(rest, "infinity"@) {
        Some(arithmetic::signed(negative, INFINITE as nat))
    } else if spells(rest, "nan"@) {
        Some(arithmetic::signed(negative, arithmetic::NOT_A_NUMBER as nat))
    } else {
        match parsed(rest) {
            Some((digits, exponent)) => Some(
                arithmetic::signed(negative, scaled(text::digits_value(digits), exponent)),
            ),
            None => None,
        }
    }
}

/// A finite number, where `text` spells one.
pub open spec fn finite_number(text: Seq<char>) -> Option<Double> {
    match number(text) {
        Some(value) => if value.finite() {
            Some(value)
        } else {
            None
        },
        None => None,
    }
}

proof fn lemma_find_exponent_bound(text: Seq<char>)
    ensures
        0 <= find_exponent(text) <= text.len(),
    decreases text.len(),
{
    if text.len() > 0 && text[0] != 'e' && text[0] != 'E' {
        lemma_find_exponent_bound(text.skip(1));
    }
}

proof fn lemma_ten_adds(left: nat, right: nat)
    ensures
        ten_to(left + right) == ten_to(left) * ten_to(right),
    decreases left,
{
    if left > 0 {
        lemma_ten_adds((left - 1) as nat, right);
        let rest = ten_to((left - 1) as nat);
        let other = ten_to(right);
        assert(10 * (rest * other) == (10 * rest) * other) by (nonlinear_arith);
        assert((left + right - 1) as nat == (left - 1) as nat + right);
    } else {
        assert(1 * ten_to(right) == ten_to(right));
    }
}

proof fn lemma_ten_is_large(exponent: nat)
    ensures
        ten_to(exponent) >= pow2(3 * exponent),
        ten_to(exponent) > 0,
    decreases exponent,
{
    lemma2_to64();
    if exponent > 0 {
        lemma_ten_is_large((exponent - 1) as nat);
        lemma_pow2_adds(3, (3 * (exponent - 1)) as nat);
        assert(3 + 3 * (exponent - 1) == 3 * exponent);
    }
}

proof fn lemma_digits_bound(digits: Seq<char>)
    requires
        text::all_digits(digits),
    ensures
        text::digits_value(digits) < ten_to(digits.len()),
    decreases digits.len(),
{
    if digits.len() > 0 {
        let rest = digits.drop_last();
        assert forall|i: int| 0 <= i < rest.len() implies text::is_digit(#[trigger] rest[i]) by {
            assert(text::is_digit(digits[i]));
        }
        lemma_digits_bound(rest);
        assert(text::is_digit(digits[digits.len() - 1]));
    }
}

proof fn lemma_digits_least(digits: Seq<char>)
    requires
        text::all_digits(digits),
        digits.len() > 0,
        digits[0] != '0',
    ensures
        text::digits_value(digits) >= ten_to((digits.len() - 1) as nat),
    decreases digits.len(),
{
    assert(text::is_digit(digits[0]));
    let rest = digits.drop_last();
    if digits.len() == 1 {
        assert(rest =~= Seq::empty());
    } else {
        assert forall|i: int| 0 <= i < rest.len() implies text::is_digit(#[trigger] rest[i]) by {
            assert(text::is_digit(digits[i]));
        }
        lemma_digits_least(rest);
    }
}

proof fn lemma_leading_zero(digits: Seq<char>)
    requires
        digits.len() > 0,
        digits[0] == '0',
    ensures
        text::digits_value(digits.skip(1)) == text::digits_value(digits),
    decreases digits.len(),
{
    if digits.len() == 1 {
        assert(digits.skip(1) =~= Seq::empty());
        assert(digits.drop_last() =~= Seq::empty());
    } else {
        lemma_leading_zero(digits.drop_last());
        assert(digits.skip(1).drop_last() =~= digits.drop_last().skip(1));
    }
}

/// Far past the largest number.
proof fn lemma_scaled_overflow(digits: nat, length: nat, exponent: int)
    requires
        length > 0,
        digits >= ten_to((length - 1) as nat),
        exponent + length > 400,
    ensures
        scaled(digits, exponent) == INFINITE,
{
    let top = double::double_units(INFINITE as nat);
    assert(INFINITE as nat / 0x10_0000_0000_0000 == 2047);
    assert(INFINITE as nat % 0x10_0000_0000_0000 == 0);
    lemma2_to64_rest();
    lemma_pow2_adds(52, 2046);
    lemma_pow2_adds(1024, 1074);
    assert(top == pow2(1024) * pow2(1074));
    let reach = (exponent + length - 1) as nat;
    lemma_ten_is_large(400);
    lemma_pow2_strictly_increases(1024, 1200);
    lemma_ten_adds(400, (reach - 400) as nat);
    lemma_ten_is_large((reach - 400) as nat);
    let unit = pow2(1074);
    assert(ten_to(reach) >= pow2(1024)) by (nonlinear_arith)
        requires
            ten_to(reach) == ten_to(400) * ten_to((reach - 400) as nat),
            ten_to(400) >= pow2(1024),
            ten_to((reach - 400) as nat) >= 1,
    ;
    if exponent >= 0 {
        lemma_ten_adds((length - 1) as nat, exponent as nat);
        let power = ten_to(exponent as nat);
        let least = ten_to((length - 1) as nat);
        assert(digits * power * unit >= top) by (nonlinear_arith)
            requires
                digits >= least,
                least * power >= pow2(1024),
                top == pow2(1024) * unit,
        ;
        assert(top * 1 == top);
        arithmetic::lemma_overflow(digits * power * unit, 1, INFINITE as nat);
        arithmetic::lemma_found(digits * power * unit, 1, INFINITE as nat);
    } else {
        let den = ten_to((-exponent) as nat);
        lemma_ten_is_large((-exponent) as nat);
        lemma_ten_adds(reach, (-exponent) as nat);
        assert(digits * unit >= top * den) by (nonlinear_arith)
            requires
                digits >= ten_to(reach) * den,
                ten_to(reach) >= pow2(1024),
                top == pow2(1024) * unit,
        ;
        arithmetic::lemma_overflow(digits * unit, den, INFINITE as nat);
        arithmetic::lemma_found(digits * unit, den, INFINITE as nat);
    }
}

/// Far below half of the smallest number.
proof fn lemma_scaled_underflow(digits: nat, length: nat, exponent: int)
    requires
        digits < ten_to(length),
        exponent + length < -400,
    ensures
        scaled(digits, exponent) == 0,
{
    let den = ten_to((-exponent) as nat);
    let rest = (-exponent - length) as nat;
    lemma_ten_adds(length, rest);
    lemma_ten_is_large(rest);
    lemma_pow2_strictly_increases(1075, 3 * rest);
    lemma_pow2_unfold(1075);
    lemma_pow2_pos(1074);
    let unit = pow2(1074);
    assert(2 * (digits * unit) < den) by (nonlinear_arith)
        requires
            digits + 1 <= ten_to(length),
            den == ten_to(length) * ten_to(rest),
            ten_to(rest) >= 2 * unit,
            unit > 0,
    ;
    assert(double::double_units(0) == 0);
    assert(double::double_units(1) == 1);
    assert((0 + 1) * den == den) by (nonlinear_arith);
    assert(arithmetic::is_nearest(digits * unit, den, 0));
    arithmetic::lemma_found(digits * unit, den, 0);
}

/// The pattern nearest to a fraction, of which twice the numerator is given.
fn nearest_of(twice: &mut Natural, denominator: &Natural, Ghost(numerator): Ghost<nat>) -> (result:
    u64)
    requires
        old(twice)@ == 2 * numerator,
        denominator@ > 0,
    ensures
        result == arithmetic::nearest(numerator, denominator@),
        result <= INFINITE,
{
    let mut low: u64 = 0;
    let mut high: u64 = INFINITE;
    while low < high
        invariant
            low <= high <= INFINITE,
            twice@ == 2 * numerator,
            denominator@ > 0,
            low > 0 ==> !settles(numerator, denominator@, (low - 1) as nat),
            high < INFINITE ==> settles(numerator, denominator@, high as nat),
        decreases high - low,
    {
        let pattern: u64 = low + (high - low) / 2;
        let exponent: u64 = pattern / 0x10_0000_0000_0000;
        let fraction: u64 = pattern % 0x10_0000_0000_0000;
        let place: u64 = if exponent == 0 {
            0
        } else {
            exponent - 1
        };
        let significand: u64 = if exponent == 0 {
            fraction
        } else {
            0x10_0000_0000_0000 + fraction
        };
        assert(place * 0x10_0000_0000_0000 + significand == pattern);
        let mut middle: Natural = denominator.times_power_of_two(place as usize);
        let odd: u64 = 2 * significand + 1;
        middle.multiply_add(odd, 0);
        proof {
            lemma_middle(denominator@, place as nat, significand as nat);
        }
        let settled: bool = match twice.stands_to(&mut middle) {
            Standing::Below => true,
            Standing::Same => pattern % 2 == 0,
            Standing::Above => false,
        };
        assert(settled == settles(numerator, denominator@, pattern as nat));
        if settled {
            high = pattern;
        } else {
            low = pattern + 1;
        }
    }
    proof {
        lemma_settled(numerator, denominator@, low as nat);
        arithmetic::lemma_found(numerator, denominator@, low as nat);
    }
    low
}

/// Twice the middle between a pattern and the next one.
spec fn middle_above(denominator: nat, pattern: nat) -> nat {
    (double::double_units(pattern) + double::double_units(pattern + 1)) * denominator
}

/// That a number does not lie closer to the next pattern.
spec fn settles(numerator: nat, denominator: nat, pattern: nat) -> bool {
    let middle = middle_above(denominator, pattern);
    2 * numerator < middle || (2 * numerator == middle && pattern % 2 == 0)
}

proof fn lemma_middle(denominator: nat, place: nat, significand: nat)
    requires
        significand < 0x20_0000_0000_0000,
        place > 0 ==> significand >= 0x10_0000_0000_0000,
    ensures
        middle_above(denominator, place * 0x10_0000_0000_0000 + significand) == denominator * pow2(
            place,
        ) * (2 * significand + 1),
{
    arithmetic::lemma_pattern_units(place, significand);
    let scale = pow2(place);
    let here = significand * scale;
    let above = (significand + 1) * scale;
    assert((here + above) * denominator == denominator * scale * (2 * significand + 1))
        by (nonlinear_arith)
        requires
            here == significand * scale,
            above == (significand + 1) * scale,
    ;
}

proof fn lemma_settled(numerator: nat, denominator: nat, pattern: nat)
    requires
        pattern <= INFINITE,
        pattern > 0 ==> !settles(numerator, denominator, (pattern - 1) as nat),
        pattern < INFINITE ==> settles(numerator, denominator, pattern),
    ensures
        arithmetic::is_nearest(numerator, denominator, pattern),
{
}

/// An exponent past this one is as good as this one.
pub const FAR: i128 = 0x10_0000_0000_0000_0000_0000_0000;

spec fn held(exponent: int) -> int {
    if exponent > FAR {
        FAR as int
    } else if exponent < -FAR {
        -FAR
    } else {
        exponent
    }
}

/// What the exponent text from `from` on says, held at a number that is far
/// past all that make a difference.
fn read_exponent(characters: &[char], from: usize) -> (result: Option<i128>)
    requires
        from <= characters.len(),
    ensures
        match exponent_value(characters@.skip(from as int)) {
            Some(exponent) => result is Some && result->Some_0 == held(exponent),
            None => result is None,
        },
{
    let ghost text = characters@.skip(from as int);
    let mut at: usize = from;
    let mut negative: bool = false;
    if at < characters.len() && (characters[at] == '-' || characters[at] == '+') {
        negative = characters[at] == '-';
        at = at + 1;
    }
    let start: usize = at;
    let ghost digits = unsigned(text).1;
    assert(digits =~= characters@.skip(start as int));
    if start >= characters.len() {
        return None;
    }
    let mut value: i128 = 0;
    assert(digits.take(0) =~= Seq::empty());
    while at < characters.len()
        invariant
            start <= at <= characters.len(),
            text == characters@.skip(from as int),
            digits == characters@.skip(start as int),
            digits == unsigned(text).1,
            digits.len() > 0,
            0 <= value <= FAR,
            value == held(text::digits_value(digits.take(at - start)) as int),
            forall|i: int| 0 <= i < at - start ==> text::is_digit(#[trigger] digits[i]),
            exponent_value(text) is Some <==> text::all_digits(digits),
        decreases characters.len() - at,
    {
        let character: char = characters[at];
        assert(character == digits[at - start]);
        if !('0' <= character && character <= '9') {
            return None;
        }
        assert(digits.take(at - start + 1).drop_last() =~= digits.take(at - start));
        let next: i128 = value * 10 + (character as u32 - 48) as i128;
        value = if next > FAR {
            FAR
        } else {
            next
        };
        at = at + 1;
    }
    assert(digits.take(digits.len() as int) =~= digits);
    if negative {
        Some(-value)
    } else {
        Some(value)
    }
}

/// The digits from `from` on as a number.
fn read_digits(digits: &Vec<char>, from: usize) -> (result: Natural)
    requires
        from <= digits.len(),
        text::all_digits(digits@),
    ensures
        result@ == text::digits_value(digits@.skip(from as int)),
{
    let mut result: Natural = Natural::zero();
    let ghost tail = digits@.skip(from as int);
    let mut at: usize = from;
    assert(tail.take(0) =~= Seq::empty());
    while at < digits.len()
        invariant
            from <= at <= digits.len(),
            tail == digits@.skip(from as int),
            text::all_digits(digits@),
            result@ == text::digits_value(tail.take(at - from)),
        decreases digits.len() - at,
    {
        assert(text::is_digit(digits@[at as int]));
        assert(tail.take(at - from + 1).drop_last() =~= tail.take(at - from));
        result.multiply_add(10, (digits[at] as u32 - 48) as u64);
        at = at + 1;
    }
    assert(tail.take(tail.len() as int) =~= tail);
    result
}

/// Multiplies a number by ten, `times` times.
fn times_ten_to(number: &mut Natural, times: u128)
    ensures
        final(number)@ == old(number)@ * ten_to(times as nat),
{
    let mut done: u128 = 0;
    assert(number@ * 1 == number@);
    while done < times
        invariant
            done <= times,
            number@ == old(number)@ * ten_to(done as nat),
        decreases times - done,
    {
        number.multiply_add(10, 0);
        proof {
            let start = old(number)@;
            let power = ten_to(done as nat);
            assert(start * power * 10 == start * (10 * power)) by (nonlinear_arith);
        }
        done = done + 1;
    }
}

/// The magnitude that digits stand for, the last `fraction` of them behind the
/// point, with an exponent that may be held short of the true one.
fn scale(digits: &Vec<char>, fraction: usize, exponent: i128, Ghost(true_exponent): Ghost<int>) -> (result:
    u64)
    requires
        text::all_digits(digits@),
        fraction <= digits.len(),
        exponent == held(true_exponent),
    ensures
        result == scaled(text::digits_value(digits@), true_exponent - fraction),
        result <= INFINITE,
{
    let ghost value = text::digits_value(digits@);
    let mut start: usize = 0;
    assert(digits@.skip(0) =~= digits@);
    while start < digits.len() && digits[start] == '0'
        invariant
            start <= digits.len(),
            text::digits_value(digits@.skip(start as int)) == value,
        decreases digits.len() - start,
    {
        proof {
            lemma_leading_zero(digits@.skip(start as int));
            assert(digits@.skip(start as int).skip(1) =~= digits@.skip(start + 1));
        }
        start = start + 1;
    }
    let ghost power = true_exponent - fraction;
    let ghost kept = digits@.skip(start as int);
    proof {
        lemma2_to64();
        if power >= 0 {
            lemma_ten_is_large(power as nat);
        } else {
            lemma_ten_is_large((-power) as nat);
        }
        lemma_pow2_pos(1074);
    }
    if start >= digits.len() {
        proof {
            assert(kept =~= Seq::empty());
            assert(value == 0);
            if power >= 0 {
                assert(0 * ten_to(power as nat) * pow2(1074) == 0) by (nonlinear_arith);
                arithmetic::lemma_nothing(1);
            } else {
                assert(0 * pow2(1074) == 0);
                arithmetic::lemma_nothing(ten_to((-power) as nat));
            }
        }
        return 0;
    }
    let length: i128 = (digits.len() - start) as i128;
    let reach: i128 = exponent - fraction as i128 + length;
    proof {
        assert forall|i: int| 0 <= i < kept.len() implies text::is_digit(#[trigger] kept[i]) by {
            assert(text::is_digit(digits@[start + i]));
        }
        lemma_digits_bound(kept);
        lemma_digits_least(kept);
    }
    if reach > 400 {
        proof {
            lemma_scaled_overflow(value, length as nat, power);
        }
        return INFINITE;
    }
    if reach < -400 {
        proof {
            lemma_scaled_underflow(value, length as nat, power);
        }
        return 0;
    }
    assert(true_exponent == exponent);
    let tens: i128 = exponent - fraction as i128;
    let mut number: Natural = read_digits(digits, start);
    let mut denominator: Natural = Natural::zero();
    denominator.multiply_add(0, 1);
    if tens >= 0 {
        times_ten_to(&mut number, tens as u128);
    } else {
        times_ten_to(&mut denominator, (-tens) as u128);
    }
    let ghost numerator = number@ * pow2(1074);
    let mut twice: Natural = number.times_power_of_two(1075);
    proof {
        lemma_pow2_unfold(1075);
        let base = number@;
        assert(base * (2 * pow2(1074)) == 2 * (base * pow2(1074))) by (nonlinear_arith);
        assert(1 * ten_to((-power) as nat) == ten_to((-power) as nat));
    }
    nearest_of(&mut twice, &denominator, Ghost(numerator))
}

fn spelled(characters: &[char], from: usize, word: &str) -> (result: bool)
    requires
        from <= characters.len(),
    ensures
        result == spells(characters@.skip(from as int), word@),
{
    let letters: Vec<char> = text::chars_of(word);
    let ghost rest = characters@.skip(from as int);
    let ghost lowered = rest.map_values(|c: char| lower(c));
    if characters.len() - from != letters.len() {
        assert(lowered.len() != word@.len());
        return false;
    }
    let mut at: usize = 0;
    while at < letters.len()
        invariant
            at <= letters.len(),
            letters@ == word@,
            letters.len() == characters.len() - from,
            from <= characters.len(),
            rest == characters@.skip(from as int),
            lowered == rest.map_values(|c: char| lower(c)),
            forall|i: int| 0 <= i < at ==> lowered[i] == word@[i],
        decreases letters.len() - at,
    {
        let character: char = characters[from + at];
        assert(lowered[at as int] == lower(character));
        if lower_case(character) != letters[at] {
            return false;
        }
        at = at + 1;
    }
    assert(lowered =~= word@);
    true
}

fn lower_case(character: char) -> (result: char)
    ensures
        result == lower(character),
{
    match character {
        'A' => 'a',
        'B' => 'b',
        'C' => 'c',
        'D' => 'd',
        'E' => 'e',
        'F' => 'f',
        'G' => 'g',
        'H' => 'h',
        'I' => 'i',
        'J' => 'j',
        'K' => 'k',
        'L' => 'l',
        'M' => 'm',
        'N' => 'n',
        'O' => 'o',
        'P' => 'p',
        'Q' => 'q',
        'R' => 'r',
        'S' => 's',
        'T' => 't',
        'U' => 'u',
        'V' => 'v',
        'W' => 'w',
        'X' => 'x',
        'Y' => 'y',
        'Z' => 'z',
        _ => character,
    }
}

/// The digits of `characters[from..to]`, where it holds nothing else.
fn digits_in(characters: &[char], from: usize, to: usize) -> (result: Option<Vec<char>>)
    requires
        from <= to <= characters.len(),
    ensures
        result is Some == text::all_digits(characters@.subrange(from as int, to as int)),
        result matches Some(digits) ==> digits@ == characters@.subrange(from as int, to as int),
{
    let ghost piece = characters@.subrange(from as int, to as int);
    let mut at: usize = from;
    while at < to
        invariant
            from <= at <= to <= characters.len(),
            piece == characters@.subrange(from as int, to as int),
            forall|i: int| 0 <= i < at - from ==> text::is_digit(#[trigger] piece[i]),
        decreases to - at,
    {
        let character: char = characters[at];
        assert(character == piece[at - from]);
        if !('0' <= character && character <= '9') {
            return None;
        }
        at = at + 1;
    }
    Some(text::copy_range(characters, from, to))
}

/// The magnitude of the unsigned number from `from` on, where it is one.
fn read_unsigned(characters: &[char], from: usize) -> (result: Option<u64>)
    requires
        from <= characters.len(),
    ensures
        match parsed(characters@.skip(from as int)) {
            Some((digits, exponent)) => {
                &&& result is Some
                &&& result->Some_0 == scaled(text::digits_value(digits), exponent)
                &&& result->Some_0 <= INFINITE
            },
            None => result is None,
        },
{
    let ghost rest = characters@.skip(from as int);
    let mut sign: usize = from;
    while sign < characters.len() && characters[sign] != 'e' && characters[sign] != 'E'
        invariant
            from <= sign <= characters.len(),
            rest == characters@.skip(from as int),
            find_exponent(rest) == sign - from + find_exponent(characters@.skip(sign as int)),
        decreases characters.len() - sign,
    {
        assert(characters@.skip(sign as int).skip(1) =~= characters@.skip(sign + 1));
        sign = sign + 1;
    }
    assert(find_exponent(rest) == sign - from);
    let ghost mantissa = rest.take(sign - from);
    let piece: Vec<char> = text::copy_range(characters, from, sign);
    assert(piece@ =~= mantissa);
    let point: usize = text::find_from(piece.as_slice(), 0, '.');
    assert(piece@.skip(0) =~= piece@);
    let ghost parts = mantissa_of(rest);
    assert(piece@.subrange(0, point as int) =~= parts.0);
    let tail: usize = if point < piece.len() {
        point + 1
    } else {
        point
    };
    assert(piece@.subrange(tail as int, piece.len() as int) =~= parts.1);
    let exponent: i128 = if sign < characters.len() {
        assert(rest.skip(sign - from + 1) =~= characters@.skip(sign + 1));
        match read_exponent(characters, sign + 1) {
            Some(exponent) => exponent,
            None => return None,
        }
    } else {
        0
    };
    let mut digits: Vec<char> = match digits_in(piece.as_slice(), 0, point) {
        Some(digits) => digits,
        None => return None,
    };
    let mut fraction: Vec<char> = match digits_in(piece.as_slice(), tail, piece.len()) {
        Some(digits) => digits,
        None => return None,
    };
    let count: usize = fraction.len();
    digits.append(&mut fraction);
    if digits.len() == 0 {
        return None;
    }
    proof {
        assert forall|i: int| 0 <= i < digits@.len() implies text::is_digit(#[trigger] digits@[i]) by {
            if i < parts.0.len() {
                assert(text::is_digit(parts.0[i]));
            } else {
                assert(text::is_digit(parts.1[i - parts.0.len()]));
            }
        }
    }
    let ghost true_exponent = exponent_of(rest)->Some_0;
    Some(scale(&digits, count, exponent, Ghost(true_exponent)))
}

/// The number that `characters` spells, where it spells one.
pub fn read(characters: &[char]) -> (result: Option<Double>)
    ensures
        result == number(characters@),
{
    let mut from: usize = 0;
    let mut negative: bool = false;
    if characters.len() > 0 && (characters[0] == '-' || characters[0] == '+') {
        negative = characters[0] == '-';
        from = 1;
    }
    let ghost rest = unsigned(characters@).1;
    assert(rest =~= characters@.skip(from as int));
    let magnitude: u64 = if spelled(characters, from, "inf") || spelled(
        characters,
        from,
        "infinity",
    ) {
        INFINITE
    } else if spelled(characters, from, "nan") {
        arithmetic::NOT_A_NUMBER
    } else {
        match read_unsigned(characters, from) {
            Some(magnitude) => magnitude,
            None => return None,
        }
    };
    if negative {
        Some(Double::from_bits(magnitude + SIGN))
    } else {
        Some(Double::from_bits(magnitude))
    }
}

/// The finite number that `characters` spells, where it spells one.
pub fn read_finite(characters: &[char]) -> (result: Option<Double>)
    ensures
        result == finite_number(characters@),
{
    match read(characters) {
        Some(value) => if value.is_finite() {
            Some(value)
        } else {
            None
        },
        None => None,
    }
}

/// [`read`] on a text.
pub fn read_text(text: &str) -> (result: Option<Double>)
    ensures
        result == number(text@),
{
    let characters: Vec<char> = text::chars_of(text);
    read(characters.as_slice())
}

} // verus!

use igrf::decimal;
use igrf::double::{Double, Single};
use igrf::text;

fn d(value: f64) -> Double {
    Double::from_bits(value.to_bits())
}

fn same(library: Double, native: f64, what: &str) {
    let value = f64::from_bits(library.to_bits());
    if native.is_nan() {
        assert!(value.is_nan(), "{what}: {value} is a number");
    } else {
        assert_eq!(value.to_bits(), native.to_bits(), "{what}: {value} != {native}");
    }
}

/// A generator of bit patterns, always the same ones.
struct Patterns(u64);

impl Patterns {
    fn draw(&mut self) -> u64 {
        self.0 ^= self.0 << 13;
        self.0 ^= self.0 >> 7;
        self.0 ^= self.0 << 17;
        self.0
    }

    fn number(&mut self) -> f64 {
        let bits = self.draw();
        match self.draw() % 5 {
            0 => f64::from_bits(bits),
            1 => (bits as i64 >> 40) as f64 / 8.0,
            2 => f64::from_bits((bits & 0x800f_ffff_ffff_ffff) | ((1000 + bits % 50) << 52)),
            3 => f64::from_bits(bits & 0x800f_ffff_ffff_ffff),
            _ => {
                let special = [
                    0.0,
                    -0.0,
                    1.0,
                    -1.0,
                    f64::INFINITY,
                    f64::NEG_INFINITY,
                    f64::NAN,
                    f64::MAX,
                    f64::MIN_POSITIVE,
                    f64::EPSILON,
                    f64::from_bits(1),
                    0.1,
                ];
                special[(bits % 12) as usize]
            }
        }
    }
}

#[test]
fn arithmetic_rounds_as_the_machine_does() {
    let mut patterns = Patterns(0x9e37_79b9_7f4a_7c15);
    for _ in 0..60_000 {
        let (a, b) = (patterns.number(), patterns.number());
        let (x, y) = (d(a), d(b));
        same(x.plus(y), a + b, &format!("{a:e} + {b:e}"));
        same(x.minus(y), a - b, &format!("{a:e} - {b:e}"));
        same(x.times(y), a * b, &format!("{a:e} * {b:e}"));
        same(x.over(y), a / b, &format!("{a:e} / {b:e}"));
        same(x.sqrt(), a.sqrt(), &format!("sqrt {a:e}"));
    }
}

#[test]
fn order_and_signs_are_those_of_the_machine() {
    let mut patterns = Patterns(0x1234_5678_9abc_def1);
    for _ in 0..60_000 {
        let (a, b) = (patterns.number(), patterns.number());
        let (x, y) = (d(a), d(b));
        assert_eq!(x.lt(y), a < b, "{a} < {b}");
        assert_eq!(x.le(y), a <= b, "{a} <= {b}");
        assert_eq!(x.same(y), a == b, "{a} == {b}");
        assert_eq!(x.total_le(y), a.total_cmp(&b).is_le(), "{a} {b}");
        assert_eq!(x.is_nan(), a.is_nan());
        assert_eq!(x.is_finite(), a.is_finite());
        assert_eq!(x.abs().to_bits(), a.abs().to_bits());
        assert_eq!(x.neg().to_bits(), (-a).to_bits());
        if a != b {
            same(x.min(y), a.min(b), &format!("min {a} {b}"));
            same(x.max(y), a.max(b), &format!("max {a} {b}"));
        }
        if a <= b {
            let c = patterns.number();
            same(d(c).clamp(x, y), c.clamp(a, b), &format!("clamp {c} {a} {b}"));
        }
    }
}

#[test]
fn narrowing_and_widening_are_those_of_the_machine() {
    let mut patterns = Patterns(0xdead_beef_cafe_f00d);
    for _ in 0..60_000 {
        let a = patterns.number();
        let narrow = d(a).narrow();
        if a.is_nan() {
            assert!(narrow.widen().is_nan());
        } else {
            assert_eq!(narrow.bits, (a as f32).to_bits(), "{a:e}");
        }
        let single = f32::from_bits(patterns.draw() as u32);
        same(Single::from_bits(single.to_bits()).widen(), single as f64, "widen");
    }
}

#[test]
fn whole_parts_are_those_of_the_machine() {
    let mut patterns = Patterns(0x0bad_5eed_0bad_5eed);
    for _ in 0..60_000 {
        let a = patterns.number();
        same(d(a).trunc(), a.trunc(), &format!("trunc {a:e}"));
        same(d(a).floor(), a.floor(), &format!("floor {a:e}"));
        assert_eq!(d(a).round_to_whole(), a.round() as i64, "round {a:e}");
        assert_eq!(d(a).cut_to_whole(), a as i64, "cut {a:e}");
        let whole = patterns.draw() as i64 >> (patterns.draw() % 64);
        same(Double::whole(whole), whole as f64, &format!("{whole}"));
    }
    assert_eq!(d(2.5).round_to_whole(), 3);
    assert_eq!(d(-2.5).round_to_whole(), -3);
    assert_eq!(d(0.49999999999999994).round_to_whole(), 0);
}

#[test]
fn decimals_are_read_as_the_machine_reads_them() {
    let texts = [
        "0", "-0", "+1", "1.", ".5", "-.5e-3", "1e400", "-1e400", "1e-400", "inf", "-Infinity",
        "NaN", "nan", "+nan", "", ".", "e5", "1e", "1e+", "--1", "+-1", "1_0", " 1", "1 ",
        "0x10", "4.9e-324", "2.4703282292062327e-324", "2.4703282292062328e-324",
        "1.7976931348623157e308", "1.7976931348623159e308", "9007199254740993",
        "123456789012345678901234567890.5", "0.1", "0.30000000000000004",
        "179769313486231580793728971405303415079934132710037826936173778980444968292764750946649017977587207096330286416692887910946555547851940402630657488671505820681908902000708383676273854845817711531764475730270069855571366959622842914819860834936475292719074168444365510704342711559699508093042880.0",
        "1e99999999999999999999", "1e-99999999999999999999", "infinit", "infinityx", "i", "\u{661}",
        "000000000000000000000000000000000001.5", "1e0005", "2.2250738585072011e-308",
    ];
    for text in texts {
        let native: Option<f64> = text.parse().ok();
        let library = decimal::read_text(text);
        assert_eq!(library.is_some(), native.is_some(), "{text:?}");
        if let (Some(library), Some(native)) = (library, native) {
            same(library, native, text);
        }
        let characters: Vec<char> = text.chars().collect();
        assert_eq!(
            decimal::read_finite(&characters).is_some(),
            native.is_some_and(f64::is_finite),
            "{text:?}"
        );
    }
    let mut patterns = Patterns(0x5555_1234_aaaa_4321);
    for _ in 0..4_000 {
        let a = patterns.number();
        for text in [format!("{a}"), format!("{a:e}"), format!("{a:.3}"), format!("{a:.17e}")] {
            let native: f64 = text.parse().unwrap();
            same(decimal::read_text(&text).unwrap(), native, &text);
        }
    }
}

#[test]
fn blanks_are_those_of_unicode() {
    for code in 0..=0x10_ffff_u32 {
        if let Some(character) = char::from_u32(code) {
            assert_eq!(
                text::is_whitespace(character),
                character.is_whitespace(),
                "{code:x}"
            );
        }
    }
    for value in ["", " ", "a", "  a b\t\n", "\u{a0}x\u{3000}", "\u{200b}"] {
        assert_eq!(text::trimmed(value), value.trim());
        assert_eq!(text::trimmed(&text::trimmed(value)), value.trim());
        assert_eq!(text::is_blank(value), value.trim().is_empty());
    }
}

#[test]
fn numbers_read_back_as_printed() {
    for value in [0, 7, 10, 25_544, u64::MAX] {
        let printed = text::print(value);
        assert_eq!(printed, value.to_string());
        assert_eq!(text::read_number(&printed, u64::MAX), Some(value));
    }
    assert_eq!(text::read_number("256", 255), None);
    assert_eq!(text::read_number("+255", 255), Some(255));
    assert_eq!(text::read_number("", 255), None);
    assert!(text::holds("abcabd", "abd"));
    assert!(!text::holds("abcab", "abd"));
    assert!(text::holds("abc", ""));
    assert!(text::same("a", "a") && !text::same("a", "b"));
}

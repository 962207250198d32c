//! Colors as 8-bit RGB triples: parsing, hex text, random picks, and the
//! HSL lightness transforms behind the lighten and darken buttons.
use vstd::prelude::*;

verus! {

/// A color as an 8-bit red, green, blue triple.
#[derive(Clone, Copy, Debug, PartialEq, Eq, Structural)]
pub struct Rgb {
    pub r: u8,
    pub g: u8,
    pub b: u8,
}

/// Why a text could not be read as a color.
#[derive(Clone, Copy, Debug, PartialEq, Eq, Structural)]
pub enum ColorError {
    Malformed,
}

#[verifier::external_type_specification]
#[verifier::external_body]
pub struct ExParseColorError(csscolorparser::ParseColorError);

/// The lowercase hexadecimal digit of `d` (for `d < 16`).
pub open spec fn hex_char(d: int) -> char {
    seq!['0', '1', '2', '3', '4', '5', '6', '7', '8', '9', 'a', 'b', 'c', 'd', 'e', 'f'][d]
}

/// The value of a hexadecimal digit, either case.
pub open spec fn hex_value(c: char) -> Option<int> {
    if '0' <= c && c <= '9' {
        Some(c as int - '0' as int)
    } else if 'a' <= c && c <= 'f' {
        Some(c as int - 'a' as int + 10)
    } else if 'A' <= c && c <= 'F' {
        Some(c as int - 'A' as int + 10)
    } else {
        None
    }
}

/// Two lowercase hex digits of a byte.
pub open spec fn byte_hex(b: u8) -> Seq<char> {
    seq![hex_char(b as int / 16), hex_char(b as int % 16)]
}

/// The canonical text of a color: `#rrggbb` in lowercase.
pub open spec fn hex_text(c: Rgb) -> Seq<char> {
    seq!['#'] + byte_hex(c.r) + byte_hex(c.g) + byte_hex(c.b)
}

/// `#` followed by exactly six hexadecimal digits.
pub open spec fn is_hex6(s: Seq<char>) -> bool {
    &&& s.len() == 7
    &&& s[0] == '#'
    &&& forall|i: int| 1 <= i < 7 ==> (#[trigger] hex_value(s[i])) is Some
}

/// The byte written by the two hex digits at `i` and `i + 1`.
pub open spec fn hex_byte_at(s: Seq<char>, i: int) -> u8 {
    (hex_value(s[i])->0 * 16 + hex_value(s[i + 1])->0) as u8
}

/// The red, green and blue bytes of a `#rrggbb` text, alpha opaque.
pub open spec fn hex6_rgba(s: Seq<char>) -> (u8, u8, u8, u8) {
    (hex_byte_at(s, 1), hex_byte_at(s, 3), hex_byte_at(s, 5), 255u8)
}

/// The color of a `#rrggbb` text.
pub open spec fn hex6_color(s: Seq<char>) -> Rgb {
    Rgb { r: hex_byte_at(s, 1), g: hex_byte_at(s, 3), b: hex_byte_at(s, 5) }
}

/// What `csscolorparser::parse` yields for a text, as 8-bit RGBA, or `None`
/// where it reports an error.
pub uninterp spec fn parsed_rgba(s: Seq<char>) -> Option<(u8, u8, u8, u8)>;

/// Relies on `csscolorparser::parse` and `Color::to_rgba8`: the result depends on
/// the text alone, and a `#rrggbb` text gives its three bytes with full alpha.
#[verifier::external_body]
fn css_parse(s: &str) -> (r: Result<(u8, u8, u8, u8), csscolorparser::ParseColorError>)
    ensures
        match r {
            Ok(t) => parsed_rgba(s@) == Some(t),
            Err(_) => parsed_rgba(s@) is None,
        },
        is_hex6(s@) ==> r is Ok && r->Ok_0 == hex6_rgba(s@),
{
    match csscolorparser::parse(s) {
        Ok(c) => {
            let [r, g, b, a] = c.to_rgba8();
            Ok((r, g, b, a))
        },
        Err(e) => Err(e),
    }
}

/// Relies on `RandomColor::to_hex` of random_color: a fresh random color
/// written as `#` and two lowercase hex digits per channel.
#[verifier::external_body]
fn random_hex() -> (r: String)
    ensures
        is_hex6(r@),
{
    random_color::RandomColor::new().to_hex()
}

/// The text of the digit `d < 16`.
fn hex_digit_str(d: u8) -> (r: &'static str)
    requires
        d < 16,
    ensures
        r@ == seq![hex_char(d as int)],
{
    proof {
        reveal_strlit("0");
        reveal_strlit("1");
        reveal_strlit("2");
        reveal_strlit("3");
        reveal_strlit("4");
        reveal_strlit("5");
        reveal_strlit("6");
        reveal_strlit("7");
        reveal_strlit("8");
        reveal_strlit("9");
        reveal_strlit("a");
        reveal_strlit("b");
        reveal_strlit("c");
        reveal_strlit("d");
        reveal_strlit("e");
        reveal_strlit("f");
    }
    match d {
        0 => "0",
        1 => "1",
        2 => "2",
        3 => "3",
        4 => "4",
        5 => "5",
        6 => "6",
        7 => "7",
        8 => "8",
        9 => "9",
        10 => "a",
        11 => "b",
        12 => "c",
        13 => "d",
        14 => "e",
        _ => "f",
    }
}

/// The decimal digits of `n`, most significant first.
pub open spec fn decimal_text(n: nat) -> Seq<char>
    decreases n,
{
    if n < 10 {
        seq![hex_char(n as int)]
    } else {
        decimal_text(n / 10) + seq![hex_char((n % 10) as int)]
    }
}

/// Appends the decimal digits of `n` to `out`.
pub fn push_decimal(out: &mut String, n: u64)
    ensures
        final(out)@ == old(out)@ + decimal_text(n as nat),
    decreases n,
{
    if n >= 10 {
        push_decimal(out, n / 10);
    }
    out.append(hex_digit_str((n % 10) as u8));
}

fn push_byte_hex(out: &mut String, b: u8)
    ensures
        final(out)@ == old(out)@ + byte_hex(b),
{
    out.append(hex_digit_str(b / 16));
    out.append(hex_digit_str(b % 16));
    assert(final(out)@ =~= old(out)@ + byte_hex(b));
}

/// Lightness is measured in units of 1/51000: `LIGHT_FULL` is white, `LIGHT_HALF`
/// the fully saturated middle.
pub const LIGHT_FULL: u64 = 51000;

/// Half of `LIGHT_FULL`.
pub const LIGHT_HALF: u64 = 25500;

/// The largest channel.
pub open spec fn max3(c: Rgb) -> int {
    if c.r >= c.g && c.r >= c.b {
        c.r as int
    } else if c.g >= c.b {
        c.g as int
    } else {
        c.b as int
    }
}

/// The smallest channel.
pub open spec fn min3(c: Rgb) -> int {
    if c.r <= c.g && c.r <= c.b {
        c.r as int
    } else if c.g <= c.b {
        c.g as int
    } else {
        c.b as int
    }
}

/// Twice the HSL lightness, in 1/255 units: `max + min`, from 0 to 510.
pub open spec fn light_sum(c: Rgb) -> int {
    max3(c) + min3(c)
}

/// The HSL lightness of `c` in units of 1/51000.
pub open spec fn lightness(c: Rgb) -> int {
    100 * light_sum(c)
}

/// Denominator of a channel moved to half lightness with hue and saturation
/// kept (`s` is the color's `light_sum`); black and white become gray.
pub open spec fn mid_den(s: int) -> int {
    if s == 0 || s == 510 {
        2
    } else if s <= 255 {
        s
    } else {
        510 - s
    }
}

/// Numerator of channel `ch` moved to half lightness, over `mid_den(s)`.
pub open spec fn mid_num(ch: int, s: int) -> int {
    if s == 0 || s == 510 {
        255
    } else if s <= 255 {
        255 * ch
    } else {
        255 * (255 - s + ch)
    }
}

/// `n / d` rounded to the nearest integer, halves up.
pub open spec fn round_div(n: int, d: int) -> int {
    (2 * n + d) / (2 * d)
}

/// The numerator of a channel at lightness `t`, over `d * LIGHT_HALF`, where
/// `p / d` is the channel at half lightness: towards black below the middle,
/// towards white above it.
pub open spec fn light_numer(p: int, d: int, t: int) -> int {
    if t <= LIGHT_HALF {
        p * t
    } else {
        255 * d * LIGHT_HALF - (255 * d - p) * (LIGHT_FULL - t)
    }
}

/// Channel `ch` of a color with `light_sum` `s`, carried to lightness `t`
/// with hue and saturation kept, rounded to the nearest integer.
pub open spec fn channel_at(ch: int, s: int, t: int) -> int {
    round_div(light_numer(mid_num(ch, s), mid_den(s), t), mid_den(s) * LIGHT_HALF)
}

/// `c` with its HSL lightness set to `t`, hue and saturation kept.
pub open spec fn with_lightness(c: Rgb, t: int) -> Rgb {
    let s = light_sum(c);
    Rgb {
        r: channel_at(c.r as int, s, t) as u8,
        g: channel_at(c.g as int, s, t) as u8,
        b: channel_at(c.b as int, s, t) as u8,
    }
}

/// Lightness raised by `amount` percent of the full scale, capped at white.
pub open spec fn lighter_target(c: Rgb, amount: int) -> int {
    if lightness(c) + 510 * amount >= LIGHT_FULL {
        LIGHT_FULL as int
    } else {
        lightness(c) + 510 * amount
    }
}

/// Lightness lowered by `amount` percent of the full scale, floored at black.
pub open spec fn darker_target(c: Rgb, amount: int) -> int {
    if lightness(c) <= 510 * amount {
        0
    } else {
        lightness(c) - 510 * amount
    }
}

/// `c` lightened by `amount` percent.
pub open spec fn lighten_spec(c: Rgb, amount: int) -> Rgb {
    with_lightness(c, lighter_target(c, amount))
}

/// `c` darkened by `amount` percent.
pub open spec fn darken_spec(c: Rgb, amount: int) -> Rgb {
    with_lightness(c, darker_target(c, amount))
}

/// The lightest color.
pub open spec fn white() -> Rgb {
    Rgb { r: 255, g: 255, b: 255 }
}

/// The darkest color.
pub open spec fn black() -> Rgb {
    Rgb { r: 0, g: 0, b: 0 }
}

proof fn lemma_max_min(c: Rgb)
    ensures
        min3(c) <= c.r <= max3(c),
        min3(c) <= c.g <= max3(c),
        min3(c) <= c.b <= max3(c),
        0 <= min3(c) <= max3(c) <= 255,
        light_sum(c) == 0 ==> c == black(),
        light_sum(c) == 510 ==> c == white(),
{
}

proof fn lemma_mid(ch: int, c: Rgb)
    requires
        min3(c) <= ch <= max3(c),
        0 <= min3(c) <= max3(c) <= 255,
    ensures
        1 <= mid_den(light_sum(c)) <= 510,
        0 <= mid_num(ch, light_sum(c)) <= 255 * mid_den(light_sum(c)),
{
    let s = light_sum(c);
    if s == 0 || s == 510 {
    } else if s <= 255 {
        assert(ch <= s);
    } else {
        assert(255 - s + ch >= 0);
        assert(255 - s + ch <= 510 - s);
        assert(255 * (255 - s + ch) <= 255 * (510 - s)) by (nonlinear_arith)
            requires 255 - s + ch <= 510 - s;
    }
}

proof fn lemma_round_div_bound(n: int, d: int)
    requires
        0 <= n <= 255 * d,
        d > 0,
    ensures
        0 <= round_div(n, d) <= 255,
{
    assert(0 <= (2 * n + d) / (2 * d)) by (nonlinear_arith)
        requires 0 <= n, d > 0;
    assert((2 * n + d) / (2 * d) <= 255) by (nonlinear_arith)
        requires 2 * n + d < 256 * (2 * d), d > 0;
}

proof fn lemma_channel_bound(p: int, d: int, t: int)
    requires
        1 <= d <= 510,
        0 <= p <= 255 * d,
        0 <= t <= LIGHT_FULL,
    ensures
        0 <= round_div(light_numer(p, d, t), d * LIGHT_HALF) <= 255,
{
    if t <= LIGHT_HALF {
        assert(0 <= p * t <= 255 * (d * LIGHT_HALF)) by (nonlinear_arith)
            requires 0 <= p <= 255 * d, 0 <= t <= 25500;
        lemma_round_div_bound(p * t, d * LIGHT_HALF);
    } else {
        assert(0 <= (255 * d - p) * (LIGHT_FULL - t) <= 255 * d * LIGHT_HALF) by (nonlinear_arith)
            requires 0 <= 255 * d - p <= 255 * d, 0 <= 51000 - t <= 25500;
        lemma_round_div_bound(
            255 * d * LIGHT_HALF - (255 * d - p) * (LIGHT_FULL - t),
            d * LIGHT_HALF,
        );
    }
}

proof fn lemma_channel_extremes(ch: int, s: int)
    requires
        0 <= s <= 510,
    ensures
        channel_at(ch, s, LIGHT_FULL as int) == 255,
        channel_at(ch, s, 0) == 0,
{
    let d = mid_den(s);
    assert(d >= 1);
    let big = d * LIGHT_HALF;
    assert(big > 0) by (nonlinear_arith)
        requires d >= 1, big == d * 25500;
    assert((255 * d - mid_num(ch, s)) * (LIGHT_FULL - LIGHT_FULL) == 0);
    assert(255 * d * LIGHT_HALF == 255 * big) by (nonlinear_arith)
        requires big == d * 25500;
    assert((2 * (255 * big) + big) / (2 * big) == 255) by (nonlinear_arith)
        requires big > 0;
    assert(mid_num(ch, s) * 0 == 0);
    assert((2 * 0 + big) / (2 * big) == 0) by (nonlinear_arith)
        requires big > 0;
}

/// Lightening saturates: by the full amount any color becomes white, and
/// white stays white whatever the amount.
pub proof fn lemma_lighten_saturates(c: Rgb, amount: int)
    requires
        0 <= amount <= 100,
    ensures
        lighten_spec(c, 100) == white(),
        lighten_spec(white(), amount) == white(),
{
    lemma_max_min(c);
    lemma_channel_extremes(c.r as int, light_sum(c));
    lemma_channel_extremes(c.g as int, light_sum(c));
    lemma_channel_extremes(c.b as int, light_sum(c));
    lemma_channel_extremes(255, 510);
}

/// Darkening saturates: by the full amount any color becomes black, and
/// black stays black whatever the amount.
pub proof fn lemma_darken_saturates(c: Rgb, amount: int)
    requires
        0 <= amount <= 100,
    ensures
        darken_spec(c, 100) == black(),
        darken_spec(black(), amount) == black(),
{
    lemma_max_min(c);
    lemma_channel_extremes(c.r as int, light_sum(c));
    lemma_channel_extremes(c.g as int, light_sum(c));
    lemma_channel_extremes(c.b as int, light_sum(c));
    lemma_channel_extremes(0, 0);
}

proof fn lemma_numer_monotone(p: int, d: int, t1: int, t2: int)
    requires
        1 <= d,
        0 <= p <= 255 * d,
        0 <= t1 <= t2 <= LIGHT_FULL,
    ensures
        light_numer(p, d, t1) <= light_numer(p, d, t2),
{
    let h = LIGHT_HALF as int;
    let f = LIGHT_FULL as int;
    let q = 255 * d - p;
    assert(0 <= q);
    if t2 <= h {
        assert(p * t1 <= p * t2) by (nonlinear_arith)
            requires 0 <= p, t1 <= t2;
    } else if t1 > h {
        assert(q * (f - t2) <= q * (f - t1)) by (nonlinear_arith)
            requires 0 <= q, f - t2 <= f - t1;
    } else {
        assert(p * t1 <= p * h) by (nonlinear_arith)
            requires 0 <= p, t1 <= h;
        assert(q * (f - t2) <= q * h) by (nonlinear_arith)
            requires 0 <= q, f - t2 <= h, f == 2 * h;
        assert(255 * d * h - q * h == p * h) by (nonlinear_arith)
            requires q == 255 * d - p;
    }
}

proof fn lemma_round_div_monotone(n1: int, n2: int, d: int)
    requires
        n1 <= n2,
        d > 0,
    ensures
        round_div(n1, d) <= round_div(n2, d),
{
    assert((2 * n1 + d) / (2 * d) <= (2 * n2 + d) / (2 * d)) by (nonlinear_arith)
        requires n1 <= n2, d > 0;
}

proof fn lemma_round_div_exact(k: int, d: int)
    requires
        d > 0,
    ensures
        round_div(k * d, d) == k,
{
    assert((2 * (k * d) + d) / (2 * d) == k) by (nonlinear_arith)
        requires d > 0;
}

/// A channel set to the color's own lightness is unchanged.
proof fn lemma_channel_identity(ch: int, c: Rgb)
    requires
        min3(c) <= ch <= max3(c),
        0 <= min3(c) <= max3(c) <= 255,
    ensures
        channel_at(ch, light_sum(c), 100 * light_sum(c)) == ch,
{
    let s = light_sum(c);
    let h = LIGHT_HALF as int;
    let d = mid_den(s);
    if s == 0 {
        lemma_channel_extremes(ch, s);
    } else if s == 510 {
        lemma_channel_extremes(ch, s);
    } else if s <= 255 {
        assert((255 * ch) * (100 * s) == ch * (s * h)) by (nonlinear_arith)
            requires h == 25500;
        assert(s * h > 0) by (nonlinear_arith)
            requires s >= 1, h == 25500;
        lemma_round_div_exact(ch, s * h);
    } else {
        let p = 255 * (255 - s + ch);
        assert(255 * d * h - (255 * d - p) * (LIGHT_FULL - 100 * s) == ch * (d * h)) by (nonlinear_arith)
            requires d == 510 - s, p == 255 * (255 - s + ch), h == 25500;
        assert(d * h > 0) by (nonlinear_arith)
            requires d >= 1, h == 25500;
        lemma_round_div_exact(ch, d * h);
    }
}

/// A channel rises with the target lightness.
proof fn lemma_channel_monotone(ch: int, c: Rgb, t1: int, t2: int)
    requires
        min3(c) <= ch <= max3(c),
        0 <= min3(c) <= max3(c) <= 255,
        0 <= t1 <= t2 <= LIGHT_FULL,
    ensures
        channel_at(ch, light_sum(c), t1) <= channel_at(ch, light_sum(c), t2),
{
    let s = light_sum(c);
    lemma_mid(ch, c);
    let d = mid_den(s);
    let p = mid_num(ch, s);
    lemma_numer_monotone(p, d, t1, t2);
    assert(d * LIGHT_HALF > 0) by (nonlinear_arith)
        requires d >= 1;
    lemma_round_div_monotone(light_numer(p, d, t1), light_numer(p, d, t2), d * LIGHT_HALF);
}

/// Lightening never lowers a channel and darkening never raises one; by a
/// zero amount both leave the color as it is.
pub proof fn lemma_lighten_darken_monotone(c: Rgb, amount: int)
    requires
        0 <= amount <= 100,
    ensures
        lighten_spec(c, amount).r >= c.r,
        lighten_spec(c, amount).g >= c.g,
        lighten_spec(c, amount).b >= c.b,
        darken_spec(c, amount).r <= c.r,
        darken_spec(c, amount).g <= c.g,
        darken_spec(c, amount).b <= c.b,
        lighten_spec(c, 0) == c,
        darken_spec(c, 0) == c,
{
    lemma_max_min(c);
    let s = light_sum(c);
    let up = lighter_target(c, amount);
    let down = darker_target(c, amount);
    let ts = 100 * s;
    lemma_channel_identity(c.r as int, c);
    lemma_channel_identity(c.g as int, c);
    lemma_channel_identity(c.b as int, c);
    lemma_channel_monotone(c.r as int, c, ts, up);
    lemma_channel_monotone(c.g as int, c, ts, up);
    lemma_channel_monotone(c.b as int, c, ts, up);
    lemma_channel_monotone(c.r as int, c, down, ts);
    lemma_channel_monotone(c.g as int, c, down, ts);
    lemma_channel_monotone(c.b as int, c, down, ts);
    lemma_mid(c.r as int, c);
    lemma_mid(c.g as int, c);
    lemma_mid(c.b as int, c);
    lemma_channel_bound(mid_num(c.r as int, s), mid_den(s), up);
    lemma_channel_bound(mid_num(c.g as int, s), mid_den(s), up);
    lemma_channel_bound(mid_num(c.b as int, s), mid_den(s), up);
    lemma_channel_bound(mid_num(c.r as int, s), mid_den(s), down);
    lemma_channel_bound(mid_num(c.g as int, s), mid_den(s), down);
    lemma_channel_bound(mid_num(c.b as int, s), mid_den(s), down);
    lemma_channel_bound(mid_num(c.r as int, s), mid_den(s), ts);
    lemma_channel_bound(mid_num(c.g as int, s), mid_den(s), ts);
    lemma_channel_bound(mid_num(c.b as int, s), mid_den(s), ts);
}

proof fn lemma_round_div_at_least(n: int, d: int, k: int)
    requires
        d > 0,
        2 * n + d >= 2 * (d * k),
    ensures
        round_div(n, d) >= k,
{
    assert((2 * n + d) / (2 * d) >= k) by (nonlinear_arith)
        requires d > 0, 2 * n + d >= 2 * (d * k);
}

/// One channel of a color other than white rises strictly when lightened by at
/// least one percent: the largest below the middle, the smallest above it.
proof fn lemma_lighten_strict(c: Rgb, amount: int)
    requires
        1 <= amount <= 100,
        c != white(),
    ensures
        lighten_spec(c, amount).r as int + lighten_spec(c, amount).g as int + lighten_spec(c, amount).b as int
            > c.r as int + c.g as int + c.b as int,
{
    lemma_lighten_darken_monotone(c, amount);
    lemma_max_min(c);
    let s = light_sum(c);
    let big = max3(c);
    let small = min3(c);
    let h = LIGHT_HALF as int;
    let f = LIGHT_FULL as int;
    let t1 = lighter_target(c, amount);
    let ch = if s < 255 {
        big
    } else {
        small
    };
    assert(ch == c.r || ch == c.g || ch == c.b);
    lemma_mid(ch, c);
    lemma_channel_bound(mid_num(ch, s), mid_den(s), t1);
    if 100 * s + 510 > f {
        lemma_channel_extremes(ch, s);
        assert(small < 255);
        assert(channel_at(ch, s, t1) > ch);
    } else {
        let tp = 100 * s + 510;
        assert(tp <= t1);
        lemma_channel_monotone(ch, c, tp, t1);
        let d = mid_den(s);
        let p = mid_num(ch, s);
        assert(d * h > 0) by (nonlinear_arith)
            requires d >= 1, h == 25500;
        if s == 0 {
            assert(channel_at(ch, s, tp) == round_div(130050int, 2 * h));
            lemma_round_div_at_least(130050int, 2 * h, 1);
        } else if tp <= h {
            assert(d == s && p == 255 * big);
            assert(p * tp == 25500 * (big * s) + 130050 * big) by (nonlinear_arith)
                requires p == 255 * big, tp == 100 * s + 510;
            assert((d * h) * (big + 1) == 25500 * (big * s) + 25500 * s) by (nonlinear_arith)
                requires d == s, h == 25500;
            assert(d * h == 25500 * s);
            assert(2 * (p * tp) + d * h >= 2 * ((d * h) * (big + 1)));
            lemma_round_div_at_least(p * tp, d * h, big + 1);
        } else if s < 255 {
            assert(250 <= s <= 254);
            let k = s - big;
            assert(0 <= k && 2 * k <= s);
            let n = 255 * d * h - (255 * d - p) * (f - tp);
            assert(2 * n + d * h >= 2 * ((d * h) * (big + 1))) by (nonlinear_arith)
                requires
                    d == s,
                    p == 255 * big,
                    tp == 100 * s + 510,
                    h == 25500,
                    f == 51000,
                    k == s - big,
                    0 <= k,
                    2 * k <= s,
                    250 <= s <= 254,
                    n == 255 * d * h - (255 * d - p) * (f - tp),
            ;
            lemma_round_div_at_least(n, d * h, big + 1);
        } else {
            assert(s < 510);
            let n = 255 * d * h - (255 * d - p) * (f - tp);
            assert(n == (d * h) * small + 130050 * (255 - small)) by (nonlinear_arith)
                requires
                    d == 510 - s,
                    p == 255 * (255 - s + small),
                    tp == 100 * s + 510,
                    h == 25500,
                    f == 51000,
                    n == 255 * d * h - (255 * d - p) * (f - tp),
            ;
            assert(d * h == 25500 * (510 - s));
            assert((d * h) * (small + 1) == (d * h) * small + d * h) by (nonlinear_arith);
            assert(2 * n + d * h >= 2 * ((d * h) * (small + 1)));
            lemma_round_div_at_least(n, d * h, small + 1);
        }
    }
}

/// `c` lightened by `amount` percent, `n` times over.
pub open spec fn lighten_times(c: Rgb, amount: int, n: nat) -> Rgb
    decreases n,
{
    if n == 0 {
        c
    } else {
        lighten_spec(lighten_times(c, amount, (n - 1) as nat), amount)
    }
}

proof fn lemma_lighten_times_progress(c: Rgb, amount: int, n: nat)
    requires
        1 <= amount <= 100,
    ensures
        lighten_times(c, amount, n) == white() || lighten_times(c, amount, n).r as int
            + lighten_times(c, amount, n).g as int + lighten_times(c, amount, n).b as int >= n,
    decreases n,
{
    if n > 0 {
        let prev = lighten_times(c, amount, (n - 1) as nat);
        lemma_lighten_times_progress(c, amount, (n - 1) as nat);
        if prev == white() {
            lemma_lighten_saturates(c, amount);
        } else {
            lemma_lighten_strict(prev, amount);
        }
    }
}

/// Repeated lightening by any positive amount reaches white, within as many
/// steps as there are channel units, and stays there.
pub proof fn lemma_repeated_lighten_reaches_white(c: Rgb, amount: int, n: nat)
    requires
        1 <= amount <= 100,
        n >= 766,
    ensures
        lighten_times(c, amount, n) == white(),
{
    lemma_lighten_times_progress(c, amount, n);
}

proof fn lemma_round_div_below(n: int, d: int, k: int)
    requires
        d > 0,
        2 * n + d < 2 * (d * k),
    ensures
        round_div(n, d) < k,
{
    assert((2 * n + d) / (2 * d) < k) by (nonlinear_arith)
        requires d > 0, 2 * n + d < 2 * (d * k);
}

/// One channel of a color other than black falls strictly when darkened by at
/// least one percent: the largest up to the middle, the smallest above it.
proof fn lemma_darken_strict(c: Rgb, amount: int)
    requires
        1 <= amount <= 100,
        c != black(),
    ensures
        (darken_spec(c, amount).r as int + darken_spec(c, amount).g as int + darken_spec(
            c,
            amount,
        ).b as int) < (c.r as int + c.g as int + c.b as int),
{
    lemma_lighten_darken_monotone(c, amount);
    lemma_max_min(c);
    let s = light_sum(c);
    let big = max3(c);
    let small = min3(c);
    let h = LIGHT_HALF as int;
    let f = LIGHT_FULL as int;
    let t1 = darker_target(c, amount);
    let ch = if s <= 255 || s == 510 {
        big
    } else {
        small
    };
    assert(ch == c.r || ch == c.g || ch == c.b);
    lemma_mid(ch, c);
    lemma_channel_bound(mid_num(ch, s), mid_den(s), t1);
    if 100 * s < 510 {
        lemma_channel_extremes(ch, s);
        assert(big > 0);
        assert(channel_at(ch, s, t1) < ch);
    } else {
        let tp = 100 * s - 510;
        assert(t1 <= tp);
        lemma_channel_monotone(ch, c, t1, tp);
        let d = mid_den(s);
        let p = mid_num(ch, s);
        assert(d * h > 0) by (nonlinear_arith)
            requires d >= 1, h == 25500;
        if s == 510 {
            assert(channel_at(ch, s, tp) == round_div(12874950int, 2 * h));
            lemma_round_div_below(12874950int, 2 * h, 255);
        } else if s <= 255 {
            assert(d == s && p == 255 * big);
            assert(p * tp == 25500 * (big * s) - 130050 * big) by (nonlinear_arith)
                requires p == 255 * big, tp == 100 * s - 510;
            assert((d * h) * big == 25500 * (big * s)) by (nonlinear_arith)
                requires d == s, h == 25500;
            assert(d * h == 25500 * s);
            assert(2 * (p * tp) + d * h < 2 * ((d * h) * big));
            lemma_round_div_below(p * tp, d * h, big);
        } else if tp <= h {
            assert(256 <= s <= 260);
            let n = p * tp;
            assert(2 * n + d * h < 2 * ((d * h) * small)) by (nonlinear_arith)
                requires
                    d == 510 - s,
                    p == 255 * (255 - s + small),
                    tp == 100 * s - 510,
                    h == 25500,
                    n == p * tp,
                    s - 255 <= small,
                    2 * small <= s,
                    256 <= s <= 260,
            ;
            lemma_round_div_below(n, d * h, small);
        } else {
            let n = 255 * d * h - (255 * d - p) * (f - tp);
            assert(n == (d * h) * small - 130050 * (255 - small)) by (nonlinear_arith)
                requires
                    d == 510 - s,
                    p == 255 * (255 - s + small),
                    tp == 100 * s - 510,
                    h == 25500,
                    f == 51000,
                    n == 255 * d * h - (255 * d - p) * (f - tp),
            ;
            assert(small < 255);
            assert(d * h == 25500 * (510 - s));
            assert(2 * n + d * h < 2 * ((d * h) * small));
            lemma_round_div_below(n, d * h, small);
        }
    }
}

/// `c` darkened by `amount` percent, `n` times over.
pub open spec fn darken_times(c: Rgb, amount: int, n: nat) -> Rgb
    decreases n,
{
    if n == 0 {
        c
    } else {
        darken_spec(darken_times(c, amount, (n - 1) as nat), amount)
    }
}

proof fn lemma_darken_times_progress(c: Rgb, amount: int, n: nat)
    requires
        1 <= amount <= 100,
    ensures
        darken_times(c, amount, n) == black() || darken_times(c, amount, n).r as int
            + darken_times(c, amount, n).g as int + darken_times(c, amount, n).b as int + n <= 765,
    decreases n,
{
    if n > 0 {
        let prev = darken_times(c, amount, (n - 1) as nat);
        lemma_darken_times_progress(c, amount, (n - 1) as nat);
        if prev == black() {
            lemma_darken_saturates(c, amount);
        } else {
            lemma_darken_strict(prev, amount);
        }
    }
}

/// Repeated darkening by any positive amount reaches black, within as many
/// steps as there are channel units, and stays there.
pub proof fn lemma_repeated_darken_reaches_black(c: Rgb, amount: int, n: nat)
    requires
        1 <= amount <= 100,
        n >= 766,
    ensures
        darken_times(c, amount, n) == black(),
{
    lemma_darken_times_progress(c, amount, n);
}

proof fn lemma_hex_digit(d: int)
    requires
        0 <= d < 16,
    ensures
        hex_value(hex_char(d)) == Some(d),
{
    let digits = seq!['0', '1', '2', '3', '4', '5', '6', '7', '8', '9', 'a', 'b', 'c', 'd', 'e', 'f'];
    assert(hex_char(d) == digits[d]);
    if d < 10 {
        assert(digits[d] as int == '0' as int + d) by {
            assert(digits[0] == '0' && digits[1] == '1' && digits[2] == '2' && digits[3] == '3');
            assert(digits[4] == '4' && digits[5] == '5' && digits[6] == '6' && digits[7] == '7');
            assert(digits[8] == '8' && digits[9] == '9');
        }
    } else {
        assert(digits[d] as int == 'a' as int + d - 10) by {
            assert(digits[10] == 'a' && digits[11] == 'b' && digits[12] == 'c');
            assert(digits[13] == 'd' && digits[14] == 'e' && digits[15] == 'f');
        }
    }
}

proof fn lemma_byte_hex(b: u8)
    ensures
        hex_value(byte_hex(b)[0]) == Some(b as int / 16),
        hex_value(byte_hex(b)[1]) == Some(b as int % 16),
        (b as int / 16) * 16 + b as int % 16 == b as int,
{
    lemma_hex_digit(b as int / 16);
    lemma_hex_digit(b as int % 16);
}

/// Round trip of the canonical text: `hex_text(c)` is a `#rrggbb` text whose
/// three bytes are those of `c`, so parsing it gives `c` back.
pub proof fn lemma_hex_text_round_trip(c: Rgb)
    ensures
        is_hex6(hex_text(c)),
        hex6_color(hex_text(c)) == c,
{
    let s = hex_text(c);
    lemma_byte_hex(c.r);
    lemma_byte_hex(c.g);
    lemma_byte_hex(c.b);
    assert(s[1] == byte_hex(c.r)[0] && s[2] == byte_hex(c.r)[1]);
    assert(s[3] == byte_hex(c.g)[0] && s[4] == byte_hex(c.g)[1]);
    assert(s[5] == byte_hex(c.b)[0] && s[6] == byte_hex(c.b)[1]);
    assert forall|i: int| 1 <= i < 7 implies (#[trigger] hex_value(s[i])) is Some by {
        if i == 1 || i == 2 {
        } else if i == 3 || i == 4 {
        } else {
        }
    }
}

/// `channel_at(ch, s, t)`, computed.
fn channel_to(ch: u8, s: u64, t: u64, c: Ghost<Rgb>) -> (r: u8)
    requires
        s == light_sum(c@),
        min3(c@) <= ch <= max3(c@),
        0 <= min3(c@) <= max3(c@) <= 255,
        t <= LIGHT_FULL,
    ensures
        r as int == channel_at(ch as int, s as int, t as int),
{
    proof {
        lemma_mid(ch as int, c@);
        lemma_channel_bound(mid_num(ch as int, s as int), mid_den(s as int), t as int);
    }
    let chv = ch as u64;
    let (p, d): (u64, u64) = if s == 0 || s == 510 {
        (255, 2)
    } else if s <= 255 {
        (255 * chv, s)
    } else {
        (255 * (chv + 255 - s), 510 - s)
    };
    let den = d * LIGHT_HALF;
    let n: u64 = if t <= LIGHT_HALF {
        assert(p * t <= 255 * 510 * 25500) by (nonlinear_arith)
            requires p <= 255 * d, d <= 510, t <= 25500;
        p * t
    } else {
        assert((255 * d - p) * (LIGHT_FULL - t) <= 255 * d * LIGHT_HALF) by (nonlinear_arith)
            requires 0 <= 255 * d - p <= 255 * d, 0 <= 51000 - t <= 25500;
        assert(255 * d * LIGHT_HALF <= 255 * 510 * 25500) by (nonlinear_arith)
            requires d <= 510;
        255 * den - (255 * d - p) * (LIGHT_FULL - t)
    };
    ((2 * n + den) / (2 * den)) as u8
}

/// `with_lightness(c, t)`, computed.
fn at_lightness(c: Rgb, t: u64) -> (r: Rgb)
    requires
        t <= LIGHT_FULL,
    ensures
        r == with_lightness(c, t as int),
{
    proof {
        lemma_max_min(c);
    }
    let hi = if c.r >= c.g && c.r >= c.b {
        c.r
    } else if c.g >= c.b {
        c.g
    } else {
        c.b
    };
    let lo = if c.r <= c.g && c.r <= c.b {
        c.r
    } else if c.g <= c.b {
        c.g
    } else {
        c.b
    };
    let s = hi as u64 + lo as u64;
    Rgb {
        r: channel_to(c.r, s, t, Ghost(c)),
        g: channel_to(c.g, s, t, Ghost(c)),
        b: channel_to(c.b, s, t, Ghost(c)),
    }
}

impl Rgb {
    pub fn new(r: u8, g: u8, b: u8) -> (c: Rgb)
        ensures
            c == (Rgb { r, g, b }),
    {
        Rgb { r, g, b }
    }

    /// The color written `#rrggbb`, lowercase.
    pub fn to_hex_string(&self) -> (s: String)
        ensures
            s@ == hex_text(*self),
            is_hex6(s@),
            hex6_color(s@) == *self,
    {
        proof {
            lemma_hex_text_round_trip(*self);
        }
        let mut s = String::new();
        proof {
            reveal_strlit("#");
        }
        s.append("#");
        push_byte_hex(&mut s, self.r);
        push_byte_hex(&mut s, self.g);
        push_byte_hex(&mut s, self.b);
        assert(s@ =~= hex_text(*self));
        s
    }

    /// HSL lightness raised by `amount` percent, saturating at white.
    pub fn lighten(&self, amount: u8) -> (r: Rgb)
        requires
            amount <= 100,
        ensures
            r == lighten_spec(*self, amount as int),
    {
        let hi = if self.r >= self.g && self.r >= self.b {
            self.r
        } else if self.g >= self.b {
            self.g
        } else {
            self.b
        };
        let lo = if self.r <= self.g && self.r <= self.b {
            self.r
        } else if self.g <= self.b {
            self.g
        } else {
            self.b
        };
        let l = 100 * (hi as u64 + lo as u64);
        let raised = l + 510 * amount as u64;
        let t = if raised >= LIGHT_FULL {
            LIGHT_FULL
        } else {
            raised
        };
        at_lightness(*self, t)
    }

    /// HSL lightness lowered by `amount` percent, saturating at black.
    pub fn darken(&self, amount: u8) -> (r: Rgb)
        requires
            amount <= 100,
        ensures
            r == darken_spec(*self, amount as int),
    {
        let hi = if self.r >= self.g && self.r >= self.b {
            self.r
        } else if self.g >= self.b {
            self.g
        } else {
            self.b
        };
        let lo = if self.r <= self.g && self.r <= self.b {
            self.r
        } else if self.g <= self.b {
            self.g
        } else {
            self.b
        };
        let l = 100 * (hi as u64 + lo as u64);
        let drop = 510 * amount as u64;
        let t = if l <= drop {
            0
        } else {
            l - drop
        };
        at_lightness(*self, t)
    }

    /// The red, green and blue channels as a tuple.
    pub fn to_rgb8_tuple(&self) -> (t: (u8, u8, u8))
        ensures
            t == (self.r, self.g, self.b),
    {
        (self.r, self.g, self.b)
    }

    /// The color that a parse result stands for: its channels, alpha dropped.
    pub fn from_parsed(parsed: Option<(u8, u8, u8, u8)>) -> (r: Result<Rgb, ColorError>)
        ensures
            match parsed {
                Some((red, green, blue, _)) => r == Ok::<Rgb, ColorError>(Rgb { r: red, g: green, b: blue }),
                None => r == Err::<Rgb, ColorError>(ColorError::Malformed),
            },
    {
        match parsed {
            Some((red, green, blue, _)) => Ok(Rgb { r: red, g: green, b: blue }),
            None => Err(ColorError::Malformed),
        }
    }

    /// Reads a color in any CSS notation (hex, rgb, hsl, hsv, hwb, lab, lch, names).
    pub fn parse(text: &str) -> (r: Result<Rgb, ColorError>)
        ensures
            match parsed_rgba(text@) {
                Some((red, green, blue, _)) => r == Ok::<Rgb, ColorError>(Rgb { r: red, g: green, b: blue }),
                None => r == Err::<Rgb, ColorError>(ColorError::Malformed),
            },
            is_hex6(text@) ==> r == Ok::<Rgb, ColorError>(hex6_color(text@)),
    {
        let parsed = match css_parse(text) {
            Ok(t) => Some(t),
            Err(_) => None,
        };
        Rgb::from_parsed(parsed)
    }

    /// A random color; it always comes back through its own hex text.
    pub fn random() -> (c: Rgb) {
        let text = random_hex();
        match Rgb::parse(text.as_str()) {
            Ok(c) => c,
            Err(_) => {
                proof {
                    assert(false);
                }
                Rgb { r: 0, g: 0, b: 0 }
            },
        }
    }
}

} // verus!

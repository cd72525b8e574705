//! Colours in fixed point, their distance, their hexadecimal codes, and the
//! search for the nearest named colour.

use crate::util::hex::{
    all_hex_digits, digit_of, digit_str, hex_pair, hex_value, is_hex_digit,
    lemma_hex_value_grows,
};
use crate::util::tree_model::nearest_in;
use crate::util::vptree::{MetricPoint, VPTree};
use vstd::prelude::*;
use vstd::string::{StringExecFns, StringSliceAdditionalSpecFns};

verus! {

/// One full turn of hue, and the top of the luminance and chroma scales.
pub const FULL_SCALE: u32 = 1_000_000;

/// A colour by luminance, chroma and hue, each in millionths of its scale.
/// Hue is an angle: values a full turn apart are the same hue.
#[derive(Clone, Copy, Debug, PartialEq, Eq)]
pub struct Color {
    pub luminance: u32,
    pub chroma: u32,
    pub hue: u32,
}

/// How far two readings of a scale are apart.
pub open spec fn gap(a: u32, b: u32) -> nat {
    if a <= b {
        (b - a) as nat
    } else {
        (a - b) as nat
    }
}

/// How far two places on a circle of `FULL_SCALE` places are apart, the
/// shorter way round.
pub open spec fn arc(x: int, y: int) -> int {
    let direct = if x <= y {
        y - x
    } else {
        x - y
    };
    if direct <= FULL_SCALE - direct {
        direct
    } else {
        FULL_SCALE - direct
    }
}

/// How far two hues are apart, the shorter way round the circle.
pub open spec fn hue_gap(a: u32, b: u32) -> nat {
    arc((a % FULL_SCALE) as int, (b % FULL_SCALE) as int) as nat
}

/// The distance of two colours: the sum of their gaps in hue, chroma and
/// luminance.
pub open spec fn color_distance(a: Color, b: Color) -> nat {
    hue_gap(a.hue, b.hue) + gap(a.chroma, b.chroma) + gap(a.luminance, b.luminance)
}

/// On the circle, the way through a third place is never shorter, and no two
/// places are farther apart than half the circle.
pub proof fn lemma_arc_triangle(x: int, y: int, z: int)
    requires
        0 <= x < FULL_SCALE,
        0 <= y < FULL_SCALE,
        0 <= z < FULL_SCALE,
    ensures
        arc(x, z) <= arc(x, y) + arc(y, z),
        arc(x, y) == arc(y, x),
        0 <= arc(x, y) <= FULL_SCALE / 2,
{
}

/// The distance of colours is the same in both directions, stays within
/// `u64`, and the way through a third colour is never shorter.
pub proof fn lemma_color_distance_is_metric(a: Color, b: Color, c: Color)
    ensures
        color_distance(a, b) == color_distance(b, a),
        color_distance(a, c) <= color_distance(a, b) + color_distance(b, c),
        color_distance(a, b) <= u64::MAX,
{
    let x = (a.hue % FULL_SCALE) as int;
    let y = (b.hue % FULL_SCALE) as int;
    let z = (c.hue % FULL_SCALE) as int;
    lemma_arc_triangle(x, y, z);
    lemma_arc_triangle(y, x, z);
    lemma_arc_triangle(y, z, x);
}

/// Computes [`gap`].
fn gap_of(a: u32, b: u32) -> (g: u64)
    ensures
        g == gap(a, b),
{
    if a <= b {
        (b - a) as u64
    } else {
        (a - b) as u64
    }
}

impl MetricPoint for Color {
    open spec fn distance(from: &Self, to: &Self) -> u64 {
        color_distance(*from, *to) as u64
    }

    fn dist(from: &Self, to: &Self) -> (d: u64) {
        let direct: u64 = gap_of(from.hue % FULL_SCALE, to.hue % FULL_SCALE);
        let around: u64 = FULL_SCALE as u64 - direct;
        let hue: u64 = if direct <= around {
            direct
        } else {
            around
        };
        hue + gap_of(from.chroma, to.chroma) + gap_of(from.luminance, to.luminance)
    }

    proof fn symmetric(a: &Self, b: &Self) {
        lemma_color_distance_is_metric(*a, *b, *a);
    }

    proof fn triangle(a: &Self, b: &Self, c: &Self) {
        lemma_color_distance_is_metric(*a, *b, *c);
        lemma_color_distance_is_metric(*b, *c, *a);
        lemma_color_distance_is_metric(*a, *c, *b);
    }
}

/// A colour of the palette with its name.
#[derive(Clone, Debug)]
pub struct NamedColor {
    color: Color,
    name: String,
}

impl NamedColor {
    /// The colour of the entry.
    pub closed spec fn shade(&self) -> Color {
        self.color
    }

    /// The name of the entry.
    pub closed spec fn label(&self) -> Seq<char> {
        self.name@
    }

    /// A palette entry.
    pub fn new(color: Color, name: String) -> (entry: Self)
        ensures
            entry.shade() == color,
            entry.label() == name@,
    {
        NamedColor { color, name }
    }

    /// The colour of the entry.
    pub fn color(&self) -> (color: Color)
        ensures
            color == self.shade(),
    {
        self.color
    }

    /// The name of the entry.
    pub fn name(&self) -> (name: &str)
        ensures
            name@ == self.label(),
    {
        self.name.as_str()
    }
}

/// Two entries are the same entry when they have the same name.
impl PartialEq for NamedColor {
    fn eq(&self, other: &Self) -> (same: bool) {
        self.name == other.name
    }
}

impl vstd::std_specs::cmp::PartialEqSpecImpl for NamedColor {
    open spec fn obeys_eq_spec() -> bool {
        true
    }

    open spec fn eq_spec(&self, other: &Self) -> bool {
        self.label() == other.label()
    }
}

impl MetricPoint for NamedColor {
    open spec fn distance(from: &Self, to: &Self) -> u64 {
        Color::distance(&from.shade(), &to.shade())
    }

    fn dist(from: &Self, to: &Self) -> (d: u64) {
        Color::dist(&from.color, &to.color)
    }

    proof fn symmetric(a: &Self, b: &Self) {
        Color::symmetric(&a.shade(), &b.shade());
    }

    proof fn triangle(a: &Self, b: &Self, c: &Self) {
        Color::triangle(&a.shade(), &b.shade(), &c.shade());
    }
}

/// The palette: a tree over its named colours.
pub type ColorDB = VPTree<NamedColor>;

/// The entry of the palette whose colour is nearest to `color`: no entry is
/// nearer, and among equally near entries it is the one the search meets
/// first.
pub fn quantize_color(db: &ColorDB, color: Color) -> (entry: &NamedColor)
    ensures
        db@.points().contains(*entry),
        forall|i: int|
            0 <= i < db@.points().len() ==> color_distance(entry.shade(), color) <= color_distance(
                (#[trigger] db@.points()[i]).shade(),
                color,
            ),
        exists|probe: NamedColor|
            probe.shade() == color && Some(*entry) == nearest_in(db@.visit_order(probe), probe),
{
    let named_color = NamedColor { color, name: "".to_owned() };
    db.nearest(&named_color)
}

/// The digits of a colour code: what follows its first byte, less a plus
/// sign in front.
pub open spec fn code_digits(text: Seq<u8>) -> Seq<u8> {
    let body = text.skip(1);
    if body.len() > 0 && body[0] == 0x2b {
        body.skip(1)
    } else {
        body
    }
}

/// Whether `text` is a colour code: one byte, by custom `#`, then at least
/// one hexadecimal digit of either case, with or without a plus sign before
/// the digits, standing for a number that fits 32 bits.
pub open spec fn is_color_code(text: Seq<u8>) -> bool {
    &&& text.len() >= 1
    &&& code_digits(text).len() >= 1
    &&& all_hex_digits(code_digits(text))
    &&& hex_value(code_digits(text)) <= u32::MAX
}

/// Reads the number out of a colour code such as `#0e5d83`; nothing where
/// `hex` is no colour code.
pub fn parse_hex(hex: &str) -> (value: Option<u32>)
    ensures
        value is Some <==> is_color_code(hex.spec_bytes()),
        value matches Some(v) ==> v == hex_value(code_digits(hex.spec_bytes())),
{
    let bytes = hex.as_bytes();
    let n: usize = bytes.len();
    if n < 1 {
        return None;
    }
    let start: usize = if n > 1 && bytes[1] == 0x2b {
        2
    } else {
        1
    };
    let ghost digits = code_digits(bytes@);
    assert(digits =~= bytes@.skip(start as int));
    if start >= n {
        return None;
    }
    let mut acc: u64 = 0;
    let mut i: usize = start;
    while i < n
        invariant
            start <= i <= n,
            n == bytes@.len(),
            digits == bytes@.skip(start as int),
            digits == code_digits(hex.spec_bytes()),
            acc == hex_value(digits.take(i - start)),
            acc <= u32::MAX,
            all_hex_digits(digits.take(i - start)),
        decreases n - i,
    {
        let ghost seen = digits.take(i - start);
        let ghost more = digits.take(i + 1 - start);
        assert(more.drop_last() =~= seen);
        assert(more.last() == bytes@[i as int]);
        match digit_of(bytes[i]) {
            None => {
                assert(digits[i - start] == bytes@[i as int]);
                assert(!all_hex_digits(digits));
                return None;
            },
            Some(d) => {
                acc = acc * 16 + d as u64;
                assert(acc == hex_value(more));
                if acc > u32::MAX as u64 {
                    proof {
                        lemma_hex_value_grows(digits, i + 1 - start);
                    }
                    return None;
                }
                assert forall|k: int| 0 <= k < more.len() implies is_hex_digit(
                    #[trigger] more[k],
                ) by {
                    if k < seen.len() {
                        assert(more[k] == seen[k]);
                    }
                }
            },
        }
        i += 1;
    }
    assert(digits.take(n - start) =~= digits);
    Some(acc as u32)
}

/// The colour code of the red, green and blue parts of a colour: `#` and two
/// lowercase hexadecimal digits for each part.
pub fn hex_code(red: u8, green: u8, blue: u8) -> (code: String)
    ensures
        code@ == seq!['#'] + hex_pair(red) + hex_pair(green) + hex_pair(blue),
{
    proof {
        reveal_strlit("#");
    }
    let mut code: String = "#".to_owned();
    code.append(digit_str((red / 16) as usize));
    code.append(digit_str((red % 16) as usize));
    code.append(digit_str((green / 16) as usize));
    code.append(digit_str((green % 16) as usize));
    code.append(digit_str((blue / 16) as usize));
    code.append(digit_str((blue % 16) as usize));
    assert(code@ =~= seq!['#'] + hex_pair(red) + hex_pair(green) + hex_pair(blue));
    code
}

} // verus!

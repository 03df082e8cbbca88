//! The options of the command line: pairs of a flag and a value that change
//! the configuration.

use vstd::prelude::*;
use vstd::string::StringSliceAdditionalSpecFns;
use crate::config::Config;

verus! {

/// Why the options give no configuration.
#[derive(Clone, Copy, Debug, PartialEq, Eq)]
pub enum ArgError {
    /// The flag at this place is the last argument: its value is missing.
    MissingValue(usize),
    /// The value of the flag at this place is not a number that the flag
    /// accepts.
    BadValue(usize),
}

/// What one option does.
#[derive(Clone, Copy, Debug, PartialEq, Eq)]
pub enum Setting {
    /// `-t`: the template is to be read from the path that is the value.
    Template,
    /// `-d`: the depth, 1 to 8.
    Depth(u8),
    /// `-s`: the similarity threshold.
    Similarity(u16),
    /// `-v`: the vibrancy, 1 to 100.
    Vibrancy(u8),
    /// `-l`: the likeness threshold.
    Likeness(u16),
    /// `--hue-compare`: the hue weight, in thousandths, above 0.
    HueCompare(u32),
    /// `--chroma-compare`: the chroma weight, in thousandths, above 0.
    ChromaCompare(u32),
    /// `--light-compare`: the lightness weight, in thousandths, above 0.
    LightCompare(u32),
    /// `--hue-mix`
    HueMix(i8),
    /// `--saturation-mix`
    SaturationMix(i8),
    /// `--light-mix`
    LightMix(i8),
    /// `--hue-tweak`
    HueTweak(i8),
    /// `--saturation-tweak`
    SaturationTweak(i8),
    /// `--light-tweak`
    LightTweak(i8),
    /// Any other flag: no parameter changes, and the place of the flag is
    /// noted.
    Unknown,
}

/// The largest number that is told from larger ones when digits are read.
pub const NUMBER_CAP: u64 = 1_000_000_000_000;

/// The number that decimal digits stand for; none where there is no digit
/// or a byte is no digit.
pub open spec fn digits_value(s: Seq<u8>) -> Option<int>
    decreases s.len(),
{
    if s.len() == 0 {
        None
    } else if !(48 <= s.last() <= 57) {
        None
    } else if s.len() == 1 {
        Some(s.last() - 48)
    } else {
        match digits_value(s.drop_last()) {
            None => None,
            Some(v) => Some(10 * v + (s.last() - 48)),
        }
    }
}

/// The whole number that the text stands for: digits, after a plus or a
/// minus sign if there is one.
pub open spec fn integer_of(s: Seq<u8>) -> Option<int> {
    if s.len() > 0 && s[0] == 43 {
        digits_value(s.subrange(1, s.len() as int))
    } else if s.len() > 0 && s[0] == 45 {
        match digits_value(s.subrange(1, s.len() as int)) {
            None => None,
            Some(v) => Some(-v),
        }
    } else {
        digits_value(s)
    }
}

/// The place of the first point at or behind `i`, or the length of the
/// text where there is none.
pub open spec fn point_from(s: Seq<u8>, i: int) -> int
    decreases s.len() - i,
{
    if i >= s.len() {
        s.len() as int
    } else if s[i] == 46 {
        i
    } else {
        point_from(s, i + 1)
    }
}

/// The digit at place `i` of a fraction, 0 behind its end; none where the
/// byte there is no digit.
pub open spec fn fraction_digit(f: Seq<u8>, i: int) -> Option<int> {
    if i >= f.len() {
        Some(0)
    } else if 48 <= f[i] <= 57 {
        Some(f[i] - 48)
    } else {
        None
    }
}

/// The thousandths that an unsigned decimal number stands for, what is
/// behind its third decimal place left out: digits, a point and digits,
/// either part, but not both, may be empty.
pub open spec fn unsigned_thousandths(s: Seq<u8>) -> Option<int> {
    let p = point_from(s, 0);
    let whole = s.subrange(0, p);
    let fraction = if p < s.len() {
        s.subrange(p + 1, s.len() as int)
    } else {
        Seq::empty()
    };
    if whole.len() == 0 && fraction.len() == 0 {
        None
    } else if fraction.len() > 0 && digits_value(fraction).is_none() {
        None
    } else if whole.len() > 0 && digits_value(whole).is_none() {
        None
    } else {
        let w = if whole.len() == 0 {
            0
        } else {
            digits_value(whole).unwrap()
        };
        Some(
            1000 * w + 100 * fraction_digit(fraction, 0).unwrap() + 10 * fraction_digit(
                fraction,
                1,
            ).unwrap() + fraction_digit(fraction, 2).unwrap(),
        )
    }
}

/// The thousandths that a decimal number stands for: an unsigned one, after
/// a plus sign if there is one.
pub open spec fn thousandths_of(s: Seq<u8>) -> Option<int> {
    if s.len() > 0 && s[0] == 43 {
        unsigned_thousandths(s.subrange(1, s.len() as int))
    } else {
        unsigned_thousandths(s)
    }
}

/// The whole number of the text where it lies between `low` and `high`.
pub open spec fn ranged(s: Seq<u8>, low: int, high: int) -> Option<int> {
    match integer_of(s) {
        Some(v) => if low <= v <= high {
            Some(v)
        } else {
            None
        },
        None => None,
    }
}

/// The weight of the text: its thousandths where they lie between 1 and
/// the largest 32-bit number.
///
/// A weight is held in thousandths, and that is all a text can say: the
/// digits behind the third decimal place are cut off, not rounded, so that
/// `0.7599` is 0.759; a text that stands for less than 0.001, `0.0004` say,
/// is no weight, as 0 is none; and a text that stands for more than
/// 4294967.295 is none either. Only plain decimal numbers are read: a text
/// with an exponent (`1e3`), with a minus sign, or one that spells out
/// infinity is no weight.
pub open spec fn weight_of(s: Seq<u8>) -> Option<int> {
    match thousandths_of(s) {
        Some(v) => if 1 <= v <= u32::MAX {
            Some(v)
        } else {
            None
        },
        None => None,
    }
}

/// What the option of a flag and a value does; none where the flag is known
/// and the value is not one that it accepts.
pub open spec fn setting_of(flag: Seq<u8>, value: Seq<u8>) -> Option<Setting> {
    if flag == "-t".spec_bytes() {
        Some(Setting::Template)
    } else if flag == "-d".spec_bytes() {
        match ranged(value, 1, 8) {
            Some(v) => Some(Setting::Depth(v as u8)),
            None => None,
        }
    } else if flag == "-s".spec_bytes() {
        match ranged(value, 0, 65535) {
            Some(v) if value[0] != 45 => Some(Setting::Similarity(v as u16)),
            _ => None,
        }
    } else if flag == "-v".spec_bytes() {
        match ranged(value, 1, 100) {
            Some(v) => Some(Setting::Vibrancy(v as u8)),
            None => None,
        }
    } else if flag == "-l".spec_bytes() {
        match ranged(value, 0, 65535) {
            Some(v) if value[0] != 45 => Some(Setting::Likeness(v as u16)),
            _ => None,
        }
    } else if flag == "--hue-compare".spec_bytes() {
        match weight_of(value) {
            Some(v) => Some(Setting::HueCompare(v as u32)),
            None => None,
        }
    } else if flag == "--chroma-compare".spec_bytes() {
        match weight_of(value) {
            Some(v) => Some(Setting::ChromaCompare(v as u32)),
            None => None,
        }
    } else if flag == "--light-compare".spec_bytes() {
        match weight_of(value) {
            Some(v) => Some(Setting::LightCompare(v as u32)),
            None => None,
        }
    } else if flag == "--hue-mix".spec_bytes() {
        match ranged(value, -128, 127) {
            Some(v) => Some(Setting::HueMix(v as i8)),
            None => None,
        }
    } else if flag == "--saturation-mix".spec_bytes() {
        match ranged(value, -128, 127) {
            Some(v) => Some(Setting::SaturationMix(v as i8)),
            None => None,
        }
    } else if flag == "--light-mix".spec_bytes() {
        match ranged(value, -128, 127) {
            Some(v) => Some(Setting::LightMix(v as i8)),
            None => None,
        }
    } else if flag == "--hue-tweak".spec_bytes() {
        match ranged(value, -128, 127) {
            Some(v) => Some(Setting::HueTweak(v as i8)),
            None => None,
        }
    } else if flag == "--saturation-tweak".spec_bytes() {
        match ranged(value, -128, 127) {
            Some(v) => Some(Setting::SaturationTweak(v as i8)),
            None => None,
        }
    } else if flag == "--light-tweak".spec_bytes() {
        match ranged(value, -128, 127) {
            Some(v) => Some(Setting::LightTweak(v as i8)),
            None => None,
        }
    } else {
        Some(Setting::Unknown)
    }
}

/// The lesser of a number and `NUMBER_CAP`.
pub open spec fn capped(v: int) -> int {
    if v > NUMBER_CAP {
        NUMBER_CAP as int
    } else {
        v
    }
}

/// Digits never stand for a negative number.
pub proof fn lemma_digits_value(s: Seq<u8>)
    ensures
        digits_value(s).is_some() ==> digits_value(s).unwrap() >= 0,
        digits_value(s).is_some() ==> s.len() > 0,
    decreases s.len(),
{
    if s.len() > 1 {
        lemma_digits_value(s.drop_last());
    }
}

/// Whether two texts are the same.
fn same_bytes(a: &[u8], b: &[u8]) -> (r: bool)
    ensures
        r == (a@ == b@),
{
    if a.len() != b.len() {
        return false;
    }
    let mut i: usize = 0;
    while i < a.len()
        invariant
            i <= a.len(),
            a.len() == b.len(),
            forall|k: int| 0 <= k < i ==> a@[k] == b@[k],
        decreases a.len() - i,
    {
        if a[i] != b[i] {
            return false;
        }
        i = i + 1;
    }
    proof {
        assert(a@ =~= b@);
    }
    true
}

/// The number that the digits stand for, capped.
fn read_digits(s: &[u8]) -> (r: Option<u64>)
    ensures
        match digits_value(s@) {
            Some(v) => r == Some(capped(v) as u64) && v >= 0,
            None => r.is_none(),
        },
{
    if s.len() == 0 {
        return None;
    }
    let mut value: u64 = 0;
    let mut i: usize = 0;
    while i < s.len()
        invariant
            i <= s.len(),
            value <= NUMBER_CAP,
            i == 0 ==> value == 0,
            i > 0 ==> digits_value(s@.take(i as int)).is_some(),
            i > 0 ==> value == capped(digits_value(s@.take(i as int)).unwrap()),
        decreases s.len() - i,
    {
        let b = s[i];
        proof {
            let next = s@.take(i + 1);
            assert(next.last() == b);
            assert(next.drop_last() =~= s@.take(i as int));
            if !(48 <= b <= 57) {
                lemma_digits_stay_none(s@, i + 1);
            }
            lemma_digits_value(s@.take(i as int));
        }
        if b < 48 || b > 57 {
            return None;
        }
        let grown = 10 * value + (b - 48) as u64;
        value = if grown > NUMBER_CAP {
            NUMBER_CAP
        } else {
            grown
        };
        i = i + 1;
    }
    proof {
        assert(s@.take(s.len() as int) =~= s@);
        lemma_digits_value(s@);
    }
    Some(value)
}

/// A text with a byte that is no digit stands for no number, however it
/// goes on.
proof fn lemma_digits_stay_none(s: Seq<u8>, n: int)
    requires
        0 < n <= s.len(),
        digits_value(s.take(n)).is_none(),
    ensures
        digits_value(s).is_none(),
    decreases s.len() - n,
{
    if n < s.len() {
        assert(s.take(n + 1).drop_last() =~= s.take(n));
        lemma_digits_stay_none(s, n + 1);
    } else {
        assert(s.take(n) =~= s);
    }
}

/// The whole number that the text stands for, capped on either side.
fn read_integer(s: &[u8]) -> (r: Option<i64>)
    ensures
        match integer_of(s@) {
            Some(v) => r.is_some() && (if v >= 0 {
                r.unwrap() == capped(v)
            } else {
                r.unwrap() == -capped(-v)
            }),
            None => r.is_none(),
        },
{
    if s.len() > 0 && s[0] == 43 {
        let rest = vstd::slice::slice_subrange(s, 1, s.len());
        proof {
            lemma_digits_value(rest@);
        }
        match read_digits(rest) {
            Some(v) => Some(v as i64),
            None => None,
        }
    } else if s.len() > 0 && s[0] == 45 {
        let rest = vstd::slice::slice_subrange(s, 1, s.len());
        proof {
            lemma_digits_value(rest@);
        }
        match read_digits(rest) {
            Some(v) => Some(-(v as i64)),
            None => None,
        }
    } else {
        proof {
            lemma_digits_value(s@);
        }
        match read_digits(s) {
            Some(v) => Some(v as i64),
            None => None,
        }
    }
}

/// The whole number of the text where it lies between `low` and `high`.
fn read_ranged(s: &[u8], low: i64, high: i64) -> (r: Option<i64>)
    requires
        -(NUMBER_CAP as int) < low <= high < NUMBER_CAP,
    ensures
        match ranged(s@, low as int, high as int) {
            Some(v) => r == Some(v as i64),
            None => r.is_none(),
        },
{
    match read_integer(s) {
        Some(v) => {
            if low <= v && v <= high {
                Some(v)
            } else {
                None
            }
        },
        None => None,
    }
}

/// The digit at place `i` of a fraction.
fn digit_at(f: &[u8], i: usize) -> (r: Option<u64>)
    ensures
        match fraction_digit(f@, i as int) {
            Some(v) => r == Some(v as u64) && 0 <= v <= 9,
            None => r.is_none(),
        },
{
    if i >= f.len() {
        Some(0)
    } else if 48 <= f[i] && f[i] <= 57 {
        Some((f[i] - 48) as u64)
    } else {
        None
    }
}

/// A fraction of digits has a digit at each of its places.
proof fn lemma_fraction_digits(f: Seq<u8>, i: int)
    requires
        0 <= i,
        f.len() == 0 || digits_value(f).is_some(),
    ensures
        fraction_digit(f, i).is_some(),
    decreases f.len(),
{
    if i < f.len() {
        if i == f.len() - 1 {
        } else {
            assert(f.len() > 1);
            lemma_fraction_digits(f.drop_last(), i);
        }
    }
}

/// The thousandths of an unsigned decimal number, capped.
fn read_unsigned_thousandths(s: &[u8]) -> (r: Option<u64>)
    ensures
        match unsigned_thousandths(s@) {
            Some(v) => r == Some(capped(v) as u64) && v >= 0,
            None => r.is_none(),
        },
{
    let mut p: usize = 0;
    while p < s.len() && s[p] != 46
        invariant
            p <= s.len(),
            point_from(s@, 0) == point_from(s@, p as int),
        decreases s.len() - p,
    {
        p = p + 1;
    }
    let whole = vstd::slice::slice_subrange(s, 0, p);
    let fraction = if p < s.len() {
        vstd::slice::slice_subrange(s, p + 1, s.len())
    } else {
        vstd::slice::slice_subrange(s, p, p)
    };
    proof {
        assert(point_from(s@, p as int) == p);
        if p >= s.len() {
            assert(fraction@ =~= Seq::<u8>::empty());
        }
        lemma_digits_value(whole@);
        lemma_digits_value(fraction@);
    }
    if whole.len() == 0 && fraction.len() == 0 {
        return None;
    }
    let f = if fraction.len() > 0 {
        match read_digits(fraction) {
            None => {
                return None;
            },
            Some(_) => {
                proof {
                    lemma_fraction_digits(fraction@, 0);
                    lemma_fraction_digits(fraction@, 1);
                    lemma_fraction_digits(fraction@, 2);
                }
                100 * digit_at(fraction, 0).unwrap() + 10 * digit_at(fraction, 1).unwrap()
                    + digit_at(fraction, 2).unwrap()
            },
        }
    } else {
        0
    };
    let w = if whole.len() > 0 {
        match read_digits(whole) {
            None => {
                return None;
            },
            Some(w) => w,
        }
    } else {
        0
    };
    let total = 1000 * w + f;
    if total > NUMBER_CAP {
        Some(NUMBER_CAP)
    } else {
        Some(total)
    }
}

/// The weight that the text stands for.
fn read_weight(s: &[u8]) -> (r: Option<u32>)
    ensures
        match weight_of(s@) {
            Some(v) => r == Some(v as u32),
            None => r.is_none(),
        },
{
    let t = if s.len() > 0 && s[0] == 43 {
        read_unsigned_thousandths(vstd::slice::slice_subrange(s, 1, s.len()))
    } else {
        read_unsigned_thousandths(s)
    };
    match t {
        Some(v) => {
            if 1 <= v && v <= 4_294_967_295 {
                Some(v as u32)
            } else {
                None
            }
        },
        None => None,
    }
}

/// The whole number of the text where it fits in eight bits with a sign.
fn read_i8(s: &[u8]) -> (r: Option<i8>)
    ensures
        match ranged(s@, -128, 127) {
            Some(v) => r == Some(v as i8),
            None => r.is_none(),
        },
{
    match read_ranged(s, -128, 127) {
        Some(v) => Some(v as i8),
        None => None,
    }
}

/// The whole number of the text where it fits in sixteen bits and has no
/// minus sign.
fn read_u16(s: &[u8]) -> (r: Option<u16>)
    ensures
        match ranged(s@, 0, 65535) {
            Some(v) if s@[0] != 45 => r == Some(v as u16),
            _ => r.is_none(),
        },
{
    proof {
        lemma_digits_value(s@);
        if s@.len() > 0 {
            lemma_digits_value(s@.subrange(1, s@.len() as int));
        }
    }
    match read_ranged(s, 0, 65535) {
        Some(v) => {
            if s[0] == 45 {
                None
            } else {
                Some(v as u16)
            }
        },
        None => None,
    }
}

/// Reads one option: what the flag does with the value, or none where the
/// flag is known and does not accept the value.
pub fn parse_setting(flag: &[u8], value: &[u8]) -> (r: Option<Setting>)
    ensures
        r == setting_of(flag@, value@),
{
    if same_bytes(flag, "-t".as_bytes()) {
        Some(Setting::Template)
    } else if same_bytes(flag, "-d".as_bytes()) {
        match read_ranged(value, 1, 8) {
            Some(v) => Some(Setting::Depth(v as u8)),
            None => None,
        }
    } else if same_bytes(flag, "-s".as_bytes()) {
        match read_u16(value) {
            Some(v) => Some(Setting::Similarity(v)),
            None => None,
        }
    } else if same_bytes(flag, "-v".as_bytes()) {
        match read_ranged(value, 1, 100) {
            Some(v) => Some(Setting::Vibrancy(v as u8)),
            None => None,
        }
    } else if same_bytes(flag, "-l".as_bytes()) {
        match read_u16(value) {
            Some(v) => Some(Setting::Likeness(v)),
            None => None,
        }
    } else if same_bytes(flag, "--hue-compare".as_bytes()) {
        match read_weight(value) {
            Some(v) => Some(Setting::HueCompare(v)),
            None => None,
        }
    } else if same_bytes(flag, "--chroma-compare".as_bytes()) {
        match read_weight(value) {
            Some(v) => Some(Setting::ChromaCompare(v)),
            None => None,
        }
    } else if same_bytes(flag, "--light-compare".as_bytes()) {
        match read_weight(value) {
            Some(v) => Some(Setting::LightCompare(v)),
            None => None,
        }
    } else if same_bytes(flag, "--hue-mix".as_bytes()) {
        match read_i8(value) {
            Some(v) => Some(Setting::HueMix(v)),
            None => None,
        }
    } else if same_bytes(flag, "--saturation-mix".as_bytes()) {
        match read_i8(value) {
            Some(v) => Some(Setting::SaturationMix(v)),
            None => None,
        }
    } else if same_bytes(flag, "--light-mix".as_bytes()) {
        match read_i8(value) {
            Some(v) => Some(Setting::LightMix(v)),
            None => None,
        }
    } else if same_bytes(flag, "--hue-tweak".as_bytes()) {
        match read_i8(value) {
            Some(v) => Some(Setting::HueTweak(v)),
            None => None,
        }
    } else if same_bytes(flag, "--saturation-tweak".as_bytes()) {
        match read_i8(value) {
            Some(v) => Some(Setting::SaturationTweak(v)),
            None => None,
        }
    } else if same_bytes(flag, "--light-tweak".as_bytes()) {
        match read_i8(value) {
            Some(v) => Some(Setting::LightTweak(v)),
            None => None,
        }
    } else {
        Some(Setting::Unknown)
    }
}

/// What the options settle: every parameter but the template, and the
/// place of the argument that names the template's file, if any does.
pub struct Options {
    pub template: Option<int>,
    pub unknown: Seq<int>,
    pub depth: u8,
    pub similarity: u16,
    pub vibrancy: u8,
    pub likeness: u16,
    pub hue_compare: u32,
    pub chroma_compare: u32,
    pub light_compare: u32,
    pub hue_mix: i8,
    pub saturation_mix: i8,
    pub light_mix: i8,
    pub hue_tweak: i8,
    pub saturation_tweak: i8,
    pub light_tweak: i8,
}

/// The configuration that the options give, the place of the argument that
/// names the file of the template, if an option does, and the places of the
/// flags that are not known, for the caller to report.
#[derive(Clone, Debug)]
pub struct Parsed {
    pub config: Config,
    pub template: Option<usize>,
    pub unknown: Vec<usize>,
}

/// The places as numbers.
pub open spec fn places(v: Seq<usize>) -> Seq<int> {
    Seq::new(v.len(), |k: int| v[k] as int)
}

impl View for Parsed {
    type V = Options;

    open spec fn view(&self) -> Options {
        Options {
            template: match self.template {
                Some(i) => Some(i as int),
                None => None,
            },
            unknown: places(self.unknown@),
            depth: self.config.depth,
            similarity: self.config.similarity,
            vibrancy: self.config.vibrancy,
            likeness: self.config.likeness,
            hue_compare: self.config.hue_compare,
            chroma_compare: self.config.chroma_compare,
            light_compare: self.config.light_compare,
            hue_mix: self.config.hue_mix,
            saturation_mix: self.config.saturation_mix,
            light_mix: self.config.light_mix,
            hue_tweak: self.config.hue_tweak,
            saturation_tweak: self.config.saturation_tweak,
            light_tweak: self.config.light_tweak,
        }
    }
}

/// The options before any argument is read.
pub open spec fn default_options() -> Options {
    Options {
        template: None,
        unknown: Seq::empty(),
        depth: 2,
        similarity: 20,
        vibrancy: 15,
        likeness: 20,
        hue_compare: 750,
        chroma_compare: 1000,
        light_compare: 1000,
        hue_mix: 10,
        saturation_mix: 100,
        light_mix: 100,
        hue_tweak: 0,
        saturation_tweak: -1i8,
        light_tweak: 1,
    }
}

/// The options after a setting whose value stands at `place`, its flag one
/// place before. A flag that is not known is noted by its place.
pub open spec fn applied(o: Options, setting: Setting, place: int) -> Options {
    match setting {
        Setting::Template => Options { template: Some(place), ..o },
        Setting::Depth(v) => Options { depth: v, ..o },
        Setting::Similarity(v) => Options { similarity: v, ..o },
        Setting::Vibrancy(v) => Options { vibrancy: v, ..o },
        Setting::Likeness(v) => Options { likeness: v, ..o },
        Setting::HueCompare(v) => Options { hue_compare: v, ..o },
        Setting::ChromaCompare(v) => Options { chroma_compare: v, ..o },
        Setting::LightCompare(v) => Options { light_compare: v, ..o },
        Setting::HueMix(v) => Options { hue_mix: v, ..o },
        Setting::SaturationMix(v) => Options { saturation_mix: v, ..o },
        Setting::LightMix(v) => Options { light_mix: v, ..o },
        Setting::HueTweak(v) => Options { hue_tweak: v, ..o },
        Setting::SaturationTweak(v) => Options { saturation_tweak: v, ..o },
        Setting::LightTweak(v) => Options { light_tweak: v, ..o },
        Setting::Unknown => Options { unknown: o.unknown.push(place - 1), ..o },
    }
}

/// The options after the arguments from place `i` on are read, two by two:
/// a flag and its value. A flag that is not known changes no parameter,
/// with or without a value; its place is noted, and its value is passed
/// over. A known flag that is the last argument, or whose value it does not
/// accept, is an error.
pub open spec fn parsed_from(args: Seq<Seq<u8>>, i: int, o: Options) -> Result<Options, ArgError>
    decreases args.len() - i,
{
    if i < 0 || i >= args.len() {
        Ok(o)
    } else if i + 1 >= args.len() {
        if setting_of(args[i], Seq::empty()) == Some(Setting::Unknown) {
            Ok(Options { unknown: o.unknown.push(i), ..o })
        } else {
            Err(ArgError::MissingValue(i as usize))
        }
    } else {
        match setting_of(args[i], args[i + 1]) {
            None => Err(ArgError::BadValue(i as usize)),
            Some(setting) => parsed_from(args, i + 2, applied(o, setting, i + 1)),
        }
    }
}

/// The bytes of each argument.
pub open spec fn arg_texts(args: Seq<String>) -> Seq<Seq<u8>> {
    Seq::new(args.len(), |i: int| vstd::utf8::encode_utf8(args[i]@))
}

/// Whether the flag is not one of those that are known.
fn is_unknown(flag: &[u8]) -> (r: bool)
    ensures
        r == (setting_of(flag@, Seq::empty()) == Some(Setting::Unknown)),
{
    let empty: Vec<u8> = Vec::new();
    match parse_setting(flag, empty.as_slice()) {
        Some(Setting::Unknown) => true,
        _ => false,
    }
}

/// Reads the options from the arguments, the first of which is the name of
/// the program: the default configuration with every parameter that an
/// option names set to its value. The template is left as it is by
/// default; the place of the value of the last `-t`, if there is one, is
/// handed back for the file to be read, and so are the places of the flags
/// that are not known.
pub fn parse_config(args: &Vec<String>) -> (r: Result<Parsed, ArgError>)
    ensures
        match parsed_from(arg_texts(args@), 1, default_options()) {
            Ok(o) => r.is_ok() && r.unwrap()@ == o && r.unwrap().config.wf() && r.unwrap().config.template_colors@
                == crate::config::default_template(),
            Err(e) => r.is_err() && r->Err_0 == e,
        },
{
    let mut parsed = Parsed { config: Config::new(), template: None, unknown: Vec::new() };
    proof {
        assert(places(parsed.unknown@) =~= Seq::<int>::empty());
    }
    let ghost texts = arg_texts(args@);
    let mut i: usize = 1;
    while i < args.len()
        invariant
            1 <= i,
            texts == arg_texts(args@),
            parsed.config.wf(),
            parsed.config.template_colors@ == crate::config::default_template(),
            parsed_from(texts, 1, default_options()) == parsed_from(texts, i as int, parsed@),
        decreases args.len() - i,
    {
        let flag = args[i].as_str().as_bytes();
        assert(flag@ == texts[i as int]);
        if i + 1 >= args.len() {
            if is_unknown(flag) {
                let ghost before = parsed.unknown@;
                parsed.unknown.push(i);
                proof {
                    assert(places(parsed.unknown@) =~= places(before).push(i as int));
                }
                return Ok(parsed);
            } else {
                return Err(ArgError::MissingValue(i));
            }
        }
        let value = args[i + 1].as_str().as_bytes();
        assert(value@ == texts[i + 1]);
        match parse_setting(flag, value) {
            None => {
                return Err(ArgError::BadValue(i));
            },
            Some(setting) => {
                match setting {
                    Setting::Template => {
                        parsed.template = Some(i + 1);
                    },
                    Setting::Depth(v) => {
                        parsed.config.depth = v;
                    },
                    Setting::Similarity(v) => {
                        parsed.config.similarity = v;
                    },
                    Setting::Vibrancy(v) => {
                        parsed.config.vibrancy = v;
                    },
                    Setting::Likeness(v) => {
                        parsed.config.likeness = v;
                    },
                    Setting::HueCompare(v) => {
                        parsed.config.hue_compare = v;
                    },
                    Setting::ChromaCompare(v) => {
                        parsed.config.chroma_compare = v;
                    },
                    Setting::LightCompare(v) => {
                        parsed.config.light_compare = v;
                    },
                    Setting::HueMix(v) => {
                        parsed.config.hue_mix = v;
                    },
                    Setting::SaturationMix(v) => {
                        parsed.config.saturation_mix = v;
                    },
                    Setting::LightMix(v) => {
                        parsed.config.light_mix = v;
                    },
                    Setting::HueTweak(v) => {
                        parsed.config.hue_tweak = v;
                    },
                    Setting::SaturationTweak(v) => {
                        parsed.config.saturation_tweak = v;
                    },
                    Setting::LightTweak(v) => {
                        parsed.config.light_tweak = v;
                    },
                    Setting::Unknown => {
                        let ghost before = parsed.unknown@;
                        parsed.unknown.push(i);
                        proof {
                            assert(places(parsed.unknown@) =~= places(before).push(i as int));
                        }
                    },
                }
            },
        }
        if i >= usize::MAX - 1 {
            return Ok(parsed);
        }
        i = i + 2;
    }
    Ok(parsed)
}

/// Whether a path starts at a root: with a slash or a backslash.
pub fn is_rooted(path: &[u8]) -> (r: bool)
    ensures
        r == (path@.len() > 0 && (path@[0] == 47 || path@[0] == 92)),
{
    path.len() > 0 && (path[0] == 47 || path[0] == 92)
}

} // verus!

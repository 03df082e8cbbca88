//! Color schemes as documents: reading the sixteen reference colors of a
//! template, and writing a palette.

use vstd::prelude::*;
use vstd::string::StringSliceAdditionalSpecFns;
use saphyr::{LoadableYamlNode, Yaml};
use crate::Rgb;

verus! {

/// Why a document gives no template.
#[derive(Clone, Copy, Debug, PartialEq, Eq)]
pub enum SchemeError {
    /// The document is longer than `TEXT_LIMIT`, cannot be read, or holds
    /// no mapping of colors.
    Malformed,
    /// The entry at this place of the mapping is not text, or its text is
    /// not a color.
    BadColor(usize),
    /// The mapping holds this many colors, not sixteen.
    Length(usize),
}

/// The value of a hexadecimal digit, in either case.
pub open spec fn hex_value(b: u8) -> Option<int> {
    if 48 <= b <= 57 {
        Some(b - 48)
    } else if 65 <= b <= 70 {
        Some(b - 55)
    } else if 97 <= b <= 102 {
        Some(b - 87)
    } else {
        None
    }
}

/// The byte that two characters stand for: two hexadecimal digits, or a
/// plus sign and one digit.
pub open spec fn hex_pair(high: u8, low: u8) -> Option<int> {
    match hex_value(low) {
        None => None,
        Some(l) => if high == 43 {
            Some(l)
        } else {
            match hex_value(high) {
                None => None,
                Some(h) => Some(16 * h + l),
            }
        },
    }
}

/// The color that the text stands for: three pairs, red, green and blue,
/// after one leading character of any kind where the text has seven.
pub open spec fn hex_color(text: Seq<u8>) -> Option<Rgb> {
    if text.len() != 6 && text.len() != 7 {
        None
    } else {
        let at = text.len() - 6;
        match (
            hex_pair(text[at], text[at + 1]),
            hex_pair(text[at + 2], text[at + 3]),
            hex_pair(text[at + 4], text[at + 5]),
        ) {
            (Some(r), Some(g), Some(b)) => Some((r as u8, g as u8, b as u8)),
            _ => None,
        }
    }
}

/// The color of an entry: none where the entry is not text or its text is
/// not a color.
pub open spec fn entry_color(value: Option<Seq<u8>>) -> Option<Rgb> {
    match value {
        None => None,
        Some(text) => hex_color(text),
    }
}

/// The colors of the first `n` entries, or the place of the first entry
/// among them that is not a color.
pub open spec fn colors_of(values: Seq<Option<Seq<u8>>>, n: int) -> Result<Seq<Rgb>, int>
    decreases n,
{
    if n <= 0 {
        Ok(Seq::empty())
    } else {
        match colors_of(values, n - 1) {
            Err(place) => Err(place),
            Ok(colors) => match entry_color(values[n - 1]) {
                None => Err(n - 1),
                Some(color) => Ok(colors.push(color)),
            },
        }
    }
}

/// The template that the entries of a mapping give: their colors, where
/// each is a color and there are sixteen.
pub open spec fn scheme_of(values: Seq<Option<Seq<u8>>>) -> Result<Seq<Rgb>, SchemeError> {
    match colors_of(values, values.len() as int) {
        Err(place) => Err(SchemeError::BadColor(place as usize)),
        Ok(colors) => if colors.len() == 16 {
            Ok(colors)
        } else {
            Err(SchemeError::Length(colors.len() as usize))
        },
    }
}

/// The longest text, in bytes, that is handed to the parser. The parser
/// goes one call deeper for every collection inside a collection. A
/// collection in block style takes at least two bytes to open, a dash or a
/// question mark and a space, so that a text within the limit nests at most
/// 1024 of them; the depth of bracketed collections the parser bounds
/// itself. A scheme takes a few hundred bytes.
pub const TEXT_LIMIT: usize = 2048;

/// What a YAML text holds under a key of one of its documents: the values
/// of the mapping under `key` in the document numbered `doc`, in the order
/// of the document, each as the bytes of its text, or as none where the
/// value is not a string. It is none as a whole where the text is no YAML,
/// has no such document, or has no mapping under that key.
///
/// This one name stands for the whole chain of calls into `saphyr` that
/// `mapping_texts` makes: the parse of the text, the two steps to the
/// mapping, the walk over its entries and the reading of each value.
pub uninterp spec fn yaml_mapping_texts(content: Seq<char>, doc: int, key: Seq<char>) -> Option<
    Seq<Option<Seq<u8>>>,
>;

/// The views of the byte vectors.
pub open spec fn texts_view(texts: Seq<Option<Vec<u8>>>) -> Seq<Option<Seq<u8>>> {
    Seq::new(
        texts.len(),
        |i: int|
            match texts[i] {
                Some(text) => Some(text@),
                None => None,
            },
    )
}

/// Reads the mapping under `key` with `saphyr`: `Yaml::load_from_str` parses
/// the text, `as_mapping_get` and `as_mapping` find the mapping in the
/// document numbered `doc`, and `as_str` reads each of its values. Nothing is
/// proved of this: the result is only given its name. The text is bounded
/// because the parser recurses as deep as the text nests.
#[verifier::external_body]
fn mapping_texts(content: &str, doc: usize, key: &str) -> (r: Option<Vec<Option<Vec<u8>>>>)
    requires
        content.spec_bytes().len() <= TEXT_LIMIT,
    ensures
        match r {
            Some(texts) => yaml_mapping_texts(content@, doc as int, key@) == Some(
                texts_view(texts@),
            ),
            None => yaml_mapping_texts(content@, doc as int, key@).is_none(),
        },
{
    let docs = Yaml::load_from_str(content).ok()?;
    let mapping = docs.get(doc)?.as_mapping_get(key)?.as_mapping()?;
    Some(mapping.iter().map(|(_, v)| v.as_str().map(|s| s.as_bytes().to_vec())).collect())
}

/// The value of a hexadecimal digit.
fn hex_value_of(b: u8) -> (v: Option<u8>)
    ensures
        match hex_value(b) {
            Some(x) => v == Some(x as u8) && x < 16,
            None => v.is_none(),
        },
{
    if 48 <= b && b <= 57 {
        Some(b - 48)
    } else if 65 <= b && b <= 70 {
        Some(b - 55)
    } else if 97 <= b && b <= 102 {
        Some(b - 87)
    } else {
        None
    }
}

/// The byte that two characters stand for.
fn hex_pair_of(high: u8, low: u8) -> (v: Option<u8>)
    ensures
        match hex_pair(high, low) {
            Some(x) => v == Some(x as u8) && 0 <= x < 256,
            None => v.is_none(),
        },
{
    match hex_value_of(low) {
        None => None,
        Some(l) => {
            if high == 43 {
                Some(l)
            } else {
                match hex_value_of(high) {
                    None => None,
                    Some(h) => Some(16 * h + l),
                }
            }
        },
    }
}

/// Reads a color from text such as `1A2B3C` or `#1A2B3C`.
pub fn hex_to_rgb(hex: &[u8]) -> (color: Option<Rgb>)
    ensures
        color == hex_color(hex@),
{
    let n = hex.len();
    if n != 6 && n != 7 {
        return None;
    }
    let at = n - 6;
    let r = hex_pair_of(hex[at], hex[at + 1]);
    let g = hex_pair_of(hex[at + 2], hex[at + 3]);
    let b = hex_pair_of(hex[at + 4], hex[at + 5]);
    match (r, g, b) {
        (Some(r), Some(g), Some(b)) => Some((r, g, b)),
        _ => None,
    }
}

/// The template that the entries of a mapping give.
pub fn scheme_from_texts(texts: &Vec<Option<Vec<u8>>>) -> (r: Result<Vec<Rgb>, SchemeError>)
    ensures
        match scheme_of(texts_view(texts@)) {
            Ok(colors) => r.is_ok() && r.unwrap()@ == colors,
            Err(e) => r == Err::<Vec<Rgb>, SchemeError>(e),
        },
{
    let ghost values = texts_view(texts@);
    let mut colors: Vec<Rgb> = Vec::new();
    let mut i: usize = 0;
    while i < texts.len()
        invariant
            i <= texts.len(),
            values == texts_view(texts@),
            colors_of(values, i as int) == Ok::<Seq<Rgb>, int>(colors@),
            colors@.len() == i,
        decreases texts.len() - i,
    {
        let color = match &texts[i] {
            Some(text) => hex_to_rgb(text.as_slice()),
            None => None,
        };
        match color {
            None => {
                proof {
                    lemma_colors_of_fails(values, i + 1, values.len() as int);
                }
                return Err(SchemeError::BadColor(i));
            },
            Some(color) => {
                colors.push(color);
            },
        }
        i = i + 1;
    }
    if colors.len() == 16 {
        Ok(colors)
    } else {
        Err(SchemeError::Length(colors.len()))
    }
}

/// Once an entry is not a color, the place of the first such entry stays
/// the answer however many entries follow.
proof fn lemma_colors_of_fails(values: Seq<Option<Seq<u8>>>, n: int, m: int)
    requires
        0 <= n <= m,
        colors_of(values, n).is_err(),
    ensures
        colors_of(values, m) == colors_of(values, n),
    decreases m - n,
{
    if n < m {
        lemma_colors_of_fails(values, n, m - 1);
    }
}

/// The mapping of colors of a scheme document: none for a text longer than
/// `TEXT_LIMIT`, and otherwise what the text holds under `palette` in its
/// first document.
pub open spec fn palette_texts(content: &str) -> Option<Seq<Option<Seq<u8>>>> {
    if content.spec_bytes().len() > TEXT_LIMIT {
        None
    } else {
        yaml_mapping_texts(content@, 0, "palette"@)
    }
}

/// Reads the template of a scheme document: the sixteen colors of the
/// mapping under `palette` in its first document. A text of more than
/// `TEXT_LIMIT` bytes is not read at all.
pub fn get_scheme(content: &str) -> (r: Result<Vec<Rgb>, SchemeError>)
    ensures
        content.spec_bytes().len() > TEXT_LIMIT ==> r == Err::<Vec<Rgb>, SchemeError>(
            SchemeError::Malformed,
        ),
        match palette_texts(content) {
            None => r == Err::<Vec<Rgb>, SchemeError>(SchemeError::Malformed),
            Some(values) => match scheme_of(values) {
                Ok(colors) => r.is_ok() && r.unwrap()@ == colors,
                Err(e) => r == Err::<Vec<Rgb>, SchemeError>(e),
            },
        },
{
    if content.as_bytes().len() > TEXT_LIMIT {
        return Err(SchemeError::Malformed);
    }
    match mapping_texts(content, 0, "palette") {
        None => Err(SchemeError::Malformed),
        Some(texts) => scheme_from_texts(&texts),
    }
}

/// The upper-case hexadecimal digit of a value below 16.
pub open spec fn hex_digit(n: int) -> u8 {
    if n < 10 {
        (48 + n) as u8
    } else {
        (55 + n) as u8
    }
}

/// The two hexadecimal digits of a value below 256.
pub open spec fn hex_byte(n: int) -> Seq<u8> {
    seq![hex_digit(n / 16), hex_digit(n % 16)]
}

/// The first lines of every scheme document.
pub open spec fn scheme_header() -> Seq<u8> {
    "system: \"base16\"\nname: \"reewal-generated\"\nauthor: \"reewal\"\nvariant: \"dark\"\npalette:\n".spec_bytes()
}

/// The line of a slot: its key, `base` and the number of the slot in two
/// digits, and its color as `#RRGGBB` between quotes.
pub open spec fn scheme_line(slot: int, color: Rgb) -> Seq<u8> {
    "  base".spec_bytes() + hex_byte(slot) + ": \"#".spec_bytes() + hex_byte(color.0 as int)
        + hex_byte(color.1 as int) + hex_byte(color.2 as int) + "\"\n".spec_bytes()
}

/// The lines of the first `n` slots, one for each slot that holds a color.
pub open spec fn scheme_lines(scheme: Seq<Option<Rgb>>, n: int) -> Seq<u8>
    decreases n,
{
    if n <= 0 {
        Seq::empty()
    } else {
        match scheme[n - 1] {
            Some(color) => scheme_lines(scheme, n - 1) + scheme_line(n - 1, color),
            None => scheme_lines(scheme, n - 1),
        }
    }
}

/// Appends the two hexadecimal digits of a byte.
fn push_hex_byte(out: &mut Vec<u8>, n: u8)
    ensures
        final(out)@ == old(out)@ + hex_byte(n as int),
{
    let high = n / 16;
    let low = n % 16;
    out.push(if high < 10 {
        48 + high
    } else {
        55 + high
    });
    out.push(if low < 10 {
        48 + low
    } else {
        55 + low
    });
    proof {
        assert(out@ =~= old(out)@ + hex_byte(n as int));
    }
}

/// Writes a palette as a scheme document: the header, and a line for each
/// slot that holds a color. A slot without a color has no line.
pub fn export_scheme(scheme: &Vec<Option<Rgb>>) -> (document: Vec<u8>)
    requires
        scheme@.len() <= 256,
    ensures
        document@ == scheme_header() + scheme_lines(scheme@, scheme@.len() as int),
{
    let mut out: Vec<u8> = Vec::new();
    out.extend_from_slice(
        "system: \"base16\"\nname: \"reewal-generated\"\nauthor: \"reewal\"\nvariant: \"dark\"\npalette:\n".as_bytes(),
    );
    let mut i: usize = 0;
    while i < scheme.len()
        invariant
            i <= scheme.len(),
            scheme@.len() <= 256,
            out@ == scheme_header() + scheme_lines(scheme@, i as int),
        decreases scheme.len() - i,
    {
        if let Some(color) = scheme[i] {
            let ghost before = out@;
            out.extend_from_slice("  base".as_bytes());
            push_hex_byte(&mut out, i as u8);
            out.extend_from_slice(": \"#".as_bytes());
            push_hex_byte(&mut out, color.0);
            push_hex_byte(&mut out, color.1);
            push_hex_byte(&mut out, color.2);
            out.extend_from_slice("\"\n".as_bytes());
            proof {
                assert(out@ =~= before + scheme_line(i as int, color));
                assert(out@ =~= scheme_header() + (scheme_lines(scheme@, i as int) + scheme_line(
                    i as int,
                    color,
                )));
            }
        }
        i = i + 1;
    }
    out
}

} // verus!

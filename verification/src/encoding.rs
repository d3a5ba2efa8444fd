//! Simple font encodings: the bytes of WinAnsiEncoding and
//! MacRomanEncoding, glyph names, and `/Differences` arrays.
use crate::types::{lemma_array_view, lemma_value_view, str_equal, PdfDictionary, PdfValue, SpecValue};
use vstd::prelude::*;

verus! {

pub open spec fn win_ansi_char(b: u8) -> char {
    if b == 128 {
        '\u{20ac}'
    } else if b == 130 {
        '\u{201a}'
    } else if b == 131 {
        '\u{0192}'
    } else if b == 132 {
        '\u{201e}'
    } else if b == 133 {
        '\u{2026}'
    } else if b == 134 {
        '\u{2020}'
    } else if b == 135 {
        '\u{2021}'
    } else if b == 136 {
        '\u{02c6}'
    } else if b == 137 {
        '\u{2030}'
    } else if b == 138 {
        '\u{0160}'
    } else if b == 139 {
        '\u{2039}'
    } else if b == 140 {
        '\u{0152}'
    } else if b == 142 {
        '\u{017d}'
    } else if b == 145 {
        '\''
    } else if b == 146 {
        '\''
    } else if b == 147 {
        '"'
    } else if b == 148 {
        '"'
    } else if b == 149 {
        '\u{2022}'
    } else if b == 150 {
        '\u{2013}'
    } else if b == 151 {
        '\u{2014}'
    } else if b == 152 {
        '\u{02dc}'
    } else if b == 153 {
        '\u{2122}'
    } else if b == 154 {
        '\u{0161}'
    } else if b == 155 {
        '\u{203a}'
    } else if b == 156 {
        '\u{0153}'
    } else if b == 158 {
        '\u{017e}'
    } else if b == 159 {
        '\u{0178}'
    } else {
        b as char
    }
}

/// The character of a byte in WinAnsiEncoding.
pub fn decode_win_ansi_byte(byte: u8) -> (r: char)
    ensures
        r == win_ansi_char(byte),
{
    if byte < 128 {
        return byte as char;
    }
    match byte {
        128 => '\u{20ac}',
        130 => '\u{201a}',
        131 => '\u{0192}',
        132 => '\u{201e}',
        133 => '\u{2026}',
        134 => '\u{2020}',
        135 => '\u{2021}',
        136 => '\u{02c6}',
        137 => '\u{2030}',
        138 => '\u{0160}',
        139 => '\u{2039}',
        140 => '\u{0152}',
        142 => '\u{017d}',
        145 => '\'',
        146 => '\'',
        147 => '"',
        148 => '"',
        149 => '\u{2022}',
        150 => '\u{2013}',
        151 => '\u{2014}',
        152 => '\u{02dc}',
        153 => '\u{2122}',
        154 => '\u{0161}',
        155 => '\u{203a}',
        156 => '\u{0153}',
        158 => '\u{017e}',
        159 => '\u{0178}',
        _ => byte as char,
    }
}

pub open spec fn mac_roman_high(i: int) -> char {
    if i == 0 {
        '\u{00c4}'
    } else if i == 1 {
        '\u{00c5}'
    } else if i == 2 {
        '\u{00c7}'
    } else if i == 3 {
        '\u{00c9}'
    } else if i == 4 {
        '\u{00d1}'
    } else if i == 5 {
        '\u{00d6}'
    } else if i == 6 {
        '\u{00dc}'
    } else if i == 7 {
        '\u{00e1}'
    } else if i == 8 {
        '\u{00e0}'
    } else if i == 9 {
        '\u{00e2}'
    } else if i == 10 {
        '\u{00e4}'
    } else if i == 11 {
        '\u{00e3}'
    } else if i == 12 {
        '\u{00e5}'
    } else if i == 13 {
        '\u{00e7}'
    } else if i == 14 {
        '\u{00e9}'
    } else if i == 15 {
        '\u{00e8}'
    } else if i == 16 {
        '\u{00ea}'
    } else if i == 17 {
        '\u{00eb}'
    } else if i == 18 {
        '\u{00ed}'
    } else if i == 19 {
        '\u{00ec}'
    } else if i == 20 {
        '\u{00ee}'
    } else if i == 21 {
        '\u{00ef}'
    } else if i == 22 {
        '\u{00f1}'
    } else if i == 23 {
        '\u{00f3}'
    } else if i == 24 {
        '\u{00f2}'
    } else if i == 25 {
        '\u{00f4}'
    } else if i == 26 {
        '\u{00f6}'
    } else if i == 27 {
        '\u{00f5}'
    } else if i == 28 {
        '\u{00fa}'
    } else if i == 29 {
        '\u{00f9}'
    } else if i == 30 {
        '\u{00fb}'
    } else if i == 31 {
        '\u{00fc}'
    } else if i == 32 {
        '\u{2020}'
    } else if i == 33 {
        '\u{00b0}'
    } else if i == 34 {
        '\u{00a2}'
    } else if i == 35 {
        '\u{00a3}'
    } else if i == 36 {
        '\u{00a7}'
    } else if i == 37 {
        '\u{2022}'
    } else if i == 38 {
        '\u{00b6}'
    } else if i == 39 {
        '\u{00df}'
    } else if i == 40 {
        '\u{00ae}'
    } else if i == 41 {
        '\u{00a9}'
    } else if i == 42 {
        '\u{2122}'
    } else if i == 43 {
        '\u{00b4}'
    } else if i == 44 {
        '\u{00a8}'
    } else if i == 45 {
        '\u{2260}'
    } else if i == 46 {
        '\u{00c6}'
    } else if i == 47 {
        '\u{00d8}'
    } else if i == 48 {
        '\u{221e}'
    } else if i == 49 {
        '\u{00b1}'
    } else if i == 50 {
        '\u{2264}'
    } else if i == 51 {
        '\u{2265}'
    } else if i == 52 {
        '\u{00a5}'
    } else if i == 53 {
        '\u{00b5}'
    } else if i == 54 {
        '\u{2202}'
    } else if i == 55 {
        '\u{2211}'
    } else if i == 56 {
        '\u{220f}'
    } else if i == 57 {
        '\u{03c0}'
    } else if i == 58 {
        '\u{222b}'
    } else if i == 59 {
        '\u{00aa}'
    } else if i == 60 {
        '\u{00ba}'
    } else if i == 61 {
        '\u{03a9}'
    } else if i == 62 {
        '\u{00e6}'
    } else if i == 63 {
        '\u{00f8}'
    } else if i == 64 {
        '\u{00bf}'
    } else if i == 65 {
        '\u{00a1}'
    } else if i == 66 {
        '\u{00ac}'
    } else if i == 67 {
        '\u{221a}'
    } else if i == 68 {
        '\u{0192}'
    } else if i == 69 {
        '\u{2248}'
    } else if i == 70 {
        '\u{2206}'
    } else if i == 71 {
        '\u{00ab}'
    } else if i == 72 {
        '\u{00bb}'
    } else if i == 73 {
        '\u{2026}'
    } else if i == 74 {
        '\u{00a0}'
    } else if i == 75 {
        '\u{00c0}'
    } else if i == 76 {
        '\u{00c3}'
    } else if i == 77 {
        '\u{00d5}'
    } else if i == 78 {
        '\u{0152}'
    } else if i == 79 {
        '\u{0153}'
    } else if i == 80 {
        '\u{2013}'
    } else if i == 81 {
        '\u{2014}'
    } else if i == 82 {
        '\u{201c}'
    } else if i == 83 {
        '\u{201d}'
    } else if i == 84 {
        '\u{2018}'
    } else if i == 85 {
        '\u{2019}'
    } else if i == 86 {
        '\u{00f7}'
    } else if i == 87 {
        '\u{25ca}'
    } else if i == 88 {
        '\u{00ff}'
    } else if i == 89 {
        '\u{0178}'
    } else if i == 90 {
        '\u{2044}'
    } else if i == 91 {
        '\u{20ac}'
    } else if i == 92 {
        '\u{2039}'
    } else if i == 93 {
        '\u{203a}'
    } else if i == 94 {
        '\u{fb01}'
    } else if i == 95 {
        '\u{fb02}'
    } else if i == 96 {
        '\u{2021}'
    } else if i == 97 {
        '\u{00b7}'
    } else if i == 98 {
        '\u{201a}'
    } else if i == 99 {
        '\u{201e}'
    } else if i == 100 {
        '\u{2030}'
    } else if i == 101 {
        '\u{00c2}'
    } else if i == 102 {
        '\u{00ca}'
    } else if i == 103 {
        '\u{00c1}'
    } else if i == 104 {
        '\u{00cb}'
    } else if i == 105 {
        '\u{00c8}'
    } else if i == 106 {
        '\u{00cd}'
    } else if i == 107 {
        '\u{00ce}'
    } else if i == 108 {
        '\u{00cf}'
    } else if i == 109 {
        '\u{00cc}'
    } else if i == 110 {
        '\u{00d3}'
    } else if i == 111 {
        '\u{00d4}'
    } else if i == 112 {
        '\u{f8ff}'
    } else if i == 113 {
        '\u{00d2}'
    } else if i == 114 {
        '\u{00da}'
    } else if i == 115 {
        '\u{00db}'
    } else if i == 116 {
        '\u{00d9}'
    } else if i == 117 {
        '\u{0131}'
    } else if i == 118 {
        '\u{02c6}'
    } else if i == 119 {
        '\u{02dc}'
    } else if i == 120 {
        '\u{00af}'
    } else if i == 121 {
        '\u{02d8}'
    } else if i == 122 {
        '\u{02d9}'
    } else if i == 123 {
        '\u{02da}'
    } else if i == 124 {
        '\u{00b8}'
    } else if i == 125 {
        '\u{02dd}'
    } else if i == 126 {
        '\u{02db}'
    } else if i == 127 {
        '\u{02c7}'
    } else {
        '\u{fffd}'
    }
}

fn mac_roman_high_char(i: u8) -> (r: char)
    requires
        i < 128,
    ensures
        r == mac_roman_high(i as int),
{
    match i {
        0 => '\u{00c4}',
        1 => '\u{00c5}',
        2 => '\u{00c7}',
        3 => '\u{00c9}',
        4 => '\u{00d1}',
        5 => '\u{00d6}',
        6 => '\u{00dc}',
        7 => '\u{00e1}',
        8 => '\u{00e0}',
        9 => '\u{00e2}',
        10 => '\u{00e4}',
        11 => '\u{00e3}',
        12 => '\u{00e5}',
        13 => '\u{00e7}',
        14 => '\u{00e9}',
        15 => '\u{00e8}',
        16 => '\u{00ea}',
        17 => '\u{00eb}',
        18 => '\u{00ed}',
        19 => '\u{00ec}',
        20 => '\u{00ee}',
        21 => '\u{00ef}',
        22 => '\u{00f1}',
        23 => '\u{00f3}',
        24 => '\u{00f2}',
        25 => '\u{00f4}',
        26 => '\u{00f6}',
        27 => '\u{00f5}',
        28 => '\u{00fa}',
        29 => '\u{00f9}',
        30 => '\u{00fb}',
        31 => '\u{00fc}',
        32 => '\u{2020}',
        33 => '\u{00b0}',
        34 => '\u{00a2}',
        35 => '\u{00a3}',
        36 => '\u{00a7}',
        37 => '\u{2022}',
        38 => '\u{00b6}',
        39 => '\u{00df}',
        40 => '\u{00ae}',
        41 => '\u{00a9}',
        42 => '\u{2122}',
        43 => '\u{00b4}',
        44 => '\u{00a8}',
        45 => '\u{2260}',
        46 => '\u{00c6}',
        47 => '\u{00d8}',
        48 => '\u{221e}',
        49 => '\u{00b1}',
        50 => '\u{2264}',
        51 => '\u{2265}',
        52 => '\u{00a5}',
        53 => '\u{00b5}',
        54 => '\u{2202}',
        55 => '\u{2211}',
        56 => '\u{220f}',
        57 => '\u{03c0}',
        58 => '\u{222b}',
        59 => '\u{00aa}',
        60 => '\u{00ba}',
        61 => '\u{03a9}',
        62 => '\u{00e6}',
        63 => '\u{00f8}',
        64 => '\u{00bf}',
        65 => '\u{00a1}',
        66 => '\u{00ac}',
        67 => '\u{221a}',
        68 => '\u{0192}',
        69 => '\u{2248}',
        70 => '\u{2206}',
        71 => '\u{00ab}',
        72 => '\u{00bb}',
        73 => '\u{2026}',
        74 => '\u{00a0}',
        75 => '\u{00c0}',
        76 => '\u{00c3}',
        77 => '\u{00d5}',
        78 => '\u{0152}',
        79 => '\u{0153}',
        80 => '\u{2013}',
        81 => '\u{2014}',
        82 => '\u{201c}',
        83 => '\u{201d}',
        84 => '\u{2018}',
        85 => '\u{2019}',
        86 => '\u{00f7}',
        87 => '\u{25ca}',
        88 => '\u{00ff}',
        89 => '\u{0178}',
        90 => '\u{2044}',
        91 => '\u{20ac}',
        92 => '\u{2039}',
        93 => '\u{203a}',
        94 => '\u{fb01}',
        95 => '\u{fb02}',
        96 => '\u{2021}',
        97 => '\u{00b7}',
        98 => '\u{201a}',
        99 => '\u{201e}',
        100 => '\u{2030}',
        101 => '\u{00c2}',
        102 => '\u{00ca}',
        103 => '\u{00c1}',
        104 => '\u{00cb}',
        105 => '\u{00c8}',
        106 => '\u{00cd}',
        107 => '\u{00ce}',
        108 => '\u{00cf}',
        109 => '\u{00cc}',
        110 => '\u{00d3}',
        111 => '\u{00d4}',
        112 => '\u{f8ff}',
        113 => '\u{00d2}',
        114 => '\u{00da}',
        115 => '\u{00db}',
        116 => '\u{00d9}',
        117 => '\u{0131}',
        118 => '\u{02c6}',
        119 => '\u{02dc}',
        120 => '\u{00af}',
        121 => '\u{02d8}',
        122 => '\u{02d9}',
        123 => '\u{02da}',
        124 => '\u{00b8}',
        125 => '\u{02dd}',
        126 => '\u{02db}',
        127 => '\u{02c7}',
        _ => '\u{fffd}',
    }
}

/// The text a glyph name stands for: a name from the standard list, or
/// a name that is a single ASCII character.
pub open spec fn glyph_text(name: Seq<char>) -> Option<Seq<char>> {
    if name == "space"@ {
        Some(" "@)
    } else if name == "nbspace"@ {
        Some("\u{00a0}"@)
    } else if name == "nonbreakingspace"@ {
        Some("\u{00a0}"@)
    } else if name == "exclam"@ {
        Some("!"@)
    } else if name == "quotedbl"@ {
        Some("\""@)
    } else if name == "numbersign"@ {
        Some("#"@)
    } else if name == "dollar"@ {
        Some("$"@)
    } else if name == "percent"@ {
        Some("%"@)
    } else if name == "ampersand"@ {
        Some("&"@)
    } else if name == "quotesingle"@ {
        Some("'"@)
    } else if name == "parenleft"@ {
        Some("("@)
    } else if name == "parenright"@ {
        Some(")"@)
    } else if name == "asterisk"@ {
        Some("*"@)
    } else if name == "plus"@ {
        Some("+"@)
    } else if name == "comma"@ {
        Some(","@)
    } else if name == "hyphen"@ {
        Some("-"@)
    } else if name == "period"@ {
        Some("."@)
    } else if name == "slash"@ {
        Some("/"@)
    } else if name == "colon"@ {
        Some(":"@)
    } else if name == "semicolon"@ {
        Some(";"@)
    } else if name == "less"@ {
        Some("<"@)
    } else if name == "equal"@ {
        Some("="@)
    } else if name == "greater"@ {
        Some(">"@)
    } else if name == "question"@ {
        Some("?"@)
    } else if name == "at"@ {
        Some("@"@)
    } else if name == "bracketleft"@ {
        Some("["@)
    } else if name == "backslash"@ {
        Some("\\"@)
    } else if name == "bracketright"@ {
        Some("]"@)
    } else if name == "asciicircum"@ {
        Some("^"@)
    } else if name == "underscore"@ {
        Some("_"@)
    } else if name == "grave"@ {
        Some("`"@)
    } else if name == "braceleft"@ {
        Some("{"@)
    } else if name == "bar"@ {
        Some("|"@)
    } else if name == "braceright"@ {
        Some("}"@)
    } else if name == "asciitilde"@ {
        Some("~"@)
    } else if name == "Euro"@ {
        Some("\u{20ac}"@)
    } else if name == "bullet"@ {
        Some("\u{2022}"@)
    } else if name == "endash"@ {
        Some("\u{2013}"@)
    } else if name == "emdash"@ {
        Some("\u{2014}"@)
    } else if name == "Aacute"@ {
        Some("\u{00c1}"@)
    } else if name == "aacute"@ {
        Some("\u{00e1}"@)
    } else if name == "Adieresis"@ {
        Some("\u{00c4}"@)
    } else if name == "adieresis"@ {
        Some("\u{00e4}"@)
    } else if name == "Ntilde"@ {
        Some("\u{00d1}"@)
    } else if name == "ntilde"@ {
        Some("\u{00f1}"@)
    } else if name == "Oslash"@ {
        Some("\u{00d8}"@)
    } else if name == "oslash"@ {
        Some("\u{00f8}"@)
    } else if name == "fi"@ {
        Some("\u{fb01}"@)
    } else if name == "fl"@ {
        Some("\u{fb02}"@)
    } else if name.len() == 1 && (name[0] as u32) < 128 {
        Some(name)
    } else {
        None
    }
}

/// The text a glyph name stands for: a name from the standard list, or
/// a name that is a single ASCII character.
pub fn glyph_name_to_unicode(name: &str) -> (r: Option<String>)
    ensures
        match glyph_text(name@) {
            Some(t) => r matches Some(s) && s@ == t,
            None => r is None,
        },
{
    if str_equal(name, "space") {
        Some(String::from_str(" "))
    } else if str_equal(name, "nbspace") {
        Some(String::from_str("\u{00a0}"))
    } else if str_equal(name, "nonbreakingspace") {
        Some(String::from_str("\u{00a0}"))
    } else if str_equal(name, "exclam") {
        Some(String::from_str("!"))
    } else if str_equal(name, "quotedbl") {
        Some(String::from_str("\""))
    } else if str_equal(name, "numbersign") {
        Some(String::from_str("#"))
    } else if str_equal(name, "dollar") {
        Some(String::from_str("$"))
    } else if str_equal(name, "percent") {
        Some(String::from_str("%"))
    } else if str_equal(name, "ampersand") {
        Some(String::from_str("&"))
    } else if str_equal(name, "quotesingle") {
        Some(String::from_str("'"))
    } else if str_equal(name, "parenleft") {
        Some(String::from_str("("))
    } else if str_equal(name, "parenright") {
        Some(String::from_str(")"))
    } else if str_equal(name, "asterisk") {
        Some(String::from_str("*"))
    } else if str_equal(name, "plus") {
        Some(String::from_str("+"))
    } else if str_equal(name, "comma") {
        Some(String::from_str(","))
    } else if str_equal(name, "hyphen") {
        Some(String::from_str("-"))
    } else if str_equal(name, "period") {
        Some(String::from_str("."))
    } else if str_equal(name, "slash") {
        Some(String::from_str("/"))
    } else if str_equal(name, "colon") {
        Some(String::from_str(":"))
    } else if str_equal(name, "semicolon") {
        Some(String::from_str(";"))
    } else if str_equal(name, "less") {
        Some(String::from_str("<"))
    } else if str_equal(name, "equal") {
        Some(String::from_str("="))
    } else if str_equal(name, "greater") {
        Some(String::from_str(">"))
    } else if str_equal(name, "question") {
        Some(String::from_str("?"))
    } else if str_equal(name, "at") {
        Some(String::from_str("@"))
    } else if str_equal(name, "bracketleft") {
        Some(String::from_str("["))
    } else if str_equal(name, "backslash") {
        Some(String::from_str("\\"))
    } else if str_equal(name, "bracketright") {
        Some(String::from_str("]"))
    } else if str_equal(name, "asciicircum") {
        Some(String::from_str("^"))
    } else if str_equal(name, "underscore") {
        Some(String::from_str("_"))
    } else if str_equal(name, "grave") {
        Some(String::from_str("`"))
    } else if str_equal(name, "braceleft") {
        Some(String::from_str("{"))
    } else if str_equal(name, "bar") {
        Some(String::from_str("|"))
    } else if str_equal(name, "braceright") {
        Some(String::from_str("}"))
    } else if str_equal(name, "asciitilde") {
        Some(String::from_str("~"))
    } else if str_equal(name, "Euro") {
        Some(String::from_str("\u{20ac}"))
    } else if str_equal(name, "bullet") {
        Some(String::from_str("\u{2022}"))
    } else if str_equal(name, "endash") {
        Some(String::from_str("\u{2013}"))
    } else if str_equal(name, "emdash") {
        Some(String::from_str("\u{2014}"))
    } else if str_equal(name, "Aacute") {
        Some(String::from_str("\u{00c1}"))
    } else if str_equal(name, "aacute") {
        Some(String::from_str("\u{00e1}"))
    } else if str_equal(name, "Adieresis") {
        Some(String::from_str("\u{00c4}"))
    } else if str_equal(name, "adieresis") {
        Some(String::from_str("\u{00e4}"))
    } else if str_equal(name, "Ntilde") {
        Some(String::from_str("\u{00d1}"))
    } else if str_equal(name, "ntilde") {
        Some(String::from_str("\u{00f1}"))
    } else if str_equal(name, "Oslash") {
        Some(String::from_str("\u{00d8}"))
    } else if str_equal(name, "oslash") {
        Some(String::from_str("\u{00f8}"))
    } else if str_equal(name, "fi") {
        Some(String::from_str("\u{fb01}"))
    } else if str_equal(name, "fl") {
        Some(String::from_str("\u{fb02}"))
    } else if name.unicode_len() == 1 && (name.get_char(0) as u32) < 128 {
        Some(String::from_str(name))
    } else {
        None
    }
}

/// The character of a byte in MacRomanEncoding: ASCII below 128, the
/// Mac Roman table above.
pub open spec fn mac_roman_char(b: u8) -> char {
    if b < 128 {
        b as char
    } else {
        mac_roman_high(b - 128)
    }
}

/// The character of a byte in MacRomanEncoding.
pub fn decode_mac_roman_byte(byte: u8) -> (r: char)
    ensures
        r == mac_roman_char(byte),
{
    if byte < 128 {
        byte as char
    } else {
        mac_roman_high_char(byte - 128)
    }
}

/// The state after reading `items` of a `/Differences` array: the code
/// the next glyph name gets, and the texts assigned so far by code (a
/// later assignment to a code replaces an earlier one).
pub open spec fn differences_state(items: Seq<SpecValue>) -> (Option<u8>, Seq<(u8, Seq<char>)>)
    decreases items.len(),
{
    if items.len() == 0 {
        (None, Seq::empty())
    } else {
        let (code, m) = differences_state(items.drop_last());
        match items.last() {
            SpecValue::Integer(v) => (if 0 <= v <= 255 { Some(v as u8) } else { None }, m),
            SpecValue::Name(n) => match code {
                Some(c) => match glyph_text(n.subrange(1, n.len() as int)) {
                    Some(t) => (
                        if c < 255 {
                            Some((c + 1) as u8)
                        } else {
                            None
                        },
                        crate::types::spec_dict_insert(m, c, t),
                    ),
                    None => (code, m),
                },
                None => (code, m),
            },
            _ => (code, m),
        }
    }
}

/// The entries of a code-to-text list as mathematical values.
pub open spec fn code_texts(v: Seq<(u8, String)>) -> Seq<(u8, Seq<char>)> {
    Seq::new(v.len(), |i: int| (v[i].0, v[i].1@))
}

/// Sets the text of `code`, replacing the one it had.
fn set_code_text(map: &mut Vec<(u8, String)>, code: u8, text: String)
    ensures
        code_texts(final(map)@) == crate::types::spec_dict_insert(code_texts(old(map)@), code, text@),
{
    let ghost before = code_texts(map@);
    let ghost tv = text@;
    let mut i: usize = 0;
    while i < map.len()
        invariant
            i <= map@.len(),
            before == code_texts(map@),
            forall|j: int| 0 <= j < i ==> before[j].0 != code,
        ensures
            i <= map@.len(),
            before == code_texts(map@),
            forall|j: int| 0 <= j < i ==> before[j].0 != code,
            i < map@.len() ==> before[i as int].0 == code,
        decreases map@.len() - i,
    {
        if map[i].0 == code {
            break;
        }
        i = i + 1;
    }
    if i < map.len() {
        proof {
            crate::types::lemma_dict_insert_at(before, code, tv, i as int);
        }
        map.set(i, (code, text));
        proof {
            assert(code_texts(map@) =~= before.update(i as int, (code, tv)));
        }
    } else {
        proof {
            crate::types::lemma_dict_absent(before, code, tv);
        }
        map.push((code, text));
        proof {
            assert(code_texts(map@) =~= before.push((code, tv)));
        }
    }
}

/// The texts a `/Differences` array assigns to codes: an integer sets
/// the code of the next name (when it fits a byte), and each name with a
/// known text takes the current code, the next name the code after it.
pub fn parse_differences(value: Option<&PdfValue>) -> (r: Vec<(u8, String)>)
    ensures
        match value {
            Some(PdfValue::Array(items)) => code_texts(r@) == differences_state(crate::types::array_sv(items)).1,
            _ => r@.len() == 0,
        },
{
    let items = match value {
        Some(PdfValue::Array(items)) => items,
        _ => return Vec::new(),
    };
    proof {
        lemma_array_view(items);
    }
    let ghost sv = crate::types::array_sv(items);
    let mut code: Option<u8> = None;
    let mut differences: Vec<(u8, String)> = Vec::new();
    let mut i: usize = 0;
    while i < items.len()
        invariant
            i <= items@.len(),
            sv == crate::types::array_sv(items),
            sv.len() == items@.len(),
            forall|k: int| 0 <= k < items@.len() ==> #[trigger] sv[k] == items@[k].sv(),
            (code, code_texts(differences@)) == differences_state(sv.take(i as int)),
        decreases items@.len() - i,
    {
        proof {
            assert(sv.take(i + 1).drop_last() =~= sv.take(i as int));
            assert(sv.take(i + 1).last() == items@[i as int].sv());
            lemma_value_view(&items[i as int]);
        }
        match &items[i] {
            PdfValue::Integer(v) => {
                code = if *v >= 0 && *v <= 255 {
                    Some(*v as u8)
                } else {
                    None
                };
            },
            PdfValue::Name(name) => {
                match code {
                    Some(c) => {
                        match glyph_name_to_unicode(name.without_slash()) {
                            Some(text) => {
                                set_code_text(&mut differences, c, text);
                                code = if c < 255 {
                                    Some(c + 1)
                                } else {
                                    None
                                };
                            },
                            None => {},
                        }
                    },
                    None => {},
                }
            },
            _ => {},
        }
        i = i + 1;
    }
    proof {
        assert(sv.take(items@.len() as int) =~= sv);
    }
    differences
}


/// The name under `key`, without its `/`, when the entry is a name.
pub open spec fn name_under(d: Seq<(Seq<char>, SpecValue)>, key: Seq<char>) -> Option<Seq<char>> {
    crate::pdf_file::spec_name_entry(d, key)
}

/// What names a font: its subtype, its base font and its encoding.  The
/// subtype is the top dictionary's name, else the effective dictionary's
/// (the descendant font when there is one), else `Unknown`; the base font
/// is the top dictionary's `/BaseFont` when present, else the effective
/// one's, read as a name, else the resource name; the encoding is a name
/// given directly, else the `/BaseEncoding` of the encoding dictionary,
/// else `StandardEncoding`.
pub open spec fn spec_font_identity(
    name: Seq<char>,
    top: Seq<(Seq<char>, SpecValue)>,
    descendant: Seq<(Seq<char>, SpecValue)>,
    encoding_dict: Seq<(Seq<char>, SpecValue)>,
) -> (Seq<char>, Seq<char>, Seq<char>) {
    let effective = if descendant.len() == 0 { top } else { descendant };
    let subtype = match name_under(top, "Subtype"@) {
        Some(t) => t,
        None => match name_under(effective, "Subtype"@) {
            Some(t) => t,
            None => "Unknown"@,
        },
    };
    let base_key = crate::types::name_text("BaseFont"@);
    let base_value = match crate::types::spec_dict_get(top, base_key) {
        Some(v) => Some(v),
        None => crate::types::spec_dict_get(effective, base_key),
    };
    let base = match base_value {
        Some(SpecValue::Name(n)) => n.subrange(1, n.len() as int),
        _ => name,
    };
    let encoding = match crate::types::spec_dict_get(top, crate::types::name_text("Encoding"@)) {
        Some(SpecValue::Name(n)) => n.subrange(1, n.len() as int),
        Some(_) => match name_under(encoding_dict, "BaseEncoding"@) {
            Some(e) => e,
            None => "StandardEncoding"@,
        },
        None => "StandardEncoding"@,
    };
    (subtype, base, encoding)
}

/// A name entry's text, or `None`.
fn name_text_of(d: &PdfDictionary, key: &str) -> (r: Option<String>)
    ensures
        match name_under(d.sv_entries(), key@) {
            Some(n) => r matches Some(x) && x@ == n,
            None => r is None,
        },
{
    match crate::pdf_file::name_entry(d, key) {
        Some(n) => Some(String::from_str(n)),
        None => None,
    }
}

/// The subtype, base font and encoding names of a font (see
/// `spec_font_identity`); `encoding_dict` is the resolved `/Encoding`
/// dictionary when that entry is not a name.
pub fn font_identity(name: &str, top: &PdfDictionary, descendant: &PdfDictionary, encoding_dict: &PdfDictionary) -> (r: (
    String,
    String,
    String,
))
    ensures
        (r.0@, r.1@, r.2@) == spec_font_identity(name@, top.sv_entries(), descendant.sv_entries(), encoding_dict.sv_entries()),
{
    proof {
        reveal_strlit("Unknown");
        reveal_strlit("StandardEncoding");
    }
    let effective = if descendant.len() == 0 {
        top
    } else {
        descendant
    };
    let subtype = match name_text_of(top, "Subtype") {
        Some(t) => t,
        None => match name_text_of(effective, "Subtype") {
            Some(t) => t,
            None => String::from_str("Unknown"),
        },
    };
    let base_value = match top.get("BaseFont") {
        Some(v) => Some(v),
        None => effective.get("BaseFont"),
    };
    let base = match base_value {
        Some(v) => {
            proof {
                lemma_value_view(v);
            }
            match v {
                PdfValue::Name(n) => String::from_str(n.without_slash()),
                _ => String::from_str(name),
            }
        },
        None => String::from_str(name),
    };
    let encoding = match top.get("Encoding") {
        Some(v) => {
            proof {
                lemma_value_view(v);
            }
            match v {
                PdfValue::Name(n) => String::from_str(n.without_slash()),
                _ => match name_text_of(encoding_dict, "BaseEncoding") {
                    Some(e) => e,
                    None => String::from_str("StandardEncoding"),
                },
            }
        },
        None => String::from_str("StandardEncoding"),
    };
    (subtype, base, encoding)
}

} // verus!

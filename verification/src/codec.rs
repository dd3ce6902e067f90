//! The executable text codec: strict parsing, lax parsing and formatting,
//! each proved against the model in `text`.

use vstd::prelude::*;

use crate::id128::Error;
use crate::id128::ID128;
use crate::text::Case;
use crate::text::Format;
use crate::text::ParseOutcome;
use crate::text::char_ok;
use crate::text::dash_after_byte;
use crate::text::dash_count;
use crate::text::decode_hex_pairs;
use crate::text::detected_format;
use crate::text::first_bad_index;
use crate::text::hex_char;
use crate::text::hex_digit_value;
use crate::text::hex_pair_value;
use crate::text::is_dash_position;
use crate::text::is_hex_digit;
use crate::text::is_space_char;
use crate::text::lax_normalized;
use crate::text::lemma_first_bad_index_skip;
use crate::text::lemma_strip_dashes_len;
use crate::text::lemma_strip_dashes_push;
use crate::text::lemma_trim_end_at;
use crate::text::lemma_trim_start_at;
use crate::text::rendered_prefix;
use crate::text::spec_canonical;
use crate::text::spec_format;
use crate::text::spec_parse;
use crate::text::strip_dashes;
use crate::text::trimmed;

verus! {

/// The diagnostic message of a length mismatch.
pub open spec fn length_error_text() -> Seq<char> {
    "Invalid string length: "@
}

/// The diagnostic message of a dash at a forbidden position.
pub open spec fn dash_error_text() -> Seq<char> {
    "String contains an unexpected dash at position: "@
}

/// The diagnostic message of a character outside the hex-or-dash alphabet.
pub open spec fn char_error_text() -> Seq<char> {
    "String contains an invalid character at position: "@
}

/// How an executable parse result realizes a model outcome: accepted text
/// yields the decoded identifier; each rejection yields the parse error
/// whose message names its kind and whose number is the model's diagnostic.
pub open spec fn parse_result_matches(o: ParseOutcome, r: Result<ID128, Error>) -> bool {
    match o {
        ParseOutcome::Accepted { bytes } => r matches Ok(id) && id@ == bytes,
        ParseOutcome::LengthMismatch { observed_length } => r matches Err(
            Error::ParseStringError(m, p),
        ) && m@ == length_error_text() && p == observed_length,
        ParseOutcome::UnexpectedDash { offset } => r matches Err(Error::ParseStringError(m, p))
            && m@ == dash_error_text() && p == offset,
        ParseOutcome::InvalidCharacter { offset } => r matches Err(Error::ParseStringError(m, p))
            && m@ == char_error_text() && p == offset,
    }
}

/// The numeric value of a hexadecimal digit character, or `None` for any
/// other character.
fn hex_value_of(c: char) -> (r: Option<u8>)
    ensures
        is_hex_digit(c) ==> r == Some(hex_digit_value(c)),
        !is_hex_digit(c) ==> r is None,
        r matches Some(v) ==> v < 16,
{
    let u = c as u32;
    if 48 <= u && u <= 57 {
        Some((u - 48) as u8)
    } else if 97 <= u && u <= 102 {
        Some((u - 97 + 10) as u8)
    } else if 65 <= u && u <= 70 {
        Some((u - 65 + 10) as u8)
    } else {
        None
    }
}

/// Whether layout `f` permits a dash at character offset `i`.
fn dash_allowed(f: Format, i: usize) -> (r: bool)
    ensures
        r == is_dash_position(f, i as int),
{
    match f {
        Format::Simple => i == 4 || i == 9 || i == 14 || i == 19 || i == 24 || i == 29 || i == 34,
        Format::LibSystemD => false,
        Format::RFC => i == 8 || i == 13 || i == 18 || i == 23,
    }
}

/// Whether `c` is whitespace in the sense of the lax parser's trimming.
fn is_space(c: char) -> (r: bool)
    ensures
        r == is_space_char(c),
{
    let u = c as u32;
    (9 <= u && u <= 13) || u == 0x20 || u == 0x85 || u == 0xA0 || u == 0x1680 || (0x2000 <= u && u
        <= 0x200A) || u == 0x2028 || u == 0x2029 || u == 0x202F || u == 0x205F || u == 0x3000
}

/// The one-character string holding the glyph of the hexadecimal digit
/// value `v` in the requested case.
fn hex_str(case: Case, v: u8) -> (r: &'static str)
    requires
        v < 16,
    ensures
        r@.len() == 1,
        r@[0] == hex_char(case, v),
{
    proof {
        reveal_strlit("0");
        reveal_strlit("1");
        reveal_strlit("2");
        reveal_strlit("3");
        reveal_strlit("4");
        reveal_strlit("5");
        reveal_strlit("6");
        reveal_strlit("7");
        reveal_strlit("8");
        reveal_strlit("9");
        reveal_strlit("a");
        reveal_strlit("b");
        reveal_strlit("c");
        reveal_strlit("d");
        reveal_strlit("e");
        reveal_strlit("f");
        reveal_strlit("A");
        reveal_strlit("B");
        reveal_strlit("C");
        reveal_strlit("D");
        reveal_strlit("E");
        reveal_strlit("F");
    }
    if v == 0 {
        "0"
    } else if v == 1 {
        "1"
    } else if v == 2 {
        "2"
    } else if v == 3 {
        "3"
    } else if v == 4 {
        "4"
    } else if v == 5 {
        "5"
    } else if v == 6 {
        "6"
    } else if v == 7 {
        "7"
    } else if v == 8 {
        "8"
    } else if v == 9 {
        "9"
    } else {
        match case {
            Case::Lower => {
                if v == 10 {
                    "a"
                } else if v == 11 {
                    "b"
                } else if v == 12 {
                    "c"
                } else if v == 13 {
                    "d"
                } else if v == 14 {
                    "e"
                } else {
                    "f"
                }
            },
            Case::Upper => {
                if v == 10 {
                    "A"
                } else if v == 11 {
                    "B"
                } else if v == 12 {
                    "C"
                } else if v == 13 {
                    "D"
                } else if v == 14 {
                    "E"
                } else {
                    "F"
                }
            },
        }
    }
}

/// Whether the rendering places a dash after byte position `p` under
/// layout `f`.
fn dash_after(f: Format, p: usize) -> (r: bool)
    ensures
        r == dash_after_byte(f, p as int),
{
    match f {
        Format::Simple => p % 2 == 1 && p < 15,
        Format::LibSystemD => false,
        Format::RFC => p == 3 || p == 5 || p == 7 || p == 9,
    }
}

/// The strict parser's core, over a sequence of characters: layout
/// detection by (length, dash count), then a single left-to-right decoding
/// pass that fails fast at the first unacceptable character.
#[verifier::rlimit(60)]
pub(crate) fn parse_chars(s: &[char]) -> (r: Result<ID128, Error>)
    ensures
        parse_result_matches(spec_parse(s@), r),
{
    let n = s.len();
    let mut dashes: usize = 0;
    let mut i: usize = 0;
    while i < n
        invariant
            i <= n,
            n == s@.len(),
            dashes == dash_count(s@.subrange(0, i as int)),
            dashes <= i,
        decreases n - i,
    {
        proof {
            let pre = s@.subrange(0, i as int);
            assert(s@.subrange(0, i as int + 1) =~= pre.push(s@[i as int]));
            lemma_strip_dashes_push(pre, s@[i as int]);
            lemma_strip_dashes_len(pre);
            lemma_strip_dashes_len(s@.subrange(0, i as int + 1));
        }
        if s[i] == '-' {
            dashes = dashes + 1;
        }
        i = i + 1;
    }
    proof {
        assert(s@.subrange(0, n as int) =~= s@);
    }
    let format = if n == 39 && dashes == 7 {
        Format::Simple
    } else if n == 32 && dashes == 0 {
        Format::LibSystemD
    } else if n == 36 && dashes == 4 {
        Format::RFC
    } else {
        return Err(Error::ParseStringError("Invalid string length: ", n));
    };
    let mut out: Vec<u8> = Vec::new();
    let mut value: u8 = 0;
    let mut pair = false;
    let mut i: usize = 0;
    while i < n
        invariant
            i <= n,
            n == s@.len(),
            detected_format(s@) == Some(format),
            forall|k: int| 0 <= k < i ==> char_ok(format, #[trigger] s@[k], k),
            ({
                let h = strip_dashes(s@.subrange(0, i as int));
                &&& h.len() == 2 * out@.len() + (if pair {
                    1int
                } else {
                    0int
                })
                &&& out@ == decode_hex_pairs(h)
                &&& (pair ==> h.len() > 0 && is_hex_digit(h.last()) && value == hex_digit_value(
                    h.last(),
                ) * 16)
                &&& (!pair ==> value == 0)
            }),
        decreases n - i,
    {
        let ghost h0 = strip_dashes(s@.subrange(0, i as int));
        proof {
            assert(s@.subrange(0, i as int + 1) =~= s@.subrange(0, i as int).push(s@[i as int]));
            lemma_strip_dashes_push(s@.subrange(0, i as int), s@[i as int]);
        }
        let c = s[i];
        match hex_value_of(c) {
            Some(v) => {
                let ghost h1 = strip_dashes(s@.subrange(0, i as int + 1));
                proof {
                    assert(h1 == h0.push(c));
                }
                if pair {
                    let b = value + v;
                    out.push(b);
                    proof {
                        let m = (h0.len() - 1) / 2;
                        assert(h0.last() == h0[2 * m]);
                        assert(b == hex_pair_value(h0[2 * m], c));
                        assert forall|j: int| 0 <= j < m + 1 implies decode_hex_pairs(h1)[j]
                            == out@[j] by {
                            if j < m {
                                assert(h1[2 * j] == h0[2 * j]);
                                assert(h1[2 * j + 1] == h0[2 * j + 1]);
                            } else {
                                assert(h1[2 * j] == h0[2 * m]);
                                assert(h1[2 * j + 1] == c);
                            }
                        }
                        assert(decode_hex_pairs(h1) =~= out@);
                    }
                    value = 0;
                    pair = false;
                } else {
                    proof {
                        assert forall|j: int| 0 <= j < out@.len() implies decode_hex_pairs(h1)[j]
                            == out@[j] by {
                            assert(h1[2 * j] == h0[2 * j]);
                            assert(h1[2 * j + 1] == h0[2 * j + 1]);
                        }
                        assert(decode_hex_pairs(h1) =~= out@);
                        assert(h1.last() == c);
                    }
                    value = v * 16;
                    pair = true;
                }
            },
            None => {
                if c == '-' {
                    if dash_allowed(format, i) {
                        proof {
                            assert(strip_dashes(s@.subrange(0, i as int + 1)) == h0);
                        }
                    } else {
                        proof {
                            assert(!char_ok(format, s@[i as int], i as int));
                            lemma_first_bad_index_skip(format, s@, i as int);
                            assert(first_bad_index(format, s@, i as int) == i as int);
                        }
                        return Err(
                            Error::ParseStringError(
                                "String contains an unexpected dash at position: ",
                                i,
                            ),
                        );
                    }
                } else {
                    proof {
                        assert(!char_ok(format, s@[i as int], i as int));
                        lemma_first_bad_index_skip(format, s@, i as int);
                        assert(first_bad_index(format, s@, i as int) == i as int);
                    }
                    return Err(
                        Error::ParseStringError(
                            "String contains an invalid character at position: ",
                            i,
                        ),
                    );
                }
            },
        }
        i = i + 1;
    }
    proof {
        assert(s@.subrange(0, n as int) =~= s@);
        lemma_first_bad_index_skip(format, s@, n as int);
        let h = strip_dashes(s@);
        assert(h.len() == n - dash_count(s@));
        assert(h.len() == 32);
        assert(out@.len() == 16);
    }
    let raw: [u8; 16] = [
        out[0],
        out[1],
        out[2],
        out[3],
        out[4],
        out[5],
        out[6],
        out[7],
        out[8],
        out[9],
        out[10],
        out[11],
        out[12],
        out[13],
        out[14],
        out[15],
    ];
    let id = ID128::from_raw_value(raw);
    proof {
        assert(raw@ =~= out@);
    }
    Ok(id)
}

impl ID128 {
    /// Parses a string into an identifier under strict formatting rules.
    ///
    /// The text must be exactly one of the three layouts: hexadecimal
    /// digits of either case, with dashes exactly at the detected layout's
    /// dash positions. On any other input the parse fails fast with a
    /// diagnostic carrying the observed length or the offending character
    /// offset, as `spec_parse` lays down.
    pub fn from_str(string: &str) -> (r: Result<ID128, Error>)
        ensures
            parse_result_matches(spec_parse(string@), r),
    {
        let n = string.unicode_len();
        let mut v: Vec<char> = Vec::new();
        let mut i: usize = 0;
        while i < n
            invariant
                i <= n,
                n == string@.len(),
                v@ == string@.subrange(0, i as int),
            decreases n - i,
        {
            v.push(string.get_char(i));
            proof {
                assert(string@.subrange(0, i as int + 1) =~= string@.subrange(0, i as int).push(
                    string@[i as int],
                ));
            }
            i = i + 1;
        }
        proof {
            assert(string@.subrange(0, n as int) =~= string@);
        }
        parse_chars(v.as_slice())
    }

    /// Parses a string into an identifier under lax formatting rules.
    ///
    /// Leading and trailing whitespace is trimmed and every dash is
    /// dropped, wherever it stands; the strict parser then decides on the
    /// normalized text, which can only match the dash-free layout. Dash
    /// placement is therefore never validated here; digit count and
    /// character validity still are.
    pub fn from_str_lax(string: &str) -> (r: Result<ID128, Error>)
        ensures
            parse_result_matches(spec_parse(lax_normalized(string@)), r),
    {
        let n = string.unicode_len();
        let mut a: usize = 0;
        while a < n && is_space(string.get_char(a))
            invariant
                a <= n,
                n == string@.len(),
                forall|k: int| 0 <= k < a ==> is_space_char(#[trigger] string@[k]),
            decreases n - a,
        {
            a = a + 1;
        }
        let mut b: usize = n;
        while b > a && is_space(string.get_char(b - 1))
            invariant
                a <= b <= n,
                n == string@.len(),
                forall|k: int| 0 <= k < a ==> is_space_char(#[trigger] string@[k]),
                forall|k: int| b <= k < n ==> is_space_char(#[trigger] string@[k]),
            decreases b,
        {
            b = b - 1;
        }
        proof {
            lemma_trim_start_at(string@, a as int);
            let t = string@.subrange(a as int, n as int);
            assert(b > a ==> !is_space_char(t[b - a - 1]));
            assert forall|k: int| b - a <= k < t.len() implies is_space_char(#[trigger] t[k]) by {
                assert(t[k] == string@[k + a]);
            }
            lemma_trim_end_at(t, b as int - a as int);
            assert(trimmed(string@) == t.subrange(0, b as int - a as int));
            assert(t.subrange(0, b as int - a as int) =~= string@.subrange(a as int, b as int));
        }
        let mut v: Vec<char> = Vec::new();
        let mut i: usize = a;
        while i < b
            invariant
                a <= i <= b <= n,
                n == string@.len(),
                v@ == strip_dashes(string@.subrange(a as int, i as int)),
            decreases b - i,
        {
            proof {
                let pre = string@.subrange(a as int, i as int);
                assert(string@.subrange(a as int, i as int + 1) =~= pre.push(string@[i as int]));
                lemma_strip_dashes_push(pre, string@[i as int]);
            }
            let c = string.get_char(i);
            if c != '-' {
                v.push(c);
            }
            i = i + 1;
        }
        proof {
            assert(trimmed(string@) == string@.subrange(a as int, b as int));
            assert(v@ == lax_normalized(string@));
        }
        parse_chars(v.as_slice())
    }

    /// Renders the identifier in the requested layout and case: each byte
    /// as two hexadecimal digits, with a dash wherever the layout mandates
    /// one. A total operation; it cannot fail.
    pub fn to_string_formatted(&self, format: Format, case: Case) -> (r: String)
        ensures
            r@ == spec_format(self@, format, case),
    {
        let bytes = self.as_raw_value();
        let mut result = String::new();
        let mut p: usize = 0;
        while p < 16
            invariant
                p <= 16,
                bytes@ == self@,
                self@.len() == 16,
                result@ == rendered_prefix(self@, format, case, p as int),
            decreases 16 - p,
        {
            let b = bytes[p];
            result.append(hex_str(case, b / 16));
            result.append(hex_str(case, b % 16));
            if dash_after(format, p) {
                result.append("-");
            }
            proof {
                reveal_strlit("-");
                assert(result@ =~= rendered_prefix(self@, format, case, p as int + 1));
            }
            p = p + 1;
        }
        result
    }

    /// Renders the identifier in its canonical text form: the `RFC` layout
    /// in lower case.
    pub fn to_string_default(&self) -> (r: String)
        ensures
            r@ == spec_canonical(self@),
    {
        self.to_string_formatted(Format::RFC, Case::Lower)
    }
}

} // verus!

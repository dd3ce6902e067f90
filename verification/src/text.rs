//! The mathematical model of the text codec: character classes, the three
//! layouts, layout detection, the strict parse function, and the rendering
//! function. Everything here is specification-level; the executable codec
//! in `codec` is proved against these definitions.

use vstd::prelude::*;

verus! {

/// The three textual layouts of an identifier.
///
/// | Layout       | Length | Dashes | Dash positions (character offsets) |
/// |--------------|--------|--------|------------------------------------|
/// | `Simple`     | 39     | 7      | 4, 9, 14, 19, 24, 29, 34           |
/// | `LibSystemD` | 32     | 0      | none                               |
/// | `RFC`        | 36     | 4      | 8, 13, 18, 23                      |
#[derive(Debug, Clone, Copy, PartialEq, Eq, Structural)]
pub enum Format {
    Simple,
    LibSystemD,
    RFC,
}

/// The letter case of the hexadecimal digit glyphs used when rendering.
/// Parsing accepts either case unconditionally.
#[derive(Debug, Clone, Copy, PartialEq, Eq, Structural)]
pub enum Case {
    Upper,
    Lower,
}

/// A character that may stand for a hexadecimal digit: `0`-`9`, `a`-`f`,
/// `A`-`F`.
pub open spec fn is_hex_digit(c: char) -> bool {
    ||| '0' as u32 <= c as u32 <= '9' as u32
    ||| 'a' as u32 <= c as u32 <= 'f' as u32
    ||| 'A' as u32 <= c as u32 <= 'F' as u32
}

/// The numeric value, 0 through 15, of a hexadecimal digit character.
pub open spec fn hex_digit_value(c: char) -> u8
    recommends
        is_hex_digit(c),
{
    if '0' as u32 <= c as u32 <= '9' as u32 {
        (c as u32 - '0' as u32) as u8
    } else if 'a' as u32 <= c as u32 <= 'f' as u32 {
        (c as u32 - 'a' as u32 + 10) as u8
    } else {
        (c as u32 - 'A' as u32 + 10) as u8
    }
}

/// Total character length of a layout.
pub open spec fn layout_len(f: Format) -> int {
    match f {
        Format::Simple => 39,
        Format::LibSystemD => 32,
        Format::RFC => 36,
    }
}

/// Number of dash characters in a layout.
pub open spec fn layout_dash_count(f: Format) -> int {
    match f {
        Format::Simple => 7,
        Format::LibSystemD => 0,
        Format::RFC => 4,
    }
}

/// Whether a layout permits (and therefore demands) a dash at character
/// offset `i`.
pub open spec fn is_dash_position(f: Format, i: int) -> bool {
    match f {
        Format::Simple => i == 4 || i == 9 || i == 14 || i == 19 || i == 24 || i == 29 || i == 34,
        Format::LibSystemD => false,
        Format::RFC => i == 8 || i == 13 || i == 18 || i == 23,
    }
}

/// The character sequence with every dash removed. The model of both dash
/// counting (by the length difference) and of hex-pair extraction.
pub open spec fn strip_dashes(s: Seq<char>) -> Seq<char>
    decreases s.len(),
{
    if s.len() == 0 {
        Seq::empty()
    } else if s.last() == '-' {
        strip_dashes(s.drop_last())
    } else {
        strip_dashes(s.drop_last()).push(s.last())
    }
}

/// Number of dash characters in `s`.
pub open spec fn dash_count(s: Seq<char>) -> int {
    s.len() - strip_dashes(s).len()
}

/// Layout detection: the unique layout whose (length, dash count) pair
/// matches the text, if any.
pub open spec fn detected_format(s: Seq<char>) -> Option<Format> {
    if s.len() == layout_len(Format::Simple) && dash_count(s) == layout_dash_count(
        Format::Simple,
    ) {
        Some(Format::Simple)
    } else if s.len() == layout_len(Format::LibSystemD) && dash_count(s) == layout_dash_count(
        Format::LibSystemD,
    ) {
        Some(Format::LibSystemD)
    } else if s.len() == layout_len(Format::RFC) && dash_count(s) == layout_dash_count(
        Format::RFC,
    ) {
        Some(Format::RFC)
    } else {
        None
    }
}

/// A character the strict parser accepts at offset `i` under layout `f`:
/// a hexadecimal digit anywhere, or a dash at one of the layout's dash
/// positions.
pub open spec fn char_ok(f: Format, c: char, i: int) -> bool {
    is_hex_digit(c) || (c == '-' && is_dash_position(f, i))
}

/// Every character of `s` is acceptable at its offset under layout `f`.
pub open spec fn text_ok(f: Format, s: Seq<char>) -> bool {
    forall|i: int| 0 <= i < s.len() ==> char_ok(f, #[trigger] s[i], i)
}

/// The offset of the first unacceptable character at or after offset `i`,
/// or the length of `s` if every remaining character is acceptable.
pub open spec fn first_bad_index(f: Format, s: Seq<char>, i: int) -> int
    decreases s.len() - i,
{
    if i < 0 || i >= s.len() {
        s.len() as int
    } else if !char_ok(f, s[i], i) {
        i
    } else {
        first_bad_index(f, s, i + 1)
    }
}

/// The byte encoded by a pair of hexadecimal digit characters, high digit
/// first.
pub open spec fn hex_pair_value(hi: char, lo: char) -> u8
    recommends
        is_hex_digit(hi),
        is_hex_digit(lo),
{
    (hex_digit_value(hi) * 16 + hex_digit_value(lo)) as u8
}

/// The bytes encoded by consecutive pairs of hexadecimal digit characters.
pub open spec fn decode_hex_pairs(h: Seq<char>) -> Seq<u8> {
    Seq::new((h.len() / 2) as nat, |j: int| hex_pair_value(h[2 * j], h[2 * j + 1]))
}

/// What the strict parser yields on a given character sequence: the decoded
/// bytes, or one of the three rejection kinds with its diagnostic offset
/// (or observed length).
pub enum ParseOutcome {
    Accepted { bytes: Seq<u8> },
    LengthMismatch { observed_length: int },
    UnexpectedDash { offset: int },
    InvalidCharacter { offset: int },
}

/// The strict parse, as a total function on character sequences.
///
/// A text whose (length, dash count) pair matches no layout is rejected as a
/// length mismatch carrying the observed length. Otherwise the first
/// unacceptable character decides: a dash off the layout's dash positions is
/// an unexpected dash, any other non-hexadecimal character is an invalid
/// character, each carrying its offset. With no unacceptable character the
/// text is accepted and decodes, dashes dropped, to 16 bytes.
pub open spec fn spec_parse(s: Seq<char>) -> ParseOutcome {
    match detected_format(s) {
        None => ParseOutcome::LengthMismatch { observed_length: s.len() as int },
        Some(f) => {
            let bad = first_bad_index(f, s, 0);
            if bad == s.len() {
                ParseOutcome::Accepted { bytes: decode_hex_pairs(strip_dashes(s)) }
            } else if s[bad] == '-' {
                ParseOutcome::UnexpectedDash { offset: bad }
            } else {
                ParseOutcome::InvalidCharacter { offset: bad }
            }
        },
    }
}

/// A whitespace character, as the lax parser's trimming understands it:
/// the Unicode `White_Space` set.
pub open spec fn is_space_char(c: char) -> bool {
    ||| c as u32 == 0x9
    ||| c as u32 == 0xA
    ||| c as u32 == 0xB
    ||| c as u32 == 0xC
    ||| c as u32 == 0xD
    ||| c as u32 == 0x20
    ||| c as u32 == 0x85
    ||| c as u32 == 0xA0
    ||| c as u32 == 0x1680
    ||| 0x2000 <= c as u32 <= 0x200A
    ||| c as u32 == 0x2028
    ||| c as u32 == 0x2029
    ||| c as u32 == 0x202F
    ||| c as u32 == 0x205F
    ||| c as u32 == 0x3000
}

/// `s` with leading whitespace removed.
pub open spec fn trim_start_spec(s: Seq<char>) -> Seq<char>
    decreases s.len(),
{
    if s.len() > 0 && is_space_char(s[0]) {
        trim_start_spec(s.drop_first())
    } else {
        s
    }
}

/// `s` with trailing whitespace removed.
pub open spec fn trim_end_spec(s: Seq<char>) -> Seq<char>
    decreases s.len(),
{
    if s.len() > 0 && is_space_char(s.last()) {
        trim_end_spec(s.drop_last())
    } else {
        s
    }
}

/// `s` with whitespace removed from both ends.
pub open spec fn trimmed(s: Seq<char>) -> Seq<char> {
    trim_end_spec(trim_start_spec(s))
}

/// The lax parser's preprocessing: trim both ends, then drop every dash,
/// wherever it stands.
pub open spec fn lax_normalized(s: Seq<char>) -> Seq<char> {
    strip_dashes(trimmed(s))
}

/// Whether the rendering of a layout places a dash immediately after byte
/// position `p` (0-indexed among the 16 bytes).
pub open spec fn dash_after_byte(f: Format, p: int) -> bool {
    match f {
        Format::Simple => p % 2 == 1 && p < 15,
        Format::LibSystemD => false,
        Format::RFC => p == 3 || p == 5 || p == 7 || p == 9,
    }
}

/// How many dashes the rendering of layout `f` emits after the bytes at
/// positions 0 through `p - 1`.
pub open spec fn dashes_before_byte(f: Format, p: int) -> int {
    match f {
        Format::Simple => {
            if p <= 1 {
                0
            } else if p <= 3 {
                1
            } else if p <= 5 {
                2
            } else if p <= 7 {
                3
            } else if p <= 9 {
                4
            } else if p <= 11 {
                5
            } else if p <= 13 {
                6
            } else {
                7
            }
        },
        Format::LibSystemD => 0,
        Format::RFC => {
            if p <= 3 {
                0
            } else if p <= 5 {
                1
            } else if p <= 7 {
                2
            } else if p <= 9 {
                3
            } else {
                4
            }
        },
    }
}

/// The glyph for a single hexadecimal digit value, 0 through 15, in the
/// requested case.
pub open spec fn hex_char(case: Case, v: u8) -> char
    recommends
        v < 16,
{
    if v < 10 {
        (('0' as u8) + v) as char
    } else {
        match case {
            Case::Lower => (('a' as u8) + (v - 10)) as char,
            Case::Upper => (('A' as u8) + (v - 10)) as char,
        }
    }
}

/// The fragment rendered for the byte `b` at byte position `p`: its two
/// hexadecimal digits, followed by a dash where the layout mandates one.
pub open spec fn byte_chunk(b: u8, f: Format, case: Case, p: int) -> Seq<char> {
    let two = seq![hex_char(case, b / 16), hex_char(case, b % 16)];
    if dash_after_byte(f, p) {
        two.push('-')
    } else {
        two
    }
}

/// The rendering of the first `n` bytes of `bytes` under layout `f` and
/// case `case`.
pub open spec fn rendered_prefix(bytes: Seq<u8>, f: Format, case: Case, n: int) -> Seq<char>
    decreases n,
{
    if n <= 0 {
        Seq::empty()
    } else {
        rendered_prefix(bytes, f, case, n - 1) + byte_chunk(bytes[n - 1], f, case, n - 1)
    }
}

/// The rendering of a full 16-byte value: what the formatter returns. A
/// total function; rendering cannot fail.
pub open spec fn spec_format(bytes: Seq<u8>, f: Format, case: Case) -> Seq<char>
    recommends
        bytes.len() == 16,
{
    rendered_prefix(bytes, f, case, 16)
}

/// The canonical text form: the `RFC` layout in lower case.
pub open spec fn spec_canonical(bytes: Seq<u8>) -> Seq<char> {
    spec_format(bytes, Format::RFC, Case::Lower)
}

/// How many of a layout's dash character offsets lie below offset `n`.
pub open spec fn dash_positions_below(f: Format, n: int) -> int {
    match f {
        Format::Simple => {
            if n <= 4 {
                0
            } else if n <= 9 {
                1
            } else if n <= 14 {
                2
            } else if n <= 19 {
                3
            } else if n <= 24 {
                4
            } else if n <= 29 {
                5
            } else if n <= 34 {
                6
            } else {
                7
            }
        },
        Format::LibSystemD => 0,
        Format::RFC => {
            if n <= 8 {
                0
            } else if n <= 13 {
                1
            } else if n <= 18 {
                2
            } else if n <= 23 {
                3
            } else {
                4
            }
        },
    }
}

/// The hexadecimal-digit characters produced by rendering, mapped to the
/// other case: `a`-`f` and `A`-`F` exchanged, everything else unchanged.
/// On the hex-or-dash alphabet these coincide with Unicode case mapping.
pub open spec fn upper_hex(c: char) -> char {
    if c == 'a' {
        'A'
    } else if c == 'b' {
        'B'
    } else if c == 'c' {
        'C'
    } else if c == 'd' {
        'D'
    } else if c == 'e' {
        'E'
    } else if c == 'f' {
        'F'
    } else {
        c
    }
}

/// The lower-case counterpart of [`upper_hex`].
pub open spec fn lower_hex(c: char) -> char {
    if c == 'A' {
        'a'
    } else if c == 'B' {
        'b'
    } else if c == 'C' {
        'c'
    } else if c == 'D' {
        'd'
    } else if c == 'E' {
        'e'
    } else if c == 'F' {
        'f'
    } else {
        c
    }
}

/// `s` with every hexadecimal letter raised to upper case.
pub open spec fn to_upper_hex(s: Seq<char>) -> Seq<char> {
    s.map_values(|c: char| upper_hex(c))
}

/// `s` with every hexadecimal letter lowered to lower case.
pub open spec fn to_lower_hex(s: Seq<char>) -> Seq<char> {
    s.map_values(|c: char| lower_hex(c))
}

/// Appending one character either drops it (a dash) or keeps it at the end.
pub proof fn lemma_strip_dashes_push(s: Seq<char>, c: char)
    ensures
        c == '-' ==> strip_dashes(s.push(c)) == strip_dashes(s),
        c != '-' ==> strip_dashes(s.push(c)) == strip_dashes(s).push(c),
{
    assert(s.push(c).drop_last() =~= s);
    assert(s.push(c).last() == c);
}

/// Stripping never lengthens a sequence.
pub proof fn lemma_strip_dashes_len(s: Seq<char>)
    ensures
        strip_dashes(s).len() <= s.len(),
    decreases s.len(),
{
    if s.len() > 0 {
        lemma_strip_dashes_len(s.drop_last());
    }
}

/// The stripped sequence holds no dash.
pub proof fn lemma_strip_dashes_no_dash(s: Seq<char>)
    ensures
        forall|j: int| 0 <= j < strip_dashes(s).len() ==> #[trigger] strip_dashes(s)[j] != '-',
    decreases s.len(),
{
    if s.len() > 0 {
        lemma_strip_dashes_no_dash(s.drop_last());
        let t = strip_dashes(s.drop_last());
        if s.last() != '-' {
            assert forall|j: int| 0 <= j < strip_dashes(s).len() implies #[trigger] strip_dashes(
                s,
            )[j] != '-' by {
                if j < t.len() {
                    assert(strip_dashes(s)[j] == t[j]);
                } else {
                    assert(strip_dashes(s)[j] == s.last());
                }
            }
        }
    }
}

/// A sequence without dashes is left unchanged by stripping.
pub proof fn lemma_strip_dashes_id(s: Seq<char>)
    requires
        forall|k: int| 0 <= k < s.len() ==> #[trigger] s[k] != '-',
    ensures
        strip_dashes(s) == s,
    decreases s.len(),
{
    if s.len() > 0 {
        lemma_strip_dashes_id(s.drop_last());
        assert(strip_dashes(s) =~= s);
    }
}

/// If every character of `s` is a hexadecimal digit or a dash, every
/// character that survives stripping is a hexadecimal digit.
pub proof fn lemma_strip_dashes_hex(s: Seq<char>)
    requires
        forall|k: int| 0 <= k < s.len() ==> is_hex_digit(#[trigger] s[k]) || s[k] == '-',
    ensures
        forall|j: int| 0 <= j < strip_dashes(s).len() ==> is_hex_digit(
            #[trigger] strip_dashes(s)[j],
        ),
    decreases s.len(),
{
    if s.len() > 0 {
        assert(forall|k: int|
            0 <= k < s.drop_last().len() ==> is_hex_digit(#[trigger] s.drop_last()[k])
                || s.drop_last()[k] == '-');
        lemma_strip_dashes_hex(s.drop_last());
        let t = strip_dashes(s.drop_last());
        if s.last() != '-' {
            assert(is_hex_digit(s.last()));
            assert forall|j: int| 0 <= j < strip_dashes(s).len() implies is_hex_digit(
                #[trigger] strip_dashes(s)[j],
            ) by {
                if j < t.len() {
                    assert(strip_dashes(s)[j] == t[j]);
                } else {
                    assert(strip_dashes(s)[j] == s.last());
                }
            }
        }
    }
}

/// Skipping an acceptable prefix does not move the first unacceptable
/// character.
pub proof fn lemma_first_bad_index_skip(f: Format, s: Seq<char>, i: int)
    requires
        0 <= i <= s.len(),
        forall|k: int| 0 <= k < i ==> char_ok(f, #[trigger] s[k], k),
    ensures
        first_bad_index(f, s, 0) == first_bad_index(f, s, i),
    decreases i,
{
    if i > 0 {
        lemma_first_bad_index_skip(f, s, i - 1);
    }
}

/// The text is fully acceptable exactly when the first unacceptable
/// character sits past the end.
pub proof fn lemma_text_ok_first_bad(f: Format, s: Seq<char>)
    ensures
        text_ok(f, s) <==> first_bad_index(f, s, 0) == s.len(),
{
    if text_ok(f, s) {
        lemma_first_bad_index_skip(f, s, s.len() as int);
    } else {
        let w = choose|i: int| 0 <= i < s.len() && !char_ok(f, s[i], i);
        assert(!char_ok(f, s[w], w));
        lemma_first_bad_index_bounds(f, s, 0);
    }
}

/// The first unacceptable character, when inside the text, really is
/// unacceptable, and everything before it (from the search's start) is
/// acceptable.
pub proof fn lemma_first_bad_index_bounds(f: Format, s: Seq<char>, i: int)
    requires
        0 <= i <= s.len(),
    ensures
        i <= first_bad_index(f, s, i) <= s.len(),
        first_bad_index(f, s, i) < s.len() ==> !char_ok(
            f,
            s[first_bad_index(f, s, i)],
            first_bad_index(f, s, i),
        ),
        forall|k: int| i <= k < first_bad_index(f, s, i) ==> char_ok(f, #[trigger] s[k], k),
    decreases s.len() - i,
{
    if i < s.len() && char_ok(f, s[i], i) {
        lemma_first_bad_index_bounds(f, s, i + 1);
    }
}

/// Rendering's digit glyphs are hexadecimal digits, never dashes, and
/// decode back to the value they were made from.
pub proof fn lemma_hex_char_value(case: Case, v: u8)
    requires
        v < 16,
    ensures
        is_hex_digit(hex_char(case, v)),
        hex_char(case, v) != '-',
        hex_digit_value(hex_char(case, v)) == v,
{
}

/// Stripping commutes with any character map that fixes the dash and maps
/// nothing else onto it.
pub proof fn lemma_strip_dashes_map(s: Seq<char>, m: spec_fn(char) -> char)
    requires
        m('-') == '-',
        forall|c: char| c != '-' ==> #[trigger] m(c) != '-',
    ensures
        strip_dashes(s.map_values(m)) == strip_dashes(s).map_values(m),
    decreases s.len(),
{
    if s.len() == 0 {
        assert(s.map_values(m) =~= Seq::<char>::empty());
        assert(strip_dashes(s).map_values(m) =~= Seq::<char>::empty());
    } else {
        lemma_strip_dashes_map(s.drop_last(), m);
        let u = s.map_values(m);
        assert(u.drop_last() =~= s.drop_last().map_values(m));
        assert(u.last() == m(s.last()));
        if s.last() == '-' {
            assert(strip_dashes(u) == strip_dashes(s).map_values(m));
        } else {
            assert(strip_dashes(u) == strip_dashes(s.drop_last()).map_values(m).push(m(s.last())));
            assert(strip_dashes(s.drop_last()).map_values(m).push(m(s.last())) =~= strip_dashes(
                s,
            ).map_values(m));
        }
    }
}

/// In a text whose dashes stand exactly at a layout's dash positions and
/// whose other characters are hexadecimal digits, stripping removes exactly
/// the dash positions below the length.
pub proof fn lemma_strip_len_classified(s: Seq<char>, f: Format)
    requires
        forall|i: int|
            0 <= i < s.len() ==> (if is_dash_position(f, i) {
                #[trigger] s[i] == '-'
            } else {
                is_hex_digit(s[i])
            }),
    ensures
        strip_dashes(s).len() == s.len() - dash_positions_below(f, s.len() as int),
    decreases s.len(),
{
    if s.len() > 0 {
        let t = s.drop_last();
        assert(forall|i: int|
            0 <= i < t.len() ==> (if is_dash_position(f, i) {
                #[trigger] t[i] == '-'
            } else {
                is_hex_digit(t[i])
            }));
        lemma_strip_len_classified(t, f);
        assert(if is_dash_position(f, s.len() - 1) {
            s.last() == '-'
        } else {
            is_hex_digit(s.last())
        });
    }
}

/// The shape of a rendered prefix: its length, the hexadecimal digits that
/// survive stripping, and the acceptability of every character at its
/// offset under the same layout.
#[verifier::rlimit(60)]
pub proof fn lemma_rendered_prefix_props(bytes: Seq<u8>, f: Format, case: Case, n: int)
    requires
        bytes.len() == 16,
        0 <= n <= 16,
    ensures
        rendered_prefix(bytes, f, case, n).len() == 2 * n + dashes_before_byte(f, n),
        strip_dashes(rendered_prefix(bytes, f, case, n)).len() == 2 * n,
        forall|j: int|
            0 <= j < n ==> #[trigger] strip_dashes(rendered_prefix(bytes, f, case, n))[2 * j]
                == hex_char(case, bytes[j] / 16) && strip_dashes(
                rendered_prefix(bytes, f, case, n),
            )[2 * j + 1] == hex_char(case, bytes[j] % 16),
        forall|i: int|
            0 <= i < rendered_prefix(bytes, f, case, n).len() ==> char_ok(
                f,
                #[trigger] rendered_prefix(bytes, f, case, n)[i],
                i,
            ),
    decreases n,
{
    if n > 0 {
        lemma_rendered_prefix_props(bytes, f, case, n - 1);
        let prev = rendered_prefix(bytes, f, case, n - 1);
        let cur = rendered_prefix(bytes, f, case, n);
        let b = bytes[n - 1];
        let hi = hex_char(case, b / 16);
        let lo = hex_char(case, b % 16);
        lemma_hex_char_value(case, b / 16);
        lemma_hex_char_value(case, b % 16);
        let chunk = byte_chunk(b, f, case, n - 1);
        if dash_after_byte(f, n - 1) {
            assert(cur =~= prev.push(hi).push(lo).push('-'));
            lemma_strip_dashes_push(prev, hi);
            lemma_strip_dashes_push(prev.push(hi), lo);
            lemma_strip_dashes_push(prev.push(hi).push(lo), '-');
            assert(strip_dashes(cur) == strip_dashes(prev).push(hi).push(lo));
        } else {
            assert(cur =~= prev.push(hi).push(lo));
            lemma_strip_dashes_push(prev, hi);
            lemma_strip_dashes_push(prev.push(hi), lo);
            assert(strip_dashes(cur) == strip_dashes(prev).push(hi).push(lo));
        }
        assert forall|j: int| 0 <= j < n implies #[trigger] strip_dashes(cur)[2 * j] == hex_char(
            case,
            bytes[j] / 16,
        ) && strip_dashes(cur)[2 * j + 1] == hex_char(case, bytes[j] % 16) by {
            if j < n - 1 {
                assert(strip_dashes(cur)[2 * j] == strip_dashes(prev)[2 * j]);
                assert(strip_dashes(cur)[2 * j + 1] == strip_dashes(prev)[2 * j + 1]);
            } else {
                assert(strip_dashes(cur)[2 * j] == hi);
                assert(strip_dashes(cur)[2 * j + 1] == lo);
            }
        }
        assert forall|i: int| 0 <= i < cur.len() implies char_ok(f, #[trigger] cur[i], i) by {
            let base = prev.len() as int;
            if i < base {
                assert(cur[i] == prev[i]);
            } else if i == base {
                assert(cur[i] == hi);
            } else if i == base + 1 {
                assert(cur[i] == lo);
            } else {
                assert(dash_after_byte(f, n - 1) && cur[i] == '-' && i == base + 2);
                assert(is_dash_position(f, 2 * (n - 1) + dashes_before_byte(f, n - 1) + 2));
            }
        }
    } else {
        assert(rendered_prefix(bytes, f, case, 0) =~= Seq::<char>::empty());
    }
}

/// Dropping a whitespace prefix computes `trim_start_spec`.
pub proof fn lemma_trim_start_at(s: Seq<char>, a: int)
    requires
        0 <= a <= s.len(),
        forall|k: int| 0 <= k < a ==> is_space_char(#[trigger] s[k]),
        a == s.len() || !is_space_char(s[a]),
    ensures
        trim_start_spec(s) == s.subrange(a, s.len() as int),
    decreases a,
{
    if a == 0 {
        assert(s.subrange(0, s.len() as int) =~= s);
    } else {
        assert(is_space_char(s[0]));
        let t = s.drop_first();
        assert(forall|k: int| 0 <= k < a - 1 ==> is_space_char(#[trigger] t[k]));
        lemma_trim_start_at(t, a - 1);
        assert(t.subrange(a - 1, t.len() as int) =~= s.subrange(a, s.len() as int));
    }
}

/// Dropping a whitespace suffix computes `trim_end_spec`.
pub proof fn lemma_trim_end_at(s: Seq<char>, b: int)
    requires
        0 <= b <= s.len(),
        forall|k: int| b <= k < s.len() ==> is_space_char(#[trigger] s[k]),
        b == 0 || !is_space_char(s[b - 1]),
    ensures
        trim_end_spec(s) == s.subrange(0, b),
    decreases s.len() - b,
{
    if b == s.len() {
        assert(s.subrange(0, b) =~= s);
    } else {
        assert(is_space_char(s.last()));
        let t = s.drop_last();
        lemma_trim_end_at(t, b);
        assert(t.subrange(0, b) =~= s.subrange(0, b));
    }
}

} // verus!

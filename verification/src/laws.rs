//! The library's laws: properties of the codec that hold over all inputs,
//! proved once and for all against the model in `text`.

use vstd::prelude::*;

use crate::text::Case;
use crate::text::Format;
use crate::text::ParseOutcome;
use crate::text::char_ok;
use crate::text::dash_count;
use crate::text::dash_positions_below;
use crate::text::decode_hex_pairs;
use crate::text::detected_format;
use crate::text::hex_char;
use crate::text::hex_digit_value;
use crate::text::is_dash_position;
use crate::text::is_hex_digit;
use crate::text::is_space_char;
use crate::text::lax_normalized;
use crate::text::layout_dash_count;
use crate::text::layout_len;
use crate::text::lemma_hex_char_value;
use crate::text::lemma_rendered_prefix_props;
use crate::text::lemma_strip_dashes_hex;
use crate::text::lemma_strip_dashes_id;
use crate::text::lemma_strip_dashes_map;
use crate::text::lemma_strip_dashes_no_dash;
use crate::text::lemma_strip_len_classified;
use crate::text::lemma_text_ok_first_bad;
use crate::text::lemma_trim_end_at;
use crate::text::lemma_trim_start_at;
use crate::text::lower_hex;
use crate::text::spec_canonical;
use crate::text::spec_format;
use crate::text::spec_parse;
use crate::text::strip_dashes;
use crate::text::text_ok;
use crate::text::to_lower_hex;
use crate::text::to_upper_hex;
use crate::text::trimmed;
use crate::text::upper_hex;

verus! {

/// Layout equivalence and round-trip: rendering any 16 bytes in any layout
/// and either case yields a text that the strict parser accepts and decodes
/// back to exactly those bytes. With the `RFC` layout and lower case this
/// is the round trip through the canonical text form.
pub proof fn lemma_format_parse_round_trip(bytes: Seq<u8>, f: Format, case: Case)
    requires
        bytes.len() == 16,
    ensures
        spec_parse(spec_format(bytes, f, case)) == (ParseOutcome::Accepted { bytes }),
{
    let s = spec_format(bytes, f, case);
    lemma_rendered_prefix_props(bytes, f, case, 16);
    let h = strip_dashes(s);
    assert(s.len() == layout_len(f));
    assert(h.len() == 32);
    assert(dash_count(s) == layout_dash_count(f));
    assert(detected_format(s) == Some(f));
    assert(text_ok(f, s));
    lemma_text_ok_first_bad(f, s);
    assert forall|j: int| 0 <= j < 16 implies decode_hex_pairs(h)[j] == bytes[j] by {
        lemma_hex_char_value(case, bytes[j] / 16);
        lemma_hex_char_value(case, bytes[j] % 16);
        assert(h[2 * j] == hex_char(case, bytes[j] / 16));
        assert(h[2 * j + 1] == hex_char(case, bytes[j] % 16));
    }
    assert(decode_hex_pairs(h) =~= bytes);
}

/// The canonical-form round trip, stated on its own: parsing the canonical
/// text of any 16 bytes yields those bytes back.
pub proof fn lemma_canonical_round_trip(bytes: Seq<u8>)
    requires
        bytes.len() == 16,
    ensures
        spec_parse(spec_canonical(bytes)) == (ParseOutcome::Accepted { bytes }),
{
    lemma_format_parse_round_trip(bytes, Format::RFC, Case::Lower);
}

/// Case-insensitivity: on any text the strict parser accepts, raising or
/// lowering the case of the hexadecimal letters leaves the parse outcome
/// unchanged.
pub proof fn lemma_parse_case_insensitive(s: Seq<char>)
    requires
        spec_parse(s) matches ParseOutcome::Accepted { bytes: _ },
    ensures
        spec_parse(to_upper_hex(s)) == spec_parse(s),
        spec_parse(to_lower_hex(s)) == spec_parse(s),
{
    lemma_parse_case_map(s, |c: char| upper_hex(c));
    lemma_parse_case_map(s, |c: char| lower_hex(c));
}

/// The common argument behind case-insensitivity: any character map that
/// fixes the dash, maps nothing else onto it, and preserves hexadecimal
/// digits together with their values, preserves the parse of accepted
/// texts.
proof fn lemma_parse_case_map(s: Seq<char>, m: spec_fn(char) -> char)
    requires
        spec_parse(s) matches ParseOutcome::Accepted { bytes: _ },
        m('-') == '-',
        forall|c: char| c != '-' ==> #[trigger] m(c) != '-',
        forall|c: char|
            is_hex_digit(c) ==> is_hex_digit(#[trigger] m(c)) && hex_digit_value(m(c))
                == hex_digit_value(c),
    ensures
        spec_parse(s.map_values(m)) == spec_parse(s),
{
    let f = detected_format(s)->Some_0;
    let u = s.map_values(m);
    lemma_strip_dashes_map(s, m);
    assert(strip_dashes(u).len() == strip_dashes(s).len());
    assert(dash_count(u) == dash_count(s));
    assert(detected_format(u) == Some(f));
    lemma_text_ok_first_bad(f, s);
    assert forall|i: int| 0 <= i < u.len() implies char_ok(f, #[trigger] u[i], i) by {
        assert(char_ok(f, s[i], i));
        assert(u[i] == m(s[i]));
    }
    lemma_text_ok_first_bad(f, u);
    let h = strip_dashes(s);
    let hu = strip_dashes(u);
    lemma_strip_dashes_hex(s);
    assert forall|j: int| 0 <= j < decode_hex_pairs(hu).len() implies decode_hex_pairs(hu)[j]
        == decode_hex_pairs(h)[j] by {
        assert(hu[2 * j] == m(h[2 * j]));
        assert(hu[2 * j + 1] == m(h[2 * j + 1]));
        assert(is_hex_digit(h[2 * j]) && is_hex_digit(h[2 * j + 1]));
    }
    assert(decode_hex_pairs(hu) =~= decode_hex_pairs(h));
}

/// Lax is a superset of strict: on any text the strict parser accepts, the
/// lax parser's normalization changes nothing that matters — it parses to
/// the same identifier.
pub proof fn lemma_lax_superset(s: Seq<char>)
    requires
        spec_parse(s) matches ParseOutcome::Accepted { bytes: _ },
    ensures
        spec_parse(lax_normalized(s)) == spec_parse(s),
{
    let f = detected_format(s)->Some_0;
    lemma_text_ok_first_bad(f, s);
    assert(s.len() >= 32);
    assert(char_ok(f, s[0], 0) && !is_space_char(s[0]));
    assert(char_ok(f, s[s.len() - 1], s.len() - 1) && !is_space_char(s[s.len() - 1]));
    lemma_trim_start_at(s, 0);
    assert(s.subrange(0, s.len() as int) =~= s);
    lemma_trim_end_at(s, s.len() as int);
    assert(trimmed(s) == s);
    let h = strip_dashes(s);
    assert(lax_normalized(s) == h);
    assert(h.len() == s.len() - dash_count(s) == 32);
    lemma_strip_dashes_no_dash(s);
    lemma_strip_dashes_id(h);
    assert(dash_count(h) == 0);
    assert(detected_format(h) == Some(Format::LibSystemD));
    lemma_strip_dashes_hex(s);
    assert forall|i: int| 0 <= i < h.len() implies char_ok(
        Format::LibSystemD,
        #[trigger] h[i],
        i,
    ) by {
        assert(is_hex_digit(h[i]));
    }
    lemma_text_ok_first_bad(Format::LibSystemD, h);
    assert(decode_hex_pairs(strip_dashes(h)) == decode_hex_pairs(h));
}

/// Length boundary, accepting half: a text of a layout's exact length,
/// with dashes exactly at the layout's dash positions and hexadecimal
/// digits everywhere else, is accepted by the strict parser.
pub proof fn lemma_layout_accepted(s: Seq<char>, f: Format)
    requires
        s.len() == layout_len(f),
        forall|i: int|
            0 <= i < s.len() ==> (if is_dash_position(f, i) {
                #[trigger] s[i] == '-'
            } else {
                is_hex_digit(s[i])
            }),
    ensures
        spec_parse(s) matches ParseOutcome::Accepted { bytes: _ },
{
    lemma_strip_len_classified(s, f);
    assert(dash_positions_below(f, s.len() as int) == layout_dash_count(f));
    assert(dash_count(s) == layout_dash_count(f));
    assert(detected_format(s) == Some(f));
    assert forall|i: int| 0 <= i < s.len() implies char_ok(f, #[trigger] s[i], i) by {}
    lemma_text_ok_first_bad(f, s);
}

/// Length boundary, rejecting half: a text whose (length, dash count) pair
/// matches none of the three layouts is rejected as a length mismatch
/// carrying the observed length — whatever its characters are.
pub proof fn lemma_length_mismatch(s: Seq<char>)
    requires
        !(s.len() == layout_len(Format::Simple) && dash_count(s) == layout_dash_count(
            Format::Simple,
        )),
        !(s.len() == layout_len(Format::LibSystemD) && dash_count(s) == layout_dash_count(
            Format::LibSystemD,
        )),
        !(s.len() == layout_len(Format::RFC) && dash_count(s) == layout_dash_count(Format::RFC)),
    ensures
        spec_parse(s) == (ParseOutcome::LengthMismatch { observed_length: s.len() as int }),
{
}

} // verus!

//! What decoding recovers of an encoded byte string.

use crate::decoder::bits::{bits_value, bytes_of_bits, cut_point, strip_filler};
use crate::decoder::{
    decodable, decode_from, decode_result, lemma_decode_any_fuel, match_layer, parse_rule,
    parse_section, rule_bits, Parse,
};
use crate::encoder::bits::{bit_of, complement, stream_bit, stream_byte, stream_ended, two_to};
use crate::encoder::lcg::{filler, lemma_filler_has_no_complement_pair};
use crate::encoder::{
    choose_rule, derive_rule, derive_section, encodable, encode_bits, encode_from, encode_fuel,
    encode_text, lemma_choose_rule,
};
use crate::syntax::{rules_in_range, table_wf, SectionModel, SegModel};
use vstd::prelude::*;

verus! {

/// The bits of the stream of `input` from `from` up to `to`.
pub open spec fn stream_bits(input: Seq<u8>, from: nat, to: nat) -> Seq<bool> {
    Seq::new((to - from) as nat, |k: int| stream_bit(input, (from + k) as nat))
}

/// Whether `x` stands in `text` at `p`.
pub open spec fn text_at(text: Seq<char>, p: nat, x: Seq<char>) -> bool {
    p + x.len() <= text.len() && text.subrange(p as int, (p + x.len()) as int) == x
}

/// Whether the automata of a table tell the rules apart: wherever a text
/// derived from a section stands, whatever text follows it, the automaton of
/// the section tells from it the rule that the derivation began with; and
/// the automaton of the first section reads at least one character.
pub open spec fn lookahead_correct(table: Seq<SectionModel>) -> bool {
    &&& table.len() > 0 ==> table[0].decoder is Branch
    &&& forall|sec: nat, input: Seq<u8>, pos: nat, fuel: nat, text: Seq<char>, p: nat|
        #![trigger derive_section(table, sec, input, pos, fuel), match_layer(table[sec as int].decoder, text, p)]
        sec < table.len() && derive_section(table, sec, input, pos, fuel) is Some && text_at(
            text,
            p,
            derived_text(table, sec, input, pos, fuel),
        ) ==> match_layer(table[sec as int].decoder, text, p) == Ok::<
            nat,
            crate::decoder::DecodeFailure,
        >(choose_rule(input, pos, 0, table[sec as int].rules.len()).0)
}

/// The text of a derivation that ends.
pub open spec fn derived_text(
    table: Seq<SectionModel>,
    sec: nat,
    input: Seq<u8>,
    pos: nat,
    fuel: nat,
) -> Seq<char> {
    match derive_section(table, sec, input, pos, fuel) {
        Some((text, _)) => text,
        None => Seq::empty(),
    }
}

/// A text that stands at a place stands there part by part.
pub proof fn lemma_text_at_split(text: Seq<char>, p: nat, a: Seq<char>, b: Seq<char>)
    requires
        text_at(text, p, a + b),
    ensures
        text_at(text, p, a),
        text_at(text, p + a.len(), b),
{
    let x = a + b;
    let whole = text.subrange(p as int, (p + x.len()) as int);
    assert forall|k: int| 0 <= k < a.len() implies text[p + k] == a[k] by {
        assert(whole[k] == x[k]);
    }
    assert forall|k: int| 0 <= k < b.len() implies text[p + a.len() + k] == b[k] by {
        assert(whole[a.len() + k] == x[a.len() + k]);
    }
    assert(text.subrange(p as int, (p + a.len()) as int) =~= a);
    assert(text.subrange((p + a.len()) as int, (p + a.len() + b.len()) as int) =~= b);
}

/// The text of a derivation along segments that ends.
pub open spec fn derived_rule_text(
    table: Seq<SectionModel>,
    segs: Seq<SegModel>,
    i: nat,
    input: Seq<u8>,
    pos: nat,
    fuel: nat,
) -> Seq<char> {
    match derive_rule(table, segs, i, input, pos, fuel) {
        Some((text, _)) => text,
        None => Seq::empty(),
    }
}

proof fn lemma_stream_bits_join(input: Seq<u8>, a: nat, b: nat, c: nat)
    requires
        a <= b <= c,
    ensures
        stream_bits(input, a, b) + stream_bits(input, b, c) == stream_bits(input, a, c),
{
    assert(stream_bits(input, a, b) + stream_bits(input, b, c) =~= stream_bits(input, a, c));
}

/// The bits that pick a rule are the bits that the choice of it read.
proof fn lemma_choose_bits(input: Seq<u8>, pos: nat, lo: nat, hi: nat)
    requires
        lo < hi,
    ensures
        rule_bits(choose_rule(input, pos, lo, hi).0, lo, hi) == stream_bits(
            input,
            pos,
            choose_rule(input, pos, lo, hi).1,
        ),
    decreases hi - lo,
{
    if hi > lo + 1 {
        let mid = (lo + (hi - lo) / 2) as nat;
        let bit = stream_bit(input, pos);
        let (rule, end) = choose_rule(input, pos, lo, hi);
        if bit {
            lemma_choose_bits(input, pos + 1, mid, hi);
            lemma_choose_rule(input, pos + 1, mid, hi);
        } else {
            lemma_choose_bits(input, pos + 1, lo, mid);
            lemma_choose_rule(input, pos + 1, lo, mid);
        }
        assert(stream_bits(input, pos, end) =~= seq![bit] + stream_bits(input, pos + 1, end));
    } else {
        assert(stream_bits(input, pos, pos) =~= Seq::<bool>::empty());
    }
}

proof fn lemma_derive_section_advances(
    table: Seq<SectionModel>,
    sec: nat,
    input: Seq<u8>,
    pos: nat,
    fuel: nat,
)
    requires
        derive_section(table, sec, input, pos, fuel) is Some,
    ensures
        derive_section(table, sec, input, pos, fuel) matches Some((_, end)) && pos <= end,
    decreases fuel, 0nat, 0nat,
{
    let n = table[sec as int].rules.len();
    lemma_choose_rule(input, pos, 0, n);
    let (rule, after) = choose_rule(input, pos, 0, n);
    lemma_derive_rule_advances(
        table,
        table[sec as int].rules[rule as int],
        0,
        input,
        after,
        (fuel - 1) as nat,
    );
}

proof fn lemma_derive_rule_advances(
    table: Seq<SectionModel>,
    segs: Seq<SegModel>,
    i: nat,
    input: Seq<u8>,
    pos: nat,
    fuel: nat,
)
    requires
        derive_rule(table, segs, i, input, pos, fuel) is Some,
    ensures
        derive_rule(table, segs, i, input, pos, fuel) matches Some((_, end)) && pos <= end,
    decreases fuel, 1nat, segs.len() - i,
{
    if i < segs.len() {
        match segs[i as int] {
            SegModel::Text(t) => {
                lemma_derive_rule_advances(table, segs, i + 1, input, pos, fuel);
            },
            SegModel::Use(r) => {
                lemma_derive_section_advances(table, r, input, pos, fuel);
                let (_, after) = derive_section(table, r, input, pos, fuel)->0;
                lemma_derive_rule_advances(table, segs, i + 1, input, after, fuel);
            },
        }
    }
}

/// Reading a text that was derived from a section gives back the bits that
/// the derivation used.
pub proof fn lemma_section_round_trip(
    table: Seq<SectionModel>,
    sec: nat,
    input: Seq<u8>,
    pos: nat,
    fuel: nat,
    text: Seq<char>,
    p: nat,
)
    requires
        table_wf(table),
        lookahead_correct(table),
        sec < table.len(),
        derive_section(table, sec, input, pos, fuel) is Some,
        text_at(text, p, derived_text(table, sec, input, pos, fuel)),
    ensures
        derive_section(table, sec, input, pos, fuel) matches Some((x, end)) && pos <= end
            && parse_section(table, sec, text, p, fuel) == Parse::Done(
            stream_bits(input, pos, end),
            p + x.len(),
        ),
    decreases fuel, 0nat, 0nat,
{
    let rules = table[sec as int].rules;
    let n = rules.len();
    let (rule, after) = choose_rule(input, pos, 0, n);
    lemma_choose_rule(input, pos, 0, n);
    lemma_choose_bits(input, pos, 0, n);
    assert(match_layer(table[sec as int].decoder, text, p) == Ok::<
        nat,
        crate::decoder::DecodeFailure,
    >(rule));
    let (x, end) = derive_section(table, sec, input, pos, fuel)->0;
    assert(rules_in_range(rules, table.len()));
    lemma_rule_round_trip(table, sec, rule, 0, input, after, (fuel - 1) as nat, text, p);
    lemma_stream_bits_join(input, pos, after, end);
}

/// Reading a text along the rule that it was derived by gives back the
/// bits that the derivation used.
pub proof fn lemma_rule_round_trip(
    table: Seq<SectionModel>,
    sec: nat,
    rule: nat,
    i: nat,
    input: Seq<u8>,
    pos: nat,
    fuel: nat,
    text: Seq<char>,
    p: nat,
)
    requires
        table_wf(table),
        lookahead_correct(table),
        sec < table.len(),
        rule < table[sec as int].rules.len(),
        derive_rule(table, table[sec as int].rules[rule as int], i, input, pos, fuel) matches Some(
            (x, _),
        ) && text_at(text, p, x),
    ensures
        derive_rule(table, table[sec as int].rules[rule as int], i, input, pos, fuel) matches Some(
            (x, end),
        ) && pos <= end && parse_rule(
            table,
            table[sec as int].rules[rule as int],
            i,
            text,
            p,
            fuel,
        ) == Parse::Done(stream_bits(input, pos, end), p + x.len()),
    decreases fuel, 1nat, table[sec as int].rules[rule as int].len() - i,
{
    let segs = table[sec as int].rules[rule as int];
    let (x, end) = derive_rule(table, segs, i, input, pos, fuel)->0;
    if i >= segs.len() {
        assert(stream_bits(input, pos, pos) =~= Seq::<bool>::empty());
    } else {
        assert(rules_in_range(table[sec as int].rules, table.len()));
        match segs[i as int] {
            SegModel::Text(t) => {
                let (rest, _) = derive_rule(table, segs, i + 1, input, pos, fuel)->0;
                assert(x == t + rest);
                lemma_text_at_split(text, p, t, rest);
                lemma_rule_round_trip(table, sec, rule, i + 1, input, pos, fuel, text, p + t.len());
            },
            SegModel::Use(r) => {
                assert(segs[i as int] matches SegModel::Use(target) ==> target < table.len());
                let (head, after) = derive_section(table, r, input, pos, fuel)->0;
                let (rest, _) = derive_rule(table, segs, i + 1, input, after, fuel)->0;
                assert(x == head + rest);
                lemma_text_at_split(text, p, head, rest);
                lemma_section_round_trip(table, r, input, pos, fuel, text, p);
                lemma_rule_round_trip(
                    table,
                    sec,
                    rule,
                    i + 1,
                    input,
                    after,
                    fuel,
                    text,
                    p + head.len(),
                );
                lemma_stream_bits_join(input, pos, after, end);
            },
        }
    }
}

/// A text derived from the first section is not empty.
proof fn lemma_entry_text_is_not_empty(
    table: Seq<SectionModel>,
    input: Seq<u8>,
    pos: nat,
    fuel: nat,
)
    requires
        table_wf(table),
        lookahead_correct(table),
        derive_section(table, 0, input, pos, fuel) is Some,
    ensures
        derived_text(table, 0, input, pos, fuel).len() > 0,
{
    let x = derived_text(table, 0, input, pos, fuel);
    if x.len() == 0 {
        assert(text_at(x, 0, x)) by {
            assert(x.subrange(0, 0) =~= x);
        }
        assert(match_layer(table[0].decoder, x, 0) is Ok);
    }
}

/// Decoding the text that encodes a byte string gives back the bits that
/// the encoding used, and reads the text to its end.
pub proof fn lemma_decode_recovers_bits(
    table: Seq<SectionModel>,
    input: Seq<u8>,
    pos: nat,
    fuel: nat,
    text: Seq<char>,
    p: nat,
)
    requires
        table_wf(table),
        lookahead_correct(table),
        encode_from(table, input, pos, fuel) matches Some((x, _)) && text_at(text, p, x) && p
            + x.len() == text.len(),
    ensures
        encode_from(table, input, pos, fuel) matches Some((x, end)) && pos <= end && decode_from(
            table,
            text,
            p,
            fuel,
        ) == Parse::Done(stream_bits(input, pos, end), text.len()),
    decreases fuel,
{
    let (x, end) = encode_from(table, input, pos, fuel)->0;
    if stream_ended(input, pos) {
        assert(stream_bits(input, pos, pos) =~= Seq::<bool>::empty());
    } else {
        let (head, after) = derive_section(table, 0, input, pos, fuel)->0;
        let (rest, _) = encode_from(table, input, after, (fuel - 1) as nat)->0;
        assert(x == head + rest);
        lemma_entry_text_is_not_empty(table, input, pos, fuel);
        lemma_text_at_split(text, p, head, rest);
        lemma_section_round_trip(table, 0, input, pos, fuel, text, p);
        lemma_decode_recovers_bits(
            table,
            input,
            after,
            (fuel - 1) as nat,
            text,
            p + head.len(),
        );
        lemma_stream_bits_join(input, pos, after, end);
    }
}

/// The bits of a byte, lowest first.
pub open spec fn byte_bits(b: u8) -> Seq<bool> {
    Seq::new(8, |k: int| bit_of(b, k as nat))
}

/// The number made of the `k` lowest bits of `b`.
spec fn low_sum(b: u8, k: nat) -> nat
    decreases k,
{
    if k == 0 {
        0
    } else {
        low_sum(b, (k - 1) as nat) + if bit_of(b, (k - 1) as nat) {
            two_to((k - 1) as nat)
        } else {
            0
        }
    }
}

proof fn lemma_low_bits_value(b: u8, k: nat)
    requires
        k <= 8,
    ensures
        bits_value(byte_bits(b).take(k as int)) == low_sum(b, k),
    decreases k,
{
    let bits = byte_bits(b).take(k as int);
    if k > 0 {
        lemma_low_bits_value(b, (k - 1) as nat);
        assert(bits.drop_last() =~= byte_bits(b).take(k - 1));
        assert(bits.last() == bit_of(b, (k - 1) as nat));
    }
}

proof fn lemma_byte_is_sum_of_bits(b: u8)
    by (bit_vector)
    ensures
        b == (b / 1 % 2) * 1 + (b / 2 % 2) * 2 + (b / 4 % 2) * 4 + (b / 8 % 2) * 8 + (b / 16 % 2)
            * 16 + (b / 32 % 2) * 32 + (b / 64 % 2) * 64 + (b / 128 % 2) * 128,
{
}

/// The bits of a byte, gathered lowest first, make the byte.
pub proof fn lemma_byte_bits_value(b: u8)
    ensures
        bits_value(byte_bits(b)) == b,
{
    lemma_low_bits_value(b, 8);
    assert(byte_bits(b).take(8) =~= byte_bits(b));
    lemma_byte_is_sum_of_bits(b);
    let n = b as nat;
    assert(low_sum(b, 0) == 0);
    assert(low_sum(b, 1) == low_sum(b, 0) + (n / 1 % 2) * 1);
    assert(low_sum(b, 2) == low_sum(b, 1) + (n / 2 % 2) * 2);
    assert(low_sum(b, 3) == low_sum(b, 2) + (n / 4 % 2) * 4);
    assert(low_sum(b, 4) == low_sum(b, 3) + (n / 8 % 2) * 8);
    assert(low_sum(b, 5) == low_sum(b, 4) + (n / 16 % 2) * 16);
    assert(low_sum(b, 6) == low_sum(b, 5) + (n / 32 % 2) * 32);
    assert(low_sum(b, 7) == low_sum(b, 6) + (n / 64 % 2) * 64);
    assert(low_sum(b, 8) == low_sum(b, 7) + (n / 128 % 2) * 128);
}

/// The bits of the stream, gathered into bytes, are the bytes of the
/// stream.
pub proof fn lemma_bytes_of_stream_bits(input: Seq<u8>, len: nat)
    ensures
        bytes_of_bits(stream_bits(input, 0, len)) == Seq::new(
            len / 8,
            |j: int| stream_byte(input, j as nat),
        ),
{
    let bits = stream_bits(input, 0, len);
    let bytes = Seq::new(len / 8, |j: int| stream_byte(input, j as nat));
    assert forall|j: int| 0 <= j < len / 8 implies #[trigger] bytes_of_bits(bits)[j]
        == bytes[j] by {
        let b = stream_byte(input, j as nat);
        assert(bits.subrange(8 * j, 8 * j + 8) =~= byte_bits(b)) by {
            assert forall|k: int| 0 <= k < 8 implies bits.subrange(8 * j, 8 * j + 8)[k]
                == byte_bits(b)[k] by {
                assert((8 * j + k) / 8 == j && (8 * j + k) % 8 == k);
            }
        }
        lemma_byte_bits_value(b);
    }
    assert(bytes_of_bits(bits) =~= bytes);
}

/// In the bytes of the stream, the last byte that is the complement of the
/// byte before it is the end token.
proof fn lemma_cut_point_of_stream(input: Seq<u8>, m: nat, w: int)
    requires
        input.len() >= 1,
        input.len() < w <= m,
    ensures
        cut_point(Seq::new(m, |j: int| stream_byte(input, j as nat)), w) == input.len(),
    decreases w,
{
    let n = input.len();
    let bytes = Seq::new(m, |j: int| stream_byte(input, j as nat));
    let token = complement(input.last());
    if w - 1 == n {
        assert(bytes[w - 1] == token);
        assert(bytes[w - 2] == input.last());
    } else {
        let k = (w - 2 - n) as nat;
        assert(bytes[w - 2] == filler(token, k));
        assert(bytes[w - 1] == filler(token, k + 1));
        lemma_filler_has_no_complement_pair(token, k);
        lemma_cut_point_of_stream(input, m, w - 1);
    }
}

/// What is kept of the bytes of the stream once the end token is among
/// them, or when at most one byte went in and nothing else is there: the
/// input.
pub proof fn lemma_strip_filler_of_stream(input: Seq<u8>, m: nat)
    requires
        (input.len() >= 1 && m > input.len()) || (input.len() <= 1 && m == input.len()),
    ensures
        strip_filler(Seq::new(m, |j: int| stream_byte(input, j as nat))) == input,
{
    let n = input.len();
    let bytes = Seq::new(m, |j: int| stream_byte(input, j as nat));
    if m == n {
        assert(bytes =~= input);
    } else {
        lemma_cut_point_of_stream(input, m, m as int);
        assert(bytes.take(n as int) =~= input);
    }
}

/// The encoding ends where the stream has ended, and uses no bit of a
/// stream that has ended before it begins.
pub proof fn lemma_encode_ends(table: Seq<SectionModel>, input: Seq<u8>, pos: nat, fuel: nat)
    requires
        encode_from(table, input, pos, fuel) is Some,
    ensures
        encode_from(table, input, pos, fuel) matches Some((_, end)) && stream_ended(input, end) && (
        stream_ended(input, pos) ==> end == pos),
    decreases fuel,
{
    if !stream_ended(input, pos) {
        let (_, after) = derive_section(table, 0, input, pos, fuel)->0;
        lemma_encode_ends(table, input, after, (fuel - 1) as nat);
    }
}

/// Decoding gives back what was encoded.
///
/// This holds of a table whose automata tell its rules apart, and of a byte
/// string whose encoding comes to an end, provided that the encoding uses
/// every bit of the end token, or that the byte string has at most one
/// byte.  Of a longer byte string whose last derivation stops within the
/// end token, the decoder keeps less than the whole.
pub proof fn lemma_round_trip(table: Seq<SectionModel>, input: Seq<u8>)
    requires
        table_wf(table),
        lookahead_correct(table),
        encodable(table, input),
        input.len() <= 1 || encode_bits(table, input) >= 8 * (input.len() + 1),
    ensures
        decodable(table, encode_text(table, input)),
        decode_result(table, encode_text(table, input)) == Ok::<
            Seq<u8>,
            crate::decoder::DecodeFailure,
        >(input),
{
    let fuel = encode_fuel(table, input);
    let text = encode_text(table, input);
    let len = encode_bits(table, input);
    assert(encode_from(table, input, 0, fuel) == Some((text, len)));
    assert(text_at(text, 0, text)) by {
        assert(text.subrange(0, text.len() as int) =~= text);
    }
    lemma_decode_recovers_bits(table, input, 0, fuel, text, 0);
    lemma_decode_any_fuel(table, text, fuel);
    lemma_encode_ends(table, input, 0, fuel);
    lemma_bytes_of_stream_bits(input, len);
    lemma_strip_filler_of_stream(input, len / 8);
}

/// With a table whose automata tell its rules apart, every text that
/// encodes a byte string is read by the decoder to its end: no character is
/// unexpected, and no literal text is missed.
pub proof fn lemma_encoded_text_is_accepted(table: Seq<SectionModel>, input: Seq<u8>)
    requires
        table_wf(table),
        lookahead_correct(table),
        encodable(table, input),
    ensures
        decodable(table, encode_text(table, input)),
        decode_result(table, encode_text(table, input)) is Ok,
{
    let fuel = encode_fuel(table, input);
    let text = encode_text(table, input);
    assert(encode_from(table, input, 0, fuel) == Some((text, encode_bits(table, input))));
    assert(text_at(text, 0, text)) by {
        assert(text.subrange(0, text.len() as int) =~= text);
    }
    lemma_decode_recovers_bits(table, input, 0, fuel, text, 0);
    lemma_decode_any_fuel(table, text, fuel);
}

/// In a table whose automata tell its rules apart, no text of a rule
/// begins a text of another rule of the same section: two derivations from a
/// section, of which the text of one begins the text of the other, begin
/// with the same rule.
pub proof fn lemma_rules_do_not_begin_one_another(
    table: Seq<SectionModel>,
    sec: nat,
    input: Seq<u8>,
    pos: nat,
    fuel: nat,
    other_input: Seq<u8>,
    other_pos: nat,
    other_fuel: nat,
)
    requires
        lookahead_correct(table),
        sec < table.len(),
        derive_section(table, sec, input, pos, fuel) is Some,
        derive_section(table, sec, other_input, other_pos, other_fuel) is Some,
        derived_text(table, sec, input, pos, fuel).is_prefix_of(
            derived_text(table, sec, other_input, other_pos, other_fuel),
        ),
    ensures
        choose_rule(input, pos, 0, table[sec as int].rules.len()).0 == choose_rule(
            other_input,
            other_pos,
            0,
            table[sec as int].rules.len(),
        ).0,
{
    let short = derived_text(table, sec, input, pos, fuel);
    let long = derived_text(table, sec, other_input, other_pos, other_fuel);
    assert(text_at(long, 0, long)) by {
        assert(long.subrange(0, long.len() as int) =~= long);
    }
    assert(text_at(long, 0, short));
    let decoder = table[sec as int].decoder;
    assert(match_layer(decoder, long, 0) == Ok::<nat, crate::decoder::DecodeFailure>(
        choose_rule(input, pos, 0, table[sec as int].rules.len()).0,
    ));
    assert(match_layer(decoder, long, 0) == Ok::<nat, crate::decoder::DecodeFailure>(
        choose_rule(other_input, other_pos, 0, table[sec as int].rules.len()).0,
    ));
}

} // verus!

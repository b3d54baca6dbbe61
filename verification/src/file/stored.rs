//! What reading recovers of a table that was written.

use super::read::{
    char_of, lemma_parse_varint, lemma_varint_round_trip, parse_kids, parse_layer,
    parse_payload, parse_rules, parse_seg, parse_sections, parse_segs, parse_varint,
};
use super::write::{
    kids_bytes, kids_fit, layer_bytes, layer_fits, lemma_kids_fit_index, rules_bytes, rules_fit,
    section_bytes, sections_bytes, seg_bytes, seg_fits, segs_bytes, table_bytes, table_fits,
    varint_bytes, VARINT_LIMIT,
};
use crate::syntax::{
    find_key, keys_differ, layer_is_keyed, layers_are_keyed, lemma_find_key,
    lemma_layers_are_keyed_index, lemma_layers_are_keyed_intro, table_is_keyed, LayerModel,
    SectionModel, SegModel,
};
use vstd::prelude::*;
use vstd::utf8::{
    char_is_scalar, char_u32_cast, encode_utf8, encode_utf8_decode_utf8, encode_utf8_valid_utf8,
};

verus! {

/// Whether `piece` stands in `bytes` from `pos` on.
pub open spec fn stands_at(bytes: Seq<u8>, pos: int, piece: Seq<u8>) -> bool {
    &&& 0 <= pos
    &&& pos + piece.len() <= bytes.len()
    &&& forall|k: int| 0 <= k < piece.len() ==> bytes[pos + k] == #[trigger] piece[k]
}

/// Where two pieces stand joined, the first stands there and the second
/// after it.
proof fn lemma_stands_split(bytes: Seq<u8>, pos: int, a: Seq<u8>, b: Seq<u8>)
    requires
        stands_at(bytes, pos, a + b),
    ensures
        stands_at(bytes, pos, a),
        stands_at(bytes, pos + a.len(), b),
{
    assert forall|k: int| 0 <= k < a.len() implies bytes[pos + k] == #[trigger] a[k] by {
        assert((a + b)[k] == a[k]);
    }
    assert forall|k: int| 0 <= k < b.len() implies bytes[pos + a.len() + k] == #[trigger] b[k] by {
        assert((a + b)[a.len() + k] == b[k]);
    }
}

/// A number is read at a place as it is read at the start of what begins
/// there.
proof fn lemma_parse_varint_from(bytes: Seq<u8>, pos: int)
    requires
        0 <= pos <= bytes.len(),
    ensures
        parse_varint(bytes, pos) == match parse_varint(bytes.skip(pos), 0) {
            Some((v, end)) => Some((v, pos + end)),
            None => None,
        },
{
    let tail = bytes.skip(pos);
    if pos < bytes.len() {
        assert(tail[0] == bytes[pos]);
        if tail.len() > 1 {
            assert(tail[1] == bytes[pos + 1]);
        }
        if tail.len() > 2 {
            assert(tail[2] == bytes[pos + 2]);
        }
        if tail.len() > 3 {
            assert(tail[3] == bytes[pos + 3]);
        }
    }
}

/// A number is read where its bytes stand.
proof fn lemma_varint_stands(bytes: Seq<u8>, pos: int, v: nat)
    requires
        v < VARINT_LIMIT,
        stands_at(bytes, pos, varint_bytes(v)),
    ensures
        parse_varint(bytes, pos) == Some((v, pos + varint_bytes(v).len())),
{
    let piece = varint_bytes(v);
    let rest = bytes.skip(pos + piece.len());
    assert(bytes.skip(pos) =~= piece + rest) by {
        assert forall|k: int| 0 <= k < piece.len() implies bytes[pos + k] == piece[k] by {
            assert(bytes[pos + k] == #[trigger] piece[k]);
        }
    }
    lemma_varint_round_trip(v, rest);
    lemma_parse_varint_from(bytes, pos);
}

/// A segment is read where its bytes stand.
proof fn lemma_seg_stands(bytes: Seq<u8>, pos: int, seg: SegModel)
    requires
        seg_fits(seg),
        stands_at(bytes, pos, seg_bytes(seg)),
    ensures
        parse_seg(bytes, pos) == Some((seg, pos + seg_bytes(seg).len())),
{
    match seg {
        SegModel::Text(t) => {
            let tag = seq![0u8];
            let body = encode_utf8(t);
            let count = varint_bytes(body.len());
            lemma_stands_split(bytes, pos, tag + count, body);
            lemma_stands_split(bytes, pos, tag, count);
            assert(bytes[pos + 0] == tag[0]);
            lemma_varint_stands(bytes, pos + 1, body.len());
            let start = pos + 1 + count.len();
            assert(bytes.subrange(start, start + body.len()) =~= body) by {
                assert forall|k: int| 0 <= k < body.len() implies bytes[start + k] == body[k] by {
                    assert(bytes[start + k] == #[trigger] body[k]);
                }
            }
            encode_utf8_valid_utf8(t);
            encode_utf8_decode_utf8(t);
        },
        SegModel::Use(i) => {
            let tag = seq![1u8];
            lemma_stands_split(bytes, pos, tag, varint_bytes(i));
            assert(bytes[pos + 0] == tag[0]);
            lemma_varint_stands(bytes, pos + 1, i);
        },
    }
}

/// The segments of a rule are read where their bytes stand.
proof fn lemma_segs_stand(bytes: Seq<u8>, pos: int, segs: Seq<SegModel>, i: int)
    requires
        0 <= i <= segs.len(),
        forall|j: int| 0 <= j < segs.len() ==> seg_fits(#[trigger] segs[j]),
        stands_at(bytes, pos, segs_bytes(segs, i)),
    ensures
        parse_segs(bytes, pos, (segs.len() - i) as nat) == Some(
            (segs.subrange(i, segs.len() as int), pos + segs_bytes(segs, i).len()),
        ),
    decreases segs.len() - i,
{
    if i < segs.len() {
        let first = seg_bytes(segs[i]);
        lemma_stands_split(bytes, pos, first, segs_bytes(segs, i + 1));
        lemma_seg_stands(bytes, pos, segs[i]);
        lemma_segs_stand(bytes, pos + first.len(), segs, i + 1);
        assert(seq![segs[i]] + segs.subrange(i + 1, segs.len() as int) =~= segs.subrange(
            i,
            segs.len() as int,
        ));
    } else {
        assert(segs.subrange(i, segs.len() as int) =~= Seq::<SegModel>::empty());
    }
}

/// The rules of a section are read where their bytes stand.
proof fn lemma_rules_stand(bytes: Seq<u8>, pos: int, rules: Seq<Seq<SegModel>>, i: int)
    requires
        0 <= i <= rules.len(),
        rules_fit(rules),
        stands_at(bytes, pos, rules_bytes(rules, i)),
    ensures
        parse_rules(bytes, pos, (rules.len() - i) as nat) == Some(
            (rules.subrange(i, rules.len() as int), pos + rules_bytes(rules, i).len()),
        ),
    decreases rules.len() - i,
{
    if i < rules.len() {
        let rule = rules[i];
        let count = varint_bytes(rule.len());
        let body = segs_bytes(rule, 0);
        lemma_stands_split(bytes, pos, count + body, rules_bytes(rules, i + 1));
        lemma_stands_split(bytes, pos, count, body);
        lemma_varint_stands(bytes, pos, rule.len());
        assert forall|j: int| 0 <= j < rule.len() implies seg_fits(#[trigger] rule[j]) by {
            assert(seg_fits(rules[i][j]));
        }
        lemma_segs_stand(bytes, pos + count.len(), rule, 0);
        assert(rule.subrange(0, rule.len() as int) =~= rule);
        lemma_rules_stand(bytes, pos + count.len() + body.len(), rules, i + 1);
        assert(seq![rule] + rules.subrange(i + 1, rules.len() as int) =~= rules.subrange(
            i,
            rules.len() as int,
        ));
    } else {
        assert(rules.subrange(i, rules.len() as int) =~= Seq::<Seq<SegModel>>::empty());
    }
}

/// An automaton is read where its bytes stand.
proof fn lemma_layer_stands(bytes: Seq<u8>, pos: int, l: LayerModel)
    requires
        layer_fits(l),
        layer_is_keyed(l),
        stands_at(bytes, pos, layer_bytes(l)),
    ensures
        parse_layer(bytes, pos) == Some((l, pos + layer_bytes(l).len())),
    decreases l, 0nat,
{
    match l {
        LayerModel::Certain(rule) => {
            let tag = seq![0u8];
            lemma_stands_split(bytes, pos, tag, varint_bytes(rule));
            assert(bytes[pos + 0] == tag[0]);
            lemma_varint_stands(bytes, pos + 1, rule);
        },
        LayerModel::Branch(kids) => {
            let tag = seq![1u8];
            let count = varint_bytes(kids.len());
            lemma_stands_split(bytes, pos, tag + count, kids_bytes(kids, 0));
            lemma_stands_split(bytes, pos, tag, count);
            assert(bytes[pos + 0] == tag[0]);
            lemma_varint_stands(bytes, pos + 1, kids.len());
            lemma_kids_stand(bytes, pos + 1 + count.len(), kids, 0);
            assert(kids.take(0) =~= Seq::<(char, LayerModel)>::empty());
        },
    }
}

/// The branches from the `i`-th on are read where their bytes stand, after
/// those before them.
proof fn lemma_kids_stand(bytes: Seq<u8>, pos: int, kids: Seq<(char, LayerModel)>, i: int)
    requires
        0 <= i <= kids.len(),
        kids_fit(kids, kids.len()),
        keys_differ(kids),
        layers_are_keyed(kids, kids.len()),
        stands_at(bytes, pos, kids_bytes(kids, i)),
    ensures
        parse_kids(bytes, pos, (kids.len() - i) as nat, kids.take(i)) == Some(
            (kids, pos + kids_bytes(kids, i).len()),
        ),
    decreases kids, kids.len() - i,
{
    if i < kids.len() {
        let key = kids[i].0;
        let kid = kids[i].1;
        char_is_scalar(key);
        let code = key as u32 as nat;
        let head = varint_bytes(code);
        let body = layer_bytes(kid);
        lemma_stands_split(bytes, pos, head + body, kids_bytes(kids, i + 1));
        lemma_stands_split(bytes, pos, head, body);
        lemma_varint_stands(bytes, pos, code);
        char_u32_cast(key, key as u32);
        assert(char_of(code) == Some(key));
        lemma_kids_fit_index(kids, kids.len(), i);
        lemma_layers_are_keyed_index(kids, kids.len(), i);
        lemma_layer_stands(bytes, pos + head.len(), kid);
        lemma_find_key(kids.take(i), key, 0);
        assert(find_key(kids.take(i), key, 0) is None) by {
            if find_key(kids.take(i), key, 0) is Some {
                let k = find_key(kids.take(i), key, 0)->Some_0;
                assert(kids.take(i)[k] == kids[k]);
                assert(kids[k].0 != kids[i].0);
            }
        }
        assert(kids.take(i).push((key, kid)) =~= kids.take(i + 1));
        lemma_kids_stand(bytes, pos + head.len() + body.len(), kids, i + 1);
    } else {
        assert(kids.take(i) =~= kids);
    }
}

/// The sections from the `i`-th on are read where their bytes stand.
proof fn lemma_sections_stand(bytes: Seq<u8>, pos: int, table: Seq<SectionModel>, i: int)
    requires
        0 <= i <= table.len(),
        table_fits(table),
        table_is_keyed(table),
        stands_at(bytes, pos, sections_bytes(table, i)),
    ensures
        parse_sections(bytes, pos, (table.len() - i) as nat) == Some(
            (table.subrange(i, table.len() as int), pos + sections_bytes(table, i).len()),
        ),
    decreases table.len() - i,
{
    if i < table.len() {
        let section = table[i];
        let count = varint_bytes(section.rules.len());
        let rules = rules_bytes(section.rules, 0);
        let decoder = layer_bytes(section.decoder);
        lemma_stands_split(bytes, pos, section_bytes(section), sections_bytes(table, i + 1));
        lemma_stands_split(bytes, pos, count + rules, decoder);
        lemma_stands_split(bytes, pos, count, rules);
        lemma_varint_stands(bytes, pos, section.rules.len());
        lemma_rules_stand(bytes, pos + count.len(), section.rules, 0);
        assert(section.rules.subrange(0, section.rules.len() as int) =~= section.rules);
        lemma_layer_stands(bytes, pos + count.len() + rules.len(), section.decoder);
        lemma_sections_stand(bytes, pos + section_bytes(section).len(), table, i + 1);
        assert(seq![section] + table.subrange(i + 1, table.len() as int) =~= table.subrange(
            i,
            table.len() as int,
        ));
    } else {
        assert(table.subrange(i, table.len() as int) =~= Seq::<SectionModel>::empty());
    }
}

/// A table that can be stored, and whose automata have each character once
/// wherever they branch, is read back from its payload as it was, whatever
/// follows the payload.
pub proof fn lemma_payload_round_trip(table: Seq<SectionModel>, rest: Seq<u8>)
    requires
        table_fits(table),
        table_is_keyed(table),
    ensures
        parse_payload(table_bytes(table) + rest) == Some(table),
{
    let bytes = table_bytes(table) + rest;
    let count = varint_bytes(table.len());
    assert(stands_at(bytes, 0, table_bytes(table))) by {
        assert forall|k: int| 0 <= k < table_bytes(table).len() implies bytes[0 + k]
            == #[trigger] table_bytes(table)[k] by {}
    }
    lemma_stands_split(bytes, 0, count, sections_bytes(table, 0));
    lemma_varint_stands(bytes, 0, table.len());
    lemma_sections_stand(bytes, count.len() as int, table, 0);
    assert(table.subrange(0, table.len() as int) =~= table);
}

/// An automaton that was read has each character once wherever it
/// branches.
proof fn lemma_read_layer_is_keyed(bytes: Seq<u8>, pos: int)
    ensures
        parse_layer(bytes, pos) matches Some((l, _)) ==> layer_is_keyed(l),
    decreases bytes.len() - pos, 0nat,
{
    if 0 <= pos < bytes.len() && bytes[pos] == 1 {
        if let Some((count, start)) = parse_varint(bytes, pos + 1) {
            lemma_parse_varint(bytes, pos + 1);
            let none = Seq::<(char, LayerModel)>::empty();
            lemma_read_kids_are_keyed(bytes, start, count, none);
            if let Some((kids, _)) = parse_kids(bytes, start, count, none) {
                lemma_layers_are_keyed_intro(kids, kids.len());
            }
        }
    }
}

/// The branches that were read have each its own character, and lead to
/// automata that have each character once wherever they branch.
proof fn lemma_read_kids_are_keyed(
    bytes: Seq<u8>,
    pos: int,
    count: nat,
    done: Seq<(char, LayerModel)>,
)
    requires
        keys_differ(done),
        forall|i: int| 0 <= i < done.len() ==> layer_is_keyed((#[trigger] done[i]).1),
    ensures
        parse_kids(bytes, pos, count, done) matches Some((kids, _)) ==> keys_differ(kids)
            && forall|i: int| 0 <= i < kids.len() ==> layer_is_keyed((#[trigger] kids[i]).1),
    decreases bytes.len() - pos, count + 1,
{
    if count > 0 {
        if let Some((code, start)) = parse_varint(bytes, pos) {
            lemma_parse_varint(bytes, pos);
            if let Some(key) = char_of(code) {
                lemma_read_layer_is_keyed(bytes, start);
                if let Some((kid, after)) = parse_layer(bytes, start) {
                    if find_key(done, key, 0) is None && pos < after <= bytes.len() {
                        let more = done.push((key, kid));
                        lemma_find_key(done, key, 0);
                        assert forall|i: int, j: int| 0 <= i < j < more.len() implies (
                        #[trigger] more[i]).0 != (#[trigger] more[j]).0 by {
                            if j < done.len() {
                                assert(done[i].0 != done[j].0);
                            } else {
                                assert(done[i].0 != key);
                            }
                        }
                        assert forall|i: int| 0 <= i < more.len() implies layer_is_keyed(
                            (#[trigger] more[i]).1,
                        ) by {
                            if i < done.len() {
                                assert(layer_is_keyed(done[i].1));
                            }
                        }
                        lemma_read_kids_are_keyed(bytes, after, (count - 1) as nat, more);
                    }
                }
            }
        }
    }
}

proof fn lemma_read_sections_are_keyed(bytes: Seq<u8>, pos: int, count: nat)
    ensures
        parse_sections(bytes, pos, count) matches Some((table, _)) ==> table_is_keyed(table),
    decreases count,
{
    if count > 0 {
        if let Some((rule_count, start)) = parse_varint(bytes, pos) {
            if let Some((rules, mid)) = parse_rules(bytes, start, rule_count) {
                lemma_read_layer_is_keyed(bytes, mid);
                if let Some((decoder, after)) = parse_layer(bytes, mid) {
                    lemma_read_sections_are_keyed(bytes, after, (count - 1) as nat);
                    if let Some((rest, _)) = parse_sections(bytes, after, (count - 1) as nat) {
                        let first = SectionModel { rules, decoder };
                        let table = seq![first] + rest;
                        assert forall|i: int| 0 <= i < table.len() implies layer_is_keyed(
                            (#[trigger] table[i]).decoder,
                        ) by {
                            if i > 0 {
                                assert(table[i] == rest[i - 1]);
                            }
                        }
                    }
                }
            }
        }
    }
}

/// In a table that was read from a payload, every automaton has each
/// character once wherever it branches.
pub proof fn lemma_read_table_is_keyed(bytes: Seq<u8>)
    ensures
        parse_payload(bytes) matches Some(table) ==> table_is_keyed(table),
{
    if let Some((count, start)) = parse_varint(bytes, 0) {
        lemma_read_sections_are_keyed(bytes, start, count);
    }
}

} // verus!

//! When encoding and decoding come to an end.

use crate::decoder::{
    decodable, decode_from, lemma_match_layer_in_range, match_layer, parse_rule, parse_section,
    Parse,
};
use crate::encoder::bits::stream_ended;
use crate::encoder::{
    choose_rule, derive_rule, derive_section, encodable, encode_from, lemma_choose_rule,
};
use crate::syntax::{table_wf, SectionModel, SegModel};
use vstd::prelude::*;

verus! {

/// Whether `rank` orders the sections of `table` so that every section
/// refers to sections of lower rank only; a table with such an order has no
/// section that leads back to itself.
pub open spec fn ranked(table: Seq<SectionModel>, rank: Seq<nat>) -> bool {
    &&& rank.len() == table.len()
    &&& forall|f: int, r: int, j: int|
        0 <= f < table.len() && 0 <= r < table[f].rules.len() && 0 <= j < table[f].rules[r].len()
            ==> (#[trigger] table[f].rules[r][j] matches SegModel::Use(k) ==> k < table.len()
            && rank[k as int] < rank[f])
}

/// Whether no section of `table` leads back to itself.
pub open spec fn acyclic(table: Seq<SectionModel>) -> bool {
    exists|rank: Seq<nat>| ranked(table, rank)
}

/// Whether every derivation read from the first section takes at least one
/// character of the text.
pub open spec fn progressive(table: Seq<SectionModel>) -> bool {
    forall|text: Seq<char>, pos: nat, fuel: nat|
        #[trigger] parse_section(table, 0, text, pos, fuel) matches Parse::Done(_, end) ==> pos
            < end <= text.len()
}

/// In a table without a section that leads back to itself, a derivation
/// ends within as many nested sections as the rank of its section allows.
pub proof fn lemma_ranked_section_derives(
    table: Seq<SectionModel>,
    rank: Seq<nat>,
    sec: nat,
    input: Seq<u8>,
    pos: nat,
    fuel: nat,
)
    requires
        table_wf(table),
        ranked(table, rank),
        sec < table.len(),
        fuel > rank[sec as int],
    ensures
        derive_section(table, sec, input, pos, fuel) matches Some((_, end)) && pos <= end && (
        table[sec as int].rules.len() >= 2 ==> pos < end),
    decreases rank[sec as int], 1nat, 0nat,
{
    let n = table[sec as int].rules.len();
    lemma_choose_rule(input, pos, 0, n);
    let (rule, after) = choose_rule(input, pos, 0, n);
    lemma_ranked_rule_derives(table, rank, sec, rule, 0, input, after, (fuel - 1) as nat);
}

/// A rule of a ranked table is derived within fuel of its section's rank.
pub proof fn lemma_ranked_rule_derives(
    table: Seq<SectionModel>,
    rank: Seq<nat>,
    sec: nat,
    rule: nat,
    i: nat,
    input: Seq<u8>,
    pos: nat,
    fuel: nat,
)
    requires
        table_wf(table),
        ranked(table, rank),
        sec < table.len(),
        rule < table[sec as int].rules.len(),
        fuel >= rank[sec as int],
    ensures
        derive_rule(table, table[sec as int].rules[rule as int], i, input, pos, fuel) matches Some(
            (_, end),
        ) && pos <= end,
    decreases rank[sec as int], 0nat, table[sec as int].rules[rule as int].len() - i,
{
    let segs = table[sec as int].rules[rule as int];
    if i < segs.len() {
        match segs[i as int] {
            SegModel::Text(t) => {
                lemma_ranked_rule_derives(table, rank, sec, rule, i + 1, input, pos, fuel);
            },
            SegModel::Use(k) => {
                assert(table[sec as int].rules[rule as int][i as int] matches SegModel::Use(t)
                    ==> t < table.len() && rank[t as int] < rank[sec as int]);
                lemma_ranked_section_derives(table, rank, k, input, pos, fuel);
                let (_, after) = derive_section(table, k, input, pos, fuel)->0;
                lemma_ranked_rule_derives(table, rank, sec, rule, i + 1, input, after, fuel);
            },
        }
    }
}

/// How far `pos` is from the end of the stream of `input`.
pub open spec fn bits_left(input: Seq<u8>, pos: nat) -> nat {
    if stream_ended(input, pos) {
        0
    } else {
        (8 * input.len() + 1 - pos) as nat
    }
}

proof fn lemma_ranked_encoding_ends(
    table: Seq<SectionModel>,
    rank: Seq<nat>,
    input: Seq<u8>,
    pos: nat,
    fuel: nat,
)
    requires
        table_wf(table),
        ranked(table, rank),
        table[0].rules.len() >= 2,
        fuel >= bits_left(input, pos) + rank[0] + 1,
    ensures
        encode_from(table, input, pos, fuel) is Some,
    decreases bits_left(input, pos),
{
    if !stream_ended(input, pos) {
        lemma_ranked_section_derives(table, rank, 0, input, pos, fuel);
        let (_, after) = derive_section(table, 0, input, pos, fuel)->0;
        lemma_ranked_encoding_ends(table, rank, input, after, (fuel - 1) as nat);
    }
}

/// With a table without a section that leads back to itself, and whose
/// first section has more than one rule, every byte string is encoded.
pub proof fn lemma_ranked_table_encodes(table: Seq<SectionModel>, rank: Seq<nat>, input: Seq<u8>)
    requires
        table_wf(table),
        ranked(table, rank),
        table[0].rules.len() >= 2,
    ensures
        encodable(table, input),
{
    let fuel = bits_left(input, 0) + rank[0] + 1;
    lemma_ranked_encoding_ends(table, rank, input, 0, fuel);
}

/// In a table without a section that leads back to itself, the reading of
/// a derivation ends, one way or the other, within as many nested sections
/// as the rank of its section allows.
pub proof fn lemma_ranked_section_parses(
    table: Seq<SectionModel>,
    rank: Seq<nat>,
    sec: nat,
    text: Seq<char>,
    pos: nat,
    fuel: nat,
)
    requires
        table_wf(table),
        ranked(table, rank),
        sec < table.len(),
        fuel > rank[sec as int],
    ensures
        !(parse_section(table, sec, text, pos, fuel) is OutOfFuel),
    decreases rank[sec as int], 1nat, 0nat,
{
    lemma_match_layer_in_range(
        table[sec as int].decoder,
        text,
        pos,
        table[sec as int].rules.len(),
    );
    if let Ok(rule) = match_layer(table[sec as int].decoder, text, pos) {
        lemma_ranked_rule_parses(table, rank, sec, rule, 0, text, pos, (fuel - 1) as nat);
    }
}

/// A rule of a ranked table is parsed within fuel of its section's rank.
pub proof fn lemma_ranked_rule_parses(
    table: Seq<SectionModel>,
    rank: Seq<nat>,
    sec: nat,
    rule: nat,
    i: nat,
    text: Seq<char>,
    pos: nat,
    fuel: nat,
)
    requires
        table_wf(table),
        ranked(table, rank),
        sec < table.len(),
        rule < table[sec as int].rules.len(),
        fuel >= rank[sec as int],
    ensures
        !(parse_rule(table, table[sec as int].rules[rule as int], i, text, pos, fuel)
            is OutOfFuel),
    decreases rank[sec as int], 0nat, table[sec as int].rules[rule as int].len() - i,
{
    let segs = table[sec as int].rules[rule as int];
    if i < segs.len() {
        match segs[i as int] {
            SegModel::Text(t) => {
                lemma_ranked_rule_parses(table, rank, sec, rule, i + 1, text, pos + t.len(), fuel);
            },
            SegModel::Use(k) => {
                assert(table[sec as int].rules[rule as int][i as int] matches SegModel::Use(t)
                    ==> t < table.len() && rank[t as int] < rank[sec as int]);
                lemma_ranked_section_parses(table, rank, k, text, pos, fuel);
                if let Parse::Done(_, after) = parse_section(table, k, text, pos, fuel) {
                    lemma_ranked_rule_parses(table, rank, sec, rule, i + 1, text, after, fuel);
                }
            },
        }
    }
}

proof fn lemma_ranked_decoding_ends(
    table: Seq<SectionModel>,
    rank: Seq<nat>,
    text: Seq<char>,
    pos: nat,
    fuel: nat,
)
    requires
        table_wf(table),
        ranked(table, rank),
        progressive(table),
        pos <= text.len(),
        fuel >= (text.len() - pos) + rank[0] + 1,
    ensures
        !(decode_from(table, text, pos, fuel) is OutOfFuel),
    decreases text.len() - pos,
{
    if pos < text.len() {
        lemma_ranked_section_parses(table, rank, 0, text, pos, fuel);
        if let Parse::Done(_, after) = parse_section(table, 0, text, pos, fuel) {
            lemma_ranked_decoding_ends(table, rank, text, after, (fuel - 1) as nat);
        }
    }
}

/// With a table without a section that leads back to itself, in which the
/// reading of a derivation from the first section takes a character, the
/// decoding of every text comes to an end.
pub proof fn lemma_ranked_table_decodes(table: Seq<SectionModel>, rank: Seq<nat>, text: Seq<char>)
    requires
        table_wf(table),
        ranked(table, rank),
        progressive(table),
    ensures
        decodable(table, text),
{
    let fuel = text.len() + rank[0] + 1;
    lemma_ranked_decoding_ends(table, rank, text, 0, fuel);
}

/// With a table in which no section leads back to itself, and whose first
/// section has more than one rule, every byte string is encoded.
pub proof fn lemma_acyclic_table_encodes(table: Seq<SectionModel>, input: Seq<u8>)
    requires
        table_wf(table),
        acyclic(table),
        table[0].rules.len() >= 2,
    ensures
        encodable(table, input),
{
    let rank = choose|rank: Seq<nat>| ranked(table, rank);
    lemma_ranked_table_encodes(table, rank, input);
}

/// With a table in which no section leads back to itself, and in which the
/// reading of a derivation from the first section takes a character, the
/// decoding of every text comes to an end.
pub proof fn lemma_acyclic_table_decodes(table: Seq<SectionModel>, text: Seq<char>)
    requires
        table_wf(table),
        acyclic(table),
        progressive(table),
    ensures
        decodable(table, text),
{
    let rank = choose|rank: Seq<nat>| ranked(table, rank);
    lemma_ranked_table_decodes(table, rank, text);
}

} // verus!

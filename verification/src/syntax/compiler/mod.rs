//! Compiling a grammar into the flat table that encoding and decoding use.

use super::{table_is_keyed, table_view, table_wf, Section, SectionModel};
use crate::decoder::decodable;
use crate::encoder::encodable;
use crate::round_trip::lookahead_correct;
use crate::termination::{
    acyclic, lemma_acyclic_table_decodes, lemma_acyclic_table_encodes, progressive,
};
use keys::lemma_serialize_is_keyed;
use link::{lemma_link_secs_wf, link_secs, link_secs_model, LinkError};
use parse_tokens::{expr_sections_view, ExprSection, ExprSectionModel};
use serialize::{lemma_serialize_is_wf, serialize, serialize_model};
use soundness::{lemma_serialize_is_lookahead_correct, lemma_serialize_terminates};
use vstd::prelude::*;

pub mod keys;
pub mod language;
pub mod link;
pub mod parse_tokens;
pub mod place;
pub mod searcher;
pub mod serialize;
pub mod soundness;

verus! {

/// The compiled table of a grammar, or why the grammar does not link.
pub open spec fn compile_model(sections: Seq<ExprSectionModel>) -> Result<
    Seq<SectionModel>,
    link::LinkErrorModel,
> {
    match link_secs_model(sections) {
        Err(e) => Err(e),
        Ok((table, entry)) => Ok(serialize_model(table, entry)),
    }
}

/// Compiles the sections of a grammar, given in the order of the source:
/// links them, builds the lookahead trie of each, and flattens what can be
/// reached from the section `entry` into a table, with `entry` first.
pub fn compile(sections: Vec<ExprSection>) -> (r: Result<Vec<Section>, LinkError>)
    requires
        sections@.len() <= u32::MAX,
        forall|i: int|
            0 <= i < sections@.len() ==> (#[trigger] sections@[i]).rules@.len() <= u32::MAX,
    ensures
        match compile_model(expr_sections_view(sections@)) {
            Ok(table) => (r matches Ok(v) && table_view(v@) == table && sound(table)),
            Err(e) => (r matches Err(x) && x@ == e),
        },
{
    proof {
        lemma_compiled_table_is_sound(expr_sections_view(sections@));
    }
    let (linked, entry) = match link_secs(sections) {
        Ok(found) => found,
        Err(e) => {
            return Err(e);
        },
    };
    proof {
        link::lemma_find_section(linked@, "entry"@, 0);
    }
    Ok(serialize(&linked, entry))
}

/// What holds of every table that compiles: it can be worked with; its
/// automata tell its rules apart, and have each character once wherever
/// they branch; no section of it leads back to itself; and the reading of a
/// derivation from its first section takes a character.
pub open spec fn sound(table: Seq<SectionModel>) -> bool {
    &&& table_wf(table)
    &&& table_is_keyed(table)
    &&& lookahead_correct(table)
    &&& acyclic(table)
    &&& progressive(table)
}

/// A table that compiles is sound.
pub proof fn lemma_compiled_table_is_sound(sections: Seq<ExprSectionModel>)
    ensures
        compile_model(sections) matches Ok(table) ==> sound(table),
{
    lemma_link_secs_wf(sections);
    if let Ok((linked, entry)) = link_secs_model(sections) {
        lemma_serialize_is_wf(linked, entry);
        lemma_serialize_is_keyed(linked, entry);
        lemma_serialize_is_lookahead_correct(linked, entry);
        lemma_serialize_terminates(linked, entry);
    }
}

/// With a sound table, the decoding of every text comes to an end.
pub proof fn lemma_sound_table_decodes(table: Seq<SectionModel>, text: Seq<char>)
    requires
        sound(table),
    ensures
        decodable(table, text),
{
    lemma_acyclic_table_decodes(table, text);
}

/// With a sound table whose first section has more than one rule, every
/// byte string is encoded.
pub proof fn lemma_sound_table_encodes(table: Seq<SectionModel>, input: Seq<u8>)
    requires
        sound(table),
        table[0].rules.len() >= 2,
    ensures
        encodable(table, input),
{
    lemma_acyclic_table_encodes(table, input);
}

} // verus!

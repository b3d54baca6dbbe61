//! Encoding: choosing rules by the bits of the input, and writing their text.

use crate::share_str::{string_push, ShareStr};
use crate::syntax::{
    rule_view, rules_in_range, table_view, table_wf, Section, SectionModel, Seg, SegModel,
};
use bits::{stream_bit, stream_ended, BitReader};
use vstd::prelude::*;

pub mod bits;
pub mod lcg;

verus! {

/// The rule among `lo..hi` that the bits of the stream from `pos` on pick,
/// and the place in the stream after the bits used.
///
/// While more than one rule is left, one bit halves the range: 0 keeps the
/// lower half, 1 the upper half, which is the larger one where the halves
/// differ.
pub open spec fn choose_rule(input: Seq<u8>, pos: nat, lo: nat, hi: nat) -> (nat, nat)
    decreases hi - lo,
{
    if hi <= lo + 1 {
        (lo, pos)
    } else {
        let mid = (lo + (hi - lo) / 2) as nat;
        if stream_bit(input, pos) {
            choose_rule(input, pos + 1, mid, hi)
        } else {
            choose_rule(input, pos + 1, lo, mid)
        }
    }
}

/// The rule chosen lies among those offered, no bit is given back, and a
/// choice among two or more rules reads at least one bit.
pub proof fn lemma_choose_rule(input: Seq<u8>, pos: nat, lo: nat, hi: nat)
    ensures
        lo < hi ==> lo <= choose_rule(input, pos, lo, hi).0 < hi,
        pos <= choose_rule(input, pos, lo, hi).1,
        hi > lo + 1 ==> pos < choose_rule(input, pos, lo, hi).1,
    decreases hi - lo,
{
    if hi > lo + 1 {
        let mid = (lo + (hi - lo) / 2) as nat;
        if stream_bit(input, pos) {
            lemma_choose_rule(input, pos + 1, mid, hi);
        } else {
            lemma_choose_rule(input, pos + 1, lo, mid);
        }
    }
}

/// The text derived from the section `sec` with the bits of the stream
/// from `pos` on, and the place in the stream after the bits used; `None`
/// where the derivation nests deeper than `fuel` sections.
pub open spec fn derive_section(
    table: Seq<SectionModel>,
    sec: nat,
    input: Seq<u8>,
    pos: nat,
    fuel: nat,
) -> Option<(Seq<char>, nat)>
    decreases fuel, 0nat, 0nat,
{
    if fuel == 0 {
        None
    } else {
        let (rule, after) = choose_rule(input, pos, 0, table[sec as int].rules.len());
        derive_rule(table, table[sec as int].rules[rule as int], 0, input, after, (fuel - 1) as nat)
    }
}

/// The text derived from the segments `segs[i..]`: literal text as it
/// stands, a reference by the derivation of its section.
pub open spec fn derive_rule(
    table: Seq<SectionModel>,
    segs: Seq<SegModel>,
    i: nat,
    input: Seq<u8>,
    pos: nat,
    fuel: nat,
) -> Option<(Seq<char>, nat)>
    decreases fuel, 1nat, segs.len() - i,
{
    if i >= segs.len() {
        Some((Seq::empty(), pos))
    } else {
        match segs[i as int] {
            SegModel::Text(t) => match derive_rule(table, segs, i + 1, input, pos, fuel) {
                None => None,
                Some((rest, end)) => Some((t + rest, end)),
            },
            SegModel::Use(r) => match derive_section(table, r, input, pos, fuel) {
                None => None,
                Some((text, after)) => match derive_rule(table, segs, i + 1, input, after, fuel) {
                    None => None,
                    Some((rest, end)) => Some((text + rest, end)),
                },
            },
        }
    }
}

/// The text of the derivations from the first section that follow one
/// another from `pos` on until the stream has ended, and the place in the
/// stream after them; `None` where `fuel` does not suffice.
pub open spec fn encode_from(table: Seq<SectionModel>, input: Seq<u8>, pos: nat, fuel: nat) -> Option<
    (Seq<char>, nat),
>
    decreases fuel,
{
    if stream_ended(input, pos) {
        Some((Seq::empty(), pos))
    } else if fuel == 0 {
        None
    } else {
        match derive_section(table, 0, input, pos, fuel) {
            None => None,
            Some((text, after)) => match encode_from(table, input, after, (fuel - 1) as nat) {
                None => None,
                Some((rest, end)) => Some((text + rest, end)),
            },
        }
    }
}

/// Whether the encoding of `input` comes to an end.
pub open spec fn encodable(table: Seq<SectionModel>, input: Seq<u8>) -> bool {
    exists|fuel: nat| encode_from(table, input, 0, fuel) is Some
}

/// A bound on nesting and repetition within which `input` is encoded.
pub open spec fn encode_fuel(table: Seq<SectionModel>, input: Seq<u8>) -> nat {
    choose|fuel: nat| encode_from(table, input, 0, fuel) is Some
}

/// The text that encodes `input`.
pub open spec fn encode_text(table: Seq<SectionModel>, input: Seq<u8>) -> Seq<char> {
    match encode_from(table, input, 0, encode_fuel(table, input)) {
        Some((text, _)) => text,
        None => Seq::empty(),
    }
}

/// How many bits of the stream of `input` its encoding uses.
pub open spec fn encode_bits(table: Seq<SectionModel>, input: Seq<u8>) -> nat {
    match encode_from(table, input, 0, encode_fuel(table, input)) {
        Some((_, end)) => end,
        None => 0,
    }
}

/// More fuel does not change a derivation that ends.
pub proof fn lemma_derive_section_fuel(
    table: Seq<SectionModel>,
    sec: nat,
    input: Seq<u8>,
    pos: nat,
    fuel: nat,
    more: nat,
)
    requires
        derive_section(table, sec, input, pos, fuel) is Some,
        fuel <= more,
    ensures
        derive_section(table, sec, input, pos, more) == derive_section(
            table,
            sec,
            input,
            pos,
            fuel,
        ),
    decreases fuel, 0nat, 0nat,
{
    let (rule, after) = choose_rule(input, pos, 0, table[sec as int].rules.len());
    lemma_derive_rule_fuel(
        table,
        table[sec as int].rules[rule as int],
        0,
        input,
        after,
        (fuel - 1) as nat,
        (more - 1) as nat,
    );
}

/// A rule derived within some fuel is derived alike with more.
pub proof fn lemma_derive_rule_fuel(
    table: Seq<SectionModel>,
    segs: Seq<SegModel>,
    i: nat,
    input: Seq<u8>,
    pos: nat,
    fuel: nat,
    more: nat,
)
    requires
        derive_rule(table, segs, i, input, pos, fuel) is Some,
        fuel <= more,
    ensures
        derive_rule(table, segs, i, input, pos, more) == derive_rule(
            table,
            segs,
            i,
            input,
            pos,
            fuel,
        ),
    decreases fuel, 1nat, segs.len() - i,
{
    if i < segs.len() {
        match segs[i as int] {
            SegModel::Text(t) => {
                lemma_derive_rule_fuel(table, segs, i + 1, input, pos, fuel, more);
            },
            SegModel::Use(r) => {
                lemma_derive_section_fuel(table, r, input, pos, fuel, more);
                let (_, after) = derive_section(table, r, input, pos, fuel)->0;
                lemma_derive_rule_fuel(table, segs, i + 1, input, after, fuel, more);
            },
        }
    }
}

/// An input encoded within some fuel is encoded alike with more.
pub proof fn lemma_encode_from_fuel(
    table: Seq<SectionModel>,
    input: Seq<u8>,
    pos: nat,
    fuel: nat,
    more: nat,
)
    requires
        encode_from(table, input, pos, fuel) is Some,
        fuel <= more,
    ensures
        encode_from(table, input, pos, more) == encode_from(table, input, pos, fuel),
    decreases fuel,
{
    if !stream_ended(input, pos) {
        lemma_derive_section_fuel(table, 0, input, pos, fuel, more);
        let (_, after) = derive_section(table, 0, input, pos, fuel)->0;
        lemma_encode_from_fuel(table, input, after, (fuel - 1) as nat, (more - 1) as nat);
    }
}

/// The encoding is the same whatever bound it is computed within.
pub proof fn lemma_encode_text_any_fuel(table: Seq<SectionModel>, input: Seq<u8>, fuel: nat)
    requires
        encode_from(table, input, 0, fuel) is Some,
    ensures
        encodable(table, input),
        encode_from(table, input, 0, fuel) == Some((
            encode_text(table, input),
            encode_bits(table, input),
        )),
{
    let chosen = encode_fuel(table, input);
    if chosen <= fuel {
        lemma_encode_from_fuel(table, input, 0, chosen, fuel);
    } else {
        lemma_encode_from_fuel(table, input, 0, fuel, chosen);
    }
}

/// Appends the characters of `t` to `out`.
fn push_text(out: &mut String, t: &ShareStr)
    ensures
        final(out)@ == old(out)@ + t@,
{
    let n = t.len();
    let mut i: usize = 0;
    while i < n
        invariant
            i <= n == t@.len(),
            out@ == old(out)@ + t@.take(i as int),
        decreases n - i,
    {
        string_push(out, t.char_at(i));
        i += 1;
        assert(out@ =~= old(out)@ + t@.take(i as int));
    }
    assert(t@.take(n as int) == t@);
}

struct Encoder<'a> {
    input: BitReader<'a>,
    output: String,
}

impl<'a> Encoder<'a> {
    /// Derives a text from the section `sec`: picks a rule of the section
    /// by the bits read, writes the literal text of the rule and derives the
    /// sections it refers to, from left to right.
    ///
    /// With a `budget`, the derivation is given up, and `false` returned,
    /// where it nests deeper than the budget allows.
    fn encode(
        &mut self,
        map: &Vec<Section>,
        sec: usize,
        budget: Option<usize>,
        Ghost(fuel): Ghost<nat>,
    ) -> (done: bool)
        requires
            old(self).input.wf(),
            table_wf(table_view(map@)),
            sec < map@.len(),
            match budget {
                Some(limit) => fuel == limit,
                None => derive_section(
                    table_view(map@),
                    sec as nat,
                    old(self).input.input(),
                    old(self).input.position(),
                    fuel,
                ) is Some,
            },
        ensures
            final(self).input.wf(),
            final(self).input.input() == old(self).input.input(),
            match derive_section(
                table_view(map@),
                sec as nat,
                old(self).input.input(),
                old(self).input.position(),
                fuel,
            ) {
                Some((text, after)) => done && final(self).output@ == old(self).output@ + text
                    && final(self).input.position() == after,
                None => !done,
            },
        decreases fuel, 0nat, 0nat,
    {
        let ghost table = table_view(map@);
        let ghost input = self.input.input();
        let ghost start = self.input.position();
        let inner = match budget {
            Some(limit) => {
                if limit == 0 {
                    return false;
                }
                Some((limit - 1) as usize)
            },
            None => None,
        };
        let section = &map[sec];
        let ghost rules = table[sec as int].rules;
        let mut lo: usize = 0;
        let mut hi: usize = section.encoder.len();
        while hi - lo > 1
            invariant
                lo < hi <= section.encoder@.len(),
                rules.len() == section.encoder@.len(),
                self.input.wf(),
                self.input.input() == input,
                self.output@ == old(self).output@,
                choose_rule(input, self.input.position(), lo as nat, hi as nat) == choose_rule(
                    input,
                    start,
                    0,
                    rules.len(),
                ),
            decreases hi - lo,
        {
            let mid = lo + (hi - lo) / 2;
            if self.input.get() {
                lo = mid;
            } else {
                hi = mid;
            }
        }
        let rule = &section.encoder[lo];
        let ghost segs = rules[lo as int];
        let ghost goal = derive_section(table, sec as nat, input, start, fuel);
        let ghost mut acc = Seq::<char>::empty();
        assert(segs == rule_view(rule@));
        assert(old(self).output@ + acc =~= old(self).output@);
        proof {
            if let Some((rest, end)) = derive_rule(
                table,
                segs,
                0,
                input,
                self.input.position(),
                (fuel - 1) as nat,
            ) {
                assert(acc + rest =~= rest);
            }
        }
        let mut i: usize = 0;
        while i < rule.len()
            invariant
                i <= rule.len(),
                segs == rule_view(rule@),
                table == table_view(map@),
                table_wf(table),
                rules_in_range(rules, table.len()),
                0 <= lo < rules.len(),
                segs == rules[lo as int],
                fuel > 0,
                match inner {
                    Some(limit) => fuel - 1 == limit,
                    None => goal is Some,
                },
                self.input.wf(),
                self.input.input() == input,
                input == old(self).input.input(),
                self.output@ == old(self).output@ + acc,
                goal == derive_section(table, sec as nat, input, start, fuel),
                start == old(self).input.position(),
                goal == match derive_rule(
                    table,
                    segs,
                    i as nat,
                    input,
                    self.input.position(),
                    (fuel - 1) as nat,
                ) {
                    Some((rest, end)) => Some((acc + rest, end)),
                    None => None,
                },
            decreases rule.len() - i,
        {
            let ghost done = self.output@;
            let ghost pos = self.input.position();
            assert(segs[i as int] == rule@[i as int]@);
            match &rule[i] {
                Seg::Text(txt) => {
                    push_text(&mut self.output, txt);
                    proof {
                        if let Some((rest, end)) = derive_rule(
                            table,
                            segs,
                            (i + 1) as nat,
                            input,
                            pos,
                            (fuel - 1) as nat,
                        ) {
                            assert(acc + (txt@ + rest) =~= (acc + txt@) + rest);
                        }
                        assert(old(self).output@ + (acc + txt@) =~= (old(self).output@ + acc)
                            + txt@);
                        acc = acc + txt@;
                    }
                },
                Seg::Use(r) => {
                    assert(rules[lo as int][i as int] matches SegModel::Use(t) ==> t < table.len());
                    if !self.encode(map, *r as usize, inner, Ghost((fuel - 1) as nat)) {
                        return false;
                    }
                    proof {
                        let (text, after) = derive_section(
                            table,
                            *r as nat,
                            input,
                            pos,
                            (fuel - 1) as nat,
                        )->0;
                        if let Some((rest, end)) = derive_rule(
                            table,
                            segs,
                            (i + 1) as nat,
                            input,
                            after,
                            (fuel - 1) as nat,
                        ) {
                            assert(acc + (text + rest) =~= (acc + text) + rest);
                        }
                        assert(old(self).output@ + (acc + text) =~= (old(self).output@ + acc)
                            + text);
                        acc = acc + text;
                    }
                },
            }
            i += 1;
        }
        assert(acc + Seq::<char>::empty() =~= acc);
        true
    }
}

/// Encodes `input` as text that follows the grammar of `map`.
///
/// Texts are derived from the first section, one after the other, each with
/// the bits that the one before left, until the bits of `input` are used up
/// and a derivation has drawn from the end token; that derivation is
/// finished with the bits of the end token and, where they run out, with
/// filler bits.  Nothing is derived from an empty input.
///
/// The encoding must come to an end: it does with every table in which no
/// section leads back to itself and whose first section has more than one
/// rule.
pub fn encode(map: &Vec<Section>, input: &[u8]) -> (text: String)
    requires
        table_wf(table_view(map@)),
        encodable(table_view(map@), input@),
    ensures
        text@ == encode_text(table_view(map@), input@),
{
    let ghost table = table_view(map@);
    let ghost mut fuel = encode_fuel(table, input@);
    let mut encoder = Encoder { input: BitReader::new(input), output: String::new() };
    assert(Seq::<char>::empty() + encode_text(table, input@) =~= encode_text(table, input@));
    while !encoder.input.ended()
        invariant
            table == table_view(map@),
            table_wf(table),
            encoder.input.wf(),
            encoder.input.input() == input@,
            encode_from(table, input@, encoder.input.position(), fuel) matches Some((rest, end))
                && encoder.output@ + rest == encode_text(table, input@),
        decreases fuel,
    {
        let ghost done = encoder.output@;
        let ghost pos = encoder.input.position();
        encoder.encode(map, 0, None, Ghost(fuel));
        proof {
            let (text, after) = derive_section(table, 0, input@, pos, fuel)->0;
            let (rest, end) = encode_from(table, input@, after, (fuel - 1) as nat)->0;
            assert(done + (text + rest) =~= (done + text) + rest);
            fuel = (fuel - 1) as nat;
        }
    }
    assert(encoder.output@ + Seq::<char>::empty() =~= encoder.output@);
    encoder.output
}

/// Encodes `input` as [`encode`] does, within a bound: `None` where the
/// derivations, counted one for each derivation from the first section and
/// one for each section that the deepest of them is nested in, are more
/// than `limit`.
pub fn encode_within(map: &Vec<Section>, input: &[u8], limit: usize) -> (r: Option<String>)
    requires
        table_wf(table_view(map@)),
    ensures
        match encode_from(table_view(map@), input@, 0, limit as nat) {
            Some((text, _)) => r matches Some(s) && s@ == text,
            None => r is None,
        },
        r matches Some(s) ==> encodable(table_view(map@), input@) && s@ == encode_text(
            table_view(map@),
            input@,
        ),
{
    let ghost table = table_view(map@);
    let ghost goal = encode_from(table, input@, 0, limit as nat);
    let mut fuel = limit;
    let mut encoder = Encoder { input: BitReader::new(input), output: String::new() };
    let ghost mut acc = Seq::<char>::empty();
    proof {
        if let Some((rest, end)) = goal {
            assert(acc + rest =~= rest);
            lemma_encode_text_any_fuel(table, input@, limit as nat);
        }
    }
    while !encoder.input.ended()
        invariant
            table == table_view(map@),
            table_wf(table),
            encoder.input.wf(),
            encoder.input.input() == input@,
            encoder.output@ == acc,
            goal == encode_from(table, input@, 0, limit as nat),
            goal matches Some((text, _)) ==> encodable(table, input@) && text == encode_text(
                table,
                input@,
            ),
            goal == match encode_from(table, input@, encoder.input.position(), fuel as nat) {
                Some((rest, end)) => Some((acc + rest, end)),
                None => None,
            },
        decreases fuel,
    {
        let ghost pos = encoder.input.position();
        if fuel == 0 {
            return None;
        }
        if !encoder.encode(map, 0, Some(fuel), Ghost(fuel as nat)) {
            return None;
        }
        proof {
            let (text, after) = derive_section(table, 0, input@, pos, fuel as nat)->0;
            if let Some((rest, end)) = encode_from(table, input@, after, (fuel - 1) as nat) {
                assert(acc + (text + rest) =~= (acc + text) + rest);
            }
            acc = acc + text;
        }
        fuel -= 1;
    }
    assert(acc + Seq::<char>::empty() =~= acc);
    Some(encoder.output)
}

} // verus!

//! Decoding: reading a text by the automata of a table, and writing the bits
//! of the rules that were chosen.

use crate::share_str::{chars_of, string_of, ShareStr};
use crate::syntax::{
    find_key, layer_in_range, layer_kids_model, lemma_find_key, lemma_layers_in_range_index,
    rule_view, rules_in_range, table_view, table_wf,
    Layer, LayerModel, Section, SectionModel, Seg, SegModel,
};
use bits::{bytes_of_bits, strip_filler, BitWriter};
use vstd::prelude::*;

pub mod bits;

verus! {

/// What is wrong with a text that cannot be decoded.
#[derive(Clone, Copy, Debug, PartialEq, Eq, Structural)]
pub enum DecodeErrorKind {
    /// A character with which no rule of the section goes on.
    UnexpectedChar,
    /// The text ends where more characters are needed to tell the rule.
    UnexpectedEnd,
    /// The text does not go on with the literal text of the rule.
    TextMismatch,
}

/// Model of a failure to decode: what is wrong, and at which character.
pub struct DecodeFailure {
    pub kind: DecodeErrorKind,
    pub position: nat,
}

/// A text that cannot be decoded: what is wrong, at which character, and a
/// short excerpt of the text at the error.
#[derive(Debug)]
pub struct DecodeError {
    pub kind: DecodeErrorKind,
    pub position: usize,
    /// The text that follows the error, cut after eleven characters.
    pub excerpt: String,
    /// Whether the text goes on after the excerpt.
    pub omitted: bool,
}

/// Where the excerpt of a failure begins: after an unexpected character, at
/// the place of any other error.
pub open spec fn excerpt_start(failure: DecodeFailure) -> nat {
    if failure.kind == DecodeErrorKind::UnexpectedChar {
        failure.position + 1
    } else {
        failure.position
    }
}

/// Where an excerpt that begins at `start` ends: the whole rest of the text
/// where that has at most `chars + 1` characters, and `chars + 1` characters
/// of it otherwise.
pub open spec fn excerpt_end(text: Seq<char>, start: nat, chars: nat) -> nat {
    if start + chars + 1 < text.len() {
        start + chars + 1
    } else if start <= text.len() {
        text.len()
    } else {
        start
    }
}

/// The error that reports `failure` in `text`.
pub open spec fn error_matches(e: DecodeError, text: Seq<char>, failure: DecodeFailure) -> bool {
    let start = excerpt_start(failure);
    let end = excerpt_end(text, start, 10);
    &&& e.kind == failure.kind
    &&& e.position == failure.position
    &&& e.excerpt@ == text.subrange(start as int, end as int)
    &&& e.omitted == (end < text.len())
}

/// The rule that the automaton `l` tells from the text at `pos`.
///
/// At a branch the next character picks the child to go on with; the text
/// must have such a character, and the branch a child for it.
pub open spec fn match_layer(l: LayerModel, text: Seq<char>, pos: nat) -> Result<nat, DecodeFailure>
    decreases l,
{
    match l {
        LayerModel::Certain(rule) => Ok(rule),
        LayerModel::Branch(kids) => if pos >= text.len() {
            Err(DecodeFailure { kind: DecodeErrorKind::UnexpectedEnd, position: pos })
        } else {
            match find_key(kids, text[pos as int], 0) {
                None => Err(DecodeFailure { kind: DecodeErrorKind::UnexpectedChar, position: pos }),
                Some(k) => {
                    proof {
                        lemma_find_key(kids, text[pos as int], 0);
                    }
                    match_layer(kids[k].1, text, pos + 1)
                },
            }
        },
    }
}

/// The bits that pick the rule `rule` among `lo..hi`: one bit for each
/// halving of the range, 0 for the lower half and 1 for the upper.
pub open spec fn rule_bits(rule: nat, lo: nat, hi: nat) -> Seq<bool>
    decreases hi - lo,
{
    if hi <= lo + 1 {
        Seq::empty()
    } else {
        let mid = (lo + (hi - lo) / 2) as nat;
        if rule < mid {
            seq![false] + rule_bits(rule, lo, mid)
        } else {
            seq![true] + rule_bits(rule, mid, hi)
        }
    }
}

/// How the reading of a text can end.
pub enum Parse {
    /// The bits recovered, and the place in the text after what was read.
    Done(Seq<bool>, nat),
    /// The text does not follow the grammar.
    Fail(DecodeFailure),
    /// The reading nests deeper, or goes on longer, than allowed.
    OutOfFuel,
}

/// The reading of one derivation of the section `sec` from the text at
/// `pos`: the automaton of the section tells the rule, the bits that pick
/// that rule are recovered, and the text is read along the rule.
pub open spec fn parse_section(
    table: Seq<SectionModel>,
    sec: nat,
    text: Seq<char>,
    pos: nat,
    fuel: nat,
) -> Parse
    decreases fuel, 0nat, 0nat,
{
    if fuel == 0 {
        Parse::OutOfFuel
    } else {
        match match_layer(table[sec as int].decoder, text, pos) {
            Err(failure) => Parse::Fail(failure),
            Ok(rule) => match parse_rule(
                table,
                table[sec as int].rules[rule as int],
                0,
                text,
                pos,
                (fuel - 1) as nat,
            ) {
                Parse::Done(bits, end) => Parse::Done(
                    rule_bits(rule, 0, table[sec as int].rules.len()) + bits,
                    end,
                ),
                other => other,
            },
        }
    }
}

/// The reading of the text at `pos` along the segments `segs[i..]`: literal
/// text must stand in the text as it is, and a reference is read as a
/// derivation of its section.
pub open spec fn parse_rule(
    table: Seq<SectionModel>,
    segs: Seq<SegModel>,
    i: nat,
    text: Seq<char>,
    pos: nat,
    fuel: nat,
) -> Parse
    decreases fuel, 1nat, segs.len() - i,
{
    if i >= segs.len() {
        Parse::Done(Seq::empty(), pos)
    } else {
        match segs[i as int] {
            SegModel::Text(t) => if pos + t.len() <= text.len() && text.subrange(
                pos as int,
                (pos + t.len()) as int,
            ) == t {
                parse_rule(table, segs, i + 1, text, pos + t.len(), fuel)
            } else {
                Parse::Fail(DecodeFailure { kind: DecodeErrorKind::TextMismatch, position: pos })
            },
            SegModel::Use(r) => match parse_section(table, r, text, pos, fuel) {
                Parse::Done(bits, after) => match parse_rule(table, segs, i + 1, text, after, fuel) {
                    Parse::Done(rest, end) => Parse::Done(bits + rest, end),
                    other => other,
                },
                other => other,
            },
        }
    }
}

/// The reading of derivations of the first section, one after the other,
/// from `pos` to the end of the text.
pub open spec fn decode_from(table: Seq<SectionModel>, text: Seq<char>, pos: nat, fuel: nat) -> Parse
    decreases fuel,
{
    if pos >= text.len() {
        Parse::Done(Seq::empty(), pos)
    } else if fuel == 0 {
        Parse::OutOfFuel
    } else {
        match parse_section(table, 0, text, pos, fuel) {
            Parse::Done(bits, after) => match decode_from(table, text, after, (fuel - 1) as nat) {
                Parse::Done(rest, end) => Parse::Done(bits + rest, end),
                other => other,
            },
            other => other,
        }
    }
}

/// Whether the decoding of `text` comes to an end.
pub open spec fn decodable(table: Seq<SectionModel>, text: Seq<char>) -> bool {
    exists|fuel: nat| !(decode_from(table, text, 0, fuel) is OutOfFuel)
}

/// A bound on nesting and repetition within which `text` is decoded.
pub open spec fn decode_fuel(table: Seq<SectionModel>, text: Seq<char>) -> nat {
    choose|fuel: nat| !(decode_from(table, text, 0, fuel) is OutOfFuel)
}

/// The bytes that `text` decodes to, or why it does not decode.
pub open spec fn decode_result(table: Seq<SectionModel>, text: Seq<char>) -> Result<
    Seq<u8>,
    DecodeFailure,
> {
    match decode_from(table, text, 0, decode_fuel(table, text)) {
        Parse::Done(bits, _) => Ok(strip_filler(bytes_of_bits(bits))),
        Parse::Fail(failure) => Err(failure),
        Parse::OutOfFuel => Ok(Seq::empty()),
    }
}

/// A section parsed within some fuel parses alike with more.
pub proof fn lemma_parse_section_fuel(
    table: Seq<SectionModel>,
    sec: nat,
    text: Seq<char>,
    pos: nat,
    fuel: nat,
    more: nat,
)
    requires
        !(parse_section(table, sec, text, pos, fuel) is OutOfFuel),
        fuel <= more,
    ensures
        parse_section(table, sec, text, pos, more) == parse_section(table, sec, text, pos, fuel),
    decreases fuel, 0nat, 0nat,
{
    if let Ok(rule) = match_layer(table[sec as int].decoder, text, pos) {
        lemma_parse_rule_fuel(
            table,
            table[sec as int].rules[rule as int],
            0,
            text,
            pos,
            (fuel - 1) as nat,
            (more - 1) as nat,
        );
    }
}

/// A rule parsed within some fuel parses alike with more.
pub proof fn lemma_parse_rule_fuel(
    table: Seq<SectionModel>,
    segs: Seq<SegModel>,
    i: nat,
    text: Seq<char>,
    pos: nat,
    fuel: nat,
    more: nat,
)
    requires
        !(parse_rule(table, segs, i, text, pos, fuel) is OutOfFuel),
        fuel <= more,
    ensures
        parse_rule(table, segs, i, text, pos, more) == parse_rule(table, segs, i, text, pos, fuel),
    decreases fuel, 1nat, segs.len() - i,
{
    if i < segs.len() {
        match segs[i as int] {
            SegModel::Text(t) => {
                if pos + t.len() <= text.len() && text.subrange(
                    pos as int,
                    (pos + t.len()) as int,
                ) == t {
                    lemma_parse_rule_fuel(table, segs, i + 1, text, pos + t.len(), fuel, more);
                }
            },
            SegModel::Use(r) => {
                lemma_parse_section_fuel(table, r, text, pos, fuel, more);
                if let Parse::Done(bits, after) = parse_section(table, r, text, pos, fuel) {
                    lemma_parse_rule_fuel(table, segs, i + 1, text, after, fuel, more);
                }
            },
        }
    }
}

/// A text decoded within some fuel decodes alike with more.
pub proof fn lemma_decode_from_fuel(
    table: Seq<SectionModel>,
    text: Seq<char>,
    pos: nat,
    fuel: nat,
    more: nat,
)
    requires
        !(decode_from(table, text, pos, fuel) is OutOfFuel),
        fuel <= more,
    ensures
        decode_from(table, text, pos, more) == decode_from(table, text, pos, fuel),
    decreases fuel,
{
    if pos < text.len() {
        lemma_parse_section_fuel(table, 0, text, pos, fuel, more);
        if let Parse::Done(bits, after) = parse_section(table, 0, text, pos, fuel) {
            lemma_decode_from_fuel(table, text, after, (fuel - 1) as nat, (more - 1) as nat);
        }
    }
}

/// The decoding is the same whatever bound it is computed within.
pub proof fn lemma_decode_any_fuel(table: Seq<SectionModel>, text: Seq<char>, fuel: nat)
    requires
        !(decode_from(table, text, 0, fuel) is OutOfFuel),
    ensures
        decodable(table, text),
        decode_from(table, text, 0, fuel) == decode_from(table, text, 0, decode_fuel(table, text)),
{
    let chosen = decode_fuel(table, text);
    if chosen <= fuel {
        lemma_decode_from_fuel(table, text, 0, chosen, fuel);
    } else {
        lemma_decode_from_fuel(table, text, 0, fuel, chosen);
    }
}

/// Where the excerpt of `s` that begins at `start` ends, and whether text
/// is left after it: the excerpt holds `chars + 1` characters where at
/// least one more follows them, and the whole rest of `s` otherwise.
pub fn truncate_str_after_chars(s: &Vec<char>, start: usize, chars: usize) -> (r: (usize, bool))
    requires
        start <= s@.len(),
    ensures
        r.0 == excerpt_end(s@, start as nat, chars as nat),
        start <= r.0 <= s@.len(),
        r.1 == (r.0 < s@.len()),
{
    let rest = s.len() - start;
    if rest >= 2 && chars < rest - 1 {
        (start + chars + 1, true)
    } else {
        (s.len(), false)
    }
}

/// The index of the first child under the key `c`.
fn find_layer(kids: &Vec<(char, Layer)>, c: char) -> (r: Option<usize>)
    ensures
        match r {
            Some(i) => find_key(layer_kids_model(kids@), c, 0) == Some(i as int) && i < kids.len(),
            None => find_key(layer_kids_model(kids@), c, 0) is None,
        },
{
    let ghost model = layer_kids_model(kids@);
    let mut i: usize = 0;
    while i < kids.len()
        invariant
            i <= kids.len(),
            model == layer_kids_model(kids@),
            find_key(model, c, 0) == find_key(model, c, i as int),
        decreases kids.len() - i,
    {
        assert(model[i as int].0 == kids@[i as int].0);
        assert(find_key(model, c, i as int) == if model[i as int].0 == c {
            Some(i as int)
        } else {
            find_key(model, c, i + 1)
        });
        if kids[i].0 == c {
            return Some(i);
        }
        i += 1;
    }
    None
}

/// How the reading of one derivation ended.
enum Step {
    Done,
    Failed(DecodeError),
    Exhausted,
}

struct Decoder<'a> {
    input: &'a Vec<char>,
    pos: usize,
    output: BitWriter,
}

impl<'a> Decoder<'a> {
    spec fn wf(&self) -> bool {
        self.pos <= self.input@.len() && self.output.wf()
    }

    /// Reads one derivation of the section `sec` from the text: tells the
    /// rule from the text ahead, recovers the bits that pick it, and reads
    /// the text along the rule.
    ///
    /// With a `budget`, the reading is given up where it nests deeper than
    /// the budget allows.
    fn decode(
        &mut self,
        map: &Vec<Section>,
        sec: usize,
        budget: Option<usize>,
        Ghost(fuel): Ghost<nat>,
    ) -> (r: Step)
        requires
            old(self).wf(),
            table_wf(table_view(map@)),
            sec < map@.len(),
            match budget {
                Some(limit) => fuel == limit,
                None => !(parse_section(
                    table_view(map@),
                    sec as nat,
                    old(self).input@,
                    old(self).pos as nat,
                    fuel,
                ) is OutOfFuel),
            },
        ensures
            final(self).input == old(self).input,
            match parse_section(
                table_view(map@),
                sec as nat,
                old(self).input@,
                old(self).pos as nat,
                fuel,
            ) {
                Parse::Done(bits, end) => r is Done && final(self).wf() && final(self).output@
                    == old(self).output@ + bits && final(self).pos == end,
                Parse::Fail(failure) => (r matches Step::Failed(e) && error_matches(
                    e,
                    old(self).input@,
                    failure,
                )),
                Parse::OutOfFuel => r is Exhausted,
            },
        decreases fuel, 0nat, 0nat,
    {
        let ghost table = table_view(map@);
        let ghost text = self.input@;
        let ghost start = self.pos as nat;
        let ghost before = self.output@;
        let inner = match budget {
            Some(limit) => {
                if limit == 0 {
                    return Step::Exhausted;
                }
                Some((limit - 1) as usize)
            },
            None => None,
        };
        let section = &map[sec];
        let ghost rules = table[sec as int].rules;
        let nth_rule = match self.match_index(section) {
            Ok(rule) => rule,
            Err(e) => {
                return Step::Failed(e);
            },
        };
        proof {
            lemma_match_layer_in_range(table[sec as int].decoder, text, start, rules.len());
        }
        self.write_msg(nth_rule, section.encoder.len());
        let rule = &section.encoder[nth_rule];
        let ghost segs = rules[nth_rule as int];
        let ghost head = rule_bits(nth_rule as nat, 0, rules.len());
        let ghost base = before + head;
        let ghost goal = parse_rule(table, segs, 0, text, start, (fuel - 1) as nat);
        let ghost mut acc = Seq::<bool>::empty();
        assert(segs == rule_view(rule@));
        assert(base + acc =~= base);
        assert(acc + goal->Done_0 =~= goal->Done_0);
        let mut i: usize = 0;
        while i < rule.len()
            invariant
                i <= rule.len(),
                segs == rule_view(rule@),
                table == table_view(map@),
                table_wf(table),
                sec < table.len(),
                rules == table[sec as int].rules,
                rules_in_range(rules, table.len()),
                0 <= nth_rule < rules.len(),
                segs == rules[nth_rule as int],
                fuel > 0,
                match inner {
                    Some(limit) => fuel - 1 == limit,
                    None => !(goal is OutOfFuel),
                },
                self.wf(),
                self.input == old(self).input,
                text == self.input@,
                self.output@ == base + acc,
                start == old(self).pos,
                text == old(self).input@,
                parse_section(table, sec as nat, text, start, fuel) == (match goal {
                    Parse::Done(bits, end) => Parse::Done(head + bits, end),
                    other => other,
                }),
                goal == match parse_rule(
                    table,
                    segs,
                    i as nat,
                    text,
                    self.pos as nat,
                    (fuel - 1) as nat,
                ) {
                    Parse::Done(rest, end) => Parse::Done(acc + rest, end),
                    other => other,
                },
            decreases rule.len() - i,
        {
            let ghost pos = self.pos as nat;
            assert(segs[i as int] == rule@[i as int]@);
            match &rule[i] {
                Seg::Text(txt) => {
                    if self.input_starts_with(txt) {
                        let len = self.input.len();
                        self.pos = self.pos + txt.len();
                    } else {
                        return Step::Failed(self.error(DecodeErrorKind::TextMismatch, self.pos));
                    }
                },
                Seg::Use(r) => {
                    assert(rules[nth_rule as int][i as int] matches SegModel::Use(t) ==> t
                        < table.len());
                    match self.decode(map, *r as usize, inner, Ghost((fuel - 1) as nat)) {
                        Step::Done => {},
                        other => {
                            return other;
                        },
                    }
                    proof {
                        if let Parse::Done(bits, after) = parse_section(
                            table,
                            *r as nat,
                            text,
                            pos,
                            (fuel - 1) as nat,
                        ) {
                            if let Parse::Done(rest, end) = parse_rule(
                                table,
                                segs,
                                (i + 1) as nat,
                                text,
                                after,
                                (fuel - 1) as nat,
                            ) {
                                assert(acc + (bits + rest) =~= (acc + bits) + rest);
                            }
                            assert(base + (acc + bits) =~= (base + acc) + bits);
                            acc = acc + bits;
                        }
                    }
                },
            }
            i += 1;
        }
        proof {
            assert(acc + Seq::<bool>::empty() =~= acc);
            assert((before + head) + acc =~= before + (head + acc));
        }
        Step::Done
    }

    /// Whether the text goes on with the characters of `t`.
    fn input_starts_with(&self, t: &ShareStr) -> (b: bool)
        requires
            self.pos <= self.input@.len(),
        ensures
            b == (self.pos + t@.len() <= self.input@.len() && self.input@.subrange(
                self.pos as int,
                (self.pos + t@.len()) as int,
            ) == t@),
    {
        let n = t.len();
        let len = self.input.len();
        if n > len - self.pos {
            return false;
        }
        let mut i: usize = 0;
        while i < n
            invariant
                i <= n == t@.len(),
                self.pos + n <= self.input@.len() == len,
                forall|j: int| 0 <= j < i ==> self.input@[self.pos + j] == t@[j],
            decreases n - i,
        {
            if self.input[self.pos + i] != t.char_at(i) {
                assert(self.input@.subrange(self.pos as int, (self.pos + n) as int)[i as int]
                    != t@[i as int]);
                return false;
            }
            i += 1;
        }
        assert(self.input@.subrange(self.pos as int, (self.pos + n) as int) =~= t@);
        true
    }

    /// The rule that the automaton of `section` tells from the text ahead.
    fn match_index(&self, section: &Section) -> (r: Result<usize, DecodeError>)
        requires
            self.pos <= self.input@.len(),
        ensures
            match match_layer(section@.decoder, self.input@, self.pos as nat) {
                Ok(rule) => r == Ok::<usize, DecodeError>(rule as usize) && rule <= u32::MAX,
                Err(failure) => (r matches Err(e) && error_matches(e, self.input@, failure)),
            },
    {
        let mut layer = &section.decoder;
        let mut at = self.pos;
        loop
            invariant
                self.pos <= at <= self.input@.len(),
                match_layer(layer@, self.input@, at as nat) == match_layer(
                    section@.decoder,
                    self.input@,
                    self.pos as nat,
                ),
            decreases self.input@.len() - at,
        {
            match layer {
                Layer::Certain(c) => {
                    return Ok(*c as usize);
                },
                Layer::Branch(b) => {
                    if at >= self.input.len() {
                        return Err(self.error(DecodeErrorKind::UnexpectedEnd, at));
                    }
                    let ch = self.input[at];
                    match find_layer(b, ch) {
                        None => {
                            return Err(self.error(DecodeErrorKind::UnexpectedChar, at));
                        },
                        Some(k) => {
                            proof {
                                lemma_find_key(layer_kids_model(b@), ch, 0);
                            }
                            layer = &b[k].1;
                            at += 1;
                        },
                    }
                },
            }
        }
    }

    /// The error for a failure of kind `kind` at the character `position`.
    fn error(&self, kind: DecodeErrorKind, position: usize) -> (e: DecodeError)
        requires
            position <= self.input@.len(),
            kind == DecodeErrorKind::UnexpectedChar ==> position < self.input@.len(),
        ensures
            error_matches(e, self.input@, DecodeFailure { kind, position: position as nat }),
    {
        let len = self.input.len();
        let start = match kind {
            DecodeErrorKind::UnexpectedChar => position + 1,
            _ => position,
        };
        let (end, omitted) = truncate_str_after_chars(self.input, start, 10);
        DecodeError { kind, position, excerpt: string_of(self.input, start, end), omitted }
    }

    /// Writes the bits that pick the rule `msg` among `total` rules.
    fn write_msg(&mut self, msg: usize, total: usize)
        requires
            old(self).wf(),
            msg < total,
        ensures
            final(self).wf(),
            final(self).input == old(self).input,
            final(self).pos == old(self).pos,
            final(self).output@ == old(self).output@ + rule_bits(msg as nat, 0, total as nat),
    {
        let ghost before = self.output@;
        let ghost goal = rule_bits(msg as nat, 0, total as nat);
        let mut start: usize = 0;
        let mut end: usize = total;
        assert(before + goal =~= before + goal);
        while end - start > 1
            invariant
                start <= msg < end <= total,
                self.wf(),
                self.input == old(self).input,
                self.pos == old(self).pos,
                self.output@ + rule_bits(msg as nat, start as nat, end as nat) == before + goal,
            decreases end - start,
        {
            let mid = start + (end - start) / 2;
            let ghost done = self.output@;
            if msg < mid {
                self.output.write(false);
                proof {
                    let rest = rule_bits(msg as nat, start as nat, mid as nat);
                    assert(done.push(false) + rest =~= done + (seq![false] + rest));
                }
                end = mid;
            } else {
                self.output.write(true);
                proof {
                    let rest = rule_bits(msg as nat, mid as nat, end as nat);
                    assert(done.push(true) + rest =~= done + (seq![true] + rest));
                }
                start = mid;
            }
        }
        assert(self.output@ + Seq::<bool>::empty() =~= self.output@);
    }

    /// Whether the text is read to its end.
    fn ended(&self) -> (b: bool)
        requires
            self.pos <= self.input@.len(),
        ensures
            b == (self.pos >= self.input@.len()),
    {
        self.pos >= self.input.len()
    }

    /// The bytes recovered.
    fn finish(self) -> (bytes: Vec<u8>)
        requires
            self.wf(),
        ensures
            bytes@ == strip_filler(bytes_of_bits(self.output@)),
    {
        self.output.finish()
    }
}

/// The rule that an automaton tells is one that the automaton holds.
pub proof fn lemma_match_layer_in_range(l: LayerModel, text: Seq<char>, pos: nat, n: nat)
    requires
        layer_in_range(l, n),
    ensures
        match_layer(l, text, pos) matches Ok(rule) ==> rule < n,
    decreases l,
{
    if let LayerModel::Branch(kids) = l {
        if pos < text.len() {
            if let Some(k) = find_key(kids, text[pos as int], 0) {
                lemma_find_key(kids, text[pos as int], 0);
                lemma_layers_in_range_index(kids, kids.len(), n, k);
                lemma_match_layer_in_range(kids[k].1, text, pos + 1, n);
            }
        }
    }
}

/// Decodes the text `s`, which follows the grammar of `map`, to the bytes
/// that it encodes.
///
/// Derivations of the first section are read from the text, one after the
/// other, up to its end; each gives back the bits that picked its rules.
/// The bits are gathered into bytes, and the bytes from the end token on are
/// dropped.
///
/// The decoding must come to an end: it does with every table that was
/// compiled from a grammar.
pub fn decode(map: &Vec<Section>, s: &str) -> (r: Result<Vec<u8>, DecodeError>)
    requires
        table_wf(table_view(map@)),
        decodable(table_view(map@), s@),
    ensures
        match decode_result(table_view(map@), s@) {
            Ok(bytes) => (r matches Ok(v) && v@ == bytes),
            Err(failure) => (r matches Err(e) && error_matches(e, s@, failure)),
        },
{
    let ghost table = table_view(map@);
    let ghost mut fuel = decode_fuel(table, s@);
    let ghost goal = decode_from(table, s@, 0, fuel);
    let input = chars_of(s);
    let mut decoder = Decoder { input: &input, pos: 0, output: BitWriter::new() };
    while !decoder.ended()
        invariant
            table == table_view(map@),
            table_wf(table),
            decoder.wf(),
            decoder.input@ == s@,
            !(goal is OutOfFuel),
            goal == decode_from(table, s@, 0, decode_fuel(table, s@)),
            match decode_from(table, s@, decoder.pos as nat, fuel) {
                Parse::Done(rest, end) => goal == Parse::Done(decoder.output@ + rest, end),
                other => goal == other,
            },
        decreases fuel,
    {
        let ghost done = decoder.output@;
        let ghost pos = decoder.pos as nat;
        match decoder.decode(map, 0, None, Ghost(fuel)) {
            Step::Failed(e) => {
                return Err(e);
            },
            _ => {},
        }
        proof {
            if let Parse::Done(bits, after) = parse_section(table, 0, s@, pos, fuel) {
                if let Parse::Done(rest, end) = decode_from(table, s@, after, (fuel - 1) as nat) {
                    assert(done + (bits + rest) =~= (done + bits) + rest);
                }
            }
            fuel = (fuel - 1) as nat;
        }
    }
    assert(decoder.output@ + Seq::<bool>::empty() =~= decoder.output@);
    Ok(decoder.finish())
}

/// Decodes the text `s` as [`decode`] does, within a bound: `None` where
/// the derivations, counted one for each derivation of the first section and
/// one for each section that the deepest of them is nested in, are more
/// than `limit`.
pub fn decode_within(map: &Vec<Section>, s: &str, limit: usize) -> (r: Option<
    Result<Vec<u8>, DecodeError>,
>)
    requires
        table_wf(table_view(map@)),
    ensures
        match decode_from(table_view(map@), s@, 0, limit as nat) {
            Parse::Done(bits, _) => r matches Some(Ok(v)) && v@ == strip_filler(
                bytes_of_bits(bits),
            ),
            Parse::Fail(failure) => (r matches Some(Err(e)) && error_matches(e, s@, failure)),
            Parse::OutOfFuel => r is None,
        },
        r is Some ==> decodable(table_view(map@), s@),
        r matches Some(Ok(v)) ==> decode_result(table_view(map@), s@) == Ok::<
            Seq<u8>,
            DecodeFailure,
        >(v@),
        r matches Some(Err(e)) ==> decode_result(table_view(map@), s@) is Err && error_matches(
            e,
            s@,
            decode_result(table_view(map@), s@)->Err_0,
        ),
{
    let ghost table = table_view(map@);
    let ghost goal = decode_from(table, s@, 0, limit as nat);
    proof {
        if !(goal is OutOfFuel) {
            lemma_decode_any_fuel(table, s@, limit as nat);
        }
    }
    let mut fuel = limit;
    let input = chars_of(s);
    let mut decoder = Decoder { input: &input, pos: 0, output: BitWriter::new() };
    while !decoder.ended()
        invariant
            table == table_view(map@),
            table_wf(table),
            decoder.wf(),
            decoder.input@ == s@,
            goal == decode_from(table, s@, 0, limit as nat),
            !(goal is OutOfFuel) ==> decodable(table, s@) && goal == decode_from(
                table,
                s@,
                0,
                decode_fuel(table, s@),
            ),
            match decode_from(table, s@, decoder.pos as nat, fuel as nat) {
                Parse::Done(rest, end) => goal == Parse::Done(decoder.output@ + rest, end),
                other => goal == other,
            },
        decreases fuel,
    {
        let ghost done = decoder.output@;
        let ghost pos = decoder.pos as nat;
        if fuel == 0 {
            return None;
        }
        match decoder.decode(map, 0, Some(fuel), Ghost(fuel as nat)) {
            Step::Done => {},
            Step::Failed(e) => {
                return Some(Err(e));
            },
            Step::Exhausted => {
                return None;
            },
        }
        proof {
            if let Parse::Done(bits, after) = parse_section(table, 0, s@, pos, fuel as nat) {
                if let Parse::Done(rest, end) = decode_from(table, s@, after, (fuel - 1) as nat) {
                    assert(done + (bits + rest) =~= (done + bits) + rest);
                }
            }
        }
        fuel -= 1;
    }
    assert(decoder.output@ + Seq::<bool>::empty() =~= decoder.output@);
    Some(Ok(decoder.finish()))
}

} // verus!

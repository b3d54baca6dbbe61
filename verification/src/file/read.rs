//! Reading a stored table back.

use super::write::{varint_bytes, VARINT_LIMIT};
use crate::share_str::ShareStr;
use crate::syntax::{
    find_key, layer_kids_model, rule_view, rules_view, table_view, Layer, LayerModel, Section,
    SectionModel, Seg, SegModel,
};
use bytes::Buf;
use vstd::prelude::*;
use vstd::slice::slice_subrange;
use vstd::utf8::{decode_utf8, encode_utf8, valid_utf8};

verus! {

/// The variable-length integer that begins at `pos`, and the place after
/// it; `None` where the bytes end before the integer does.
pub open spec fn parse_varint(bytes: Seq<u8>, pos: int) -> Option<(nat, int)> {
    if pos < 0 || pos >= bytes.len() {
        None
    } else {
        let header = bytes[pos] as nat;
        let used = header / 0x40 + 1;
        if pos + used > bytes.len() {
            None
        } else {
            let top = header % 0x40;
            let value = if used == 1 {
                top
            } else if used == 2 {
                top * 0x100 + bytes[pos + 1] as nat
            } else if used == 3 {
                top * 0x1_0000 + bytes[pos + 1] as nat * 0x100 + bytes[pos + 2] as nat
            } else {
                top * 0x100_0000 + bytes[pos + 1] as nat * 0x1_0000 + bytes[pos + 2] as nat
                    * 0x100 + bytes[pos + 3] as nat
            };
            Some((value, pos + used))
        }
    }
}

/// A number that was read is below the limit, and at least one byte was
/// read for it.
pub proof fn lemma_parse_varint(bytes: Seq<u8>, pos: int)
    ensures
        parse_varint(bytes, pos) matches Some((value, end)) ==> value < VARINT_LIMIT && pos < end
            <= bytes.len(),
{
}

/// A number written as a variable-length integer is read back as it was,
/// whatever follows it.
pub proof fn lemma_varint_round_trip(v: nat, rest: Seq<u8>)
    requires
        v < VARINT_LIMIT,
    ensures
        parse_varint(varint_bytes(v) + rest, 0) == Some((v, varint_bytes(v).len() as int)),
{
    let bytes = varint_bytes(v) + rest;
    if v < 0x40 {
        assert(bytes[0] == v as u8);
    } else if v < 0x4000 {
        assert(bytes[0] == (0x40 + v / 0x100) as u8);
        assert(bytes[1] == (v % 0x100) as u8);
    } else if v < 0x40_0000 {
        assert(bytes[0] == (0x80 + v / 0x1_0000) as u8);
        assert(bytes[1] == (v / 0x100 % 0x100) as u8);
        assert(bytes[2] == (v % 0x100) as u8);
    } else {
        assert(bytes[0] == (0xC0 + v / 0x100_0000) as u8);
        assert(bytes[1] == (v / 0x1_0000 % 0x100) as u8);
        assert(bytes[2] == (v / 0x100 % 0x100) as u8);
        assert(bytes[3] == (v % 0x100) as u8);
    }
}

/// The valid code point `u` as a character.
pub open spec fn char_of(u: nat) -> Option<char> {
    if u <= 0xD7FF || 0xE000 <= u <= 0x10FFFF {
        Some(u as u32 as char)
    } else {
        None
    }
}

/// The segment that begins at `pos`, and the place after it.
pub open spec fn parse_seg(bytes: Seq<u8>, pos: int) -> Option<(SegModel, int)> {
    if pos < 0 || pos >= bytes.len() {
        None
    } else if bytes[pos] == 0 {
        match parse_varint(bytes, pos + 1) {
            None => None,
            Some((len, start)) => {
                let text = bytes.subrange(start, start + len);
                if start + len <= bytes.len() && valid_utf8(text) {
                    Some((SegModel::Text(decode_utf8(text)), start + len))
                } else {
                    None
                }
            },
        }
    } else if bytes[pos] == 1 {
        match parse_varint(bytes, pos + 1) {
            None => None,
            Some((id, end)) => Some((SegModel::Use(id), end)),
        }
    } else {
        None
    }
}

/// The `count` segments that follow one another from `pos` on.
pub open spec fn parse_segs(bytes: Seq<u8>, pos: int, count: nat) -> Option<(Seq<SegModel>, int)>
    decreases count,
{
    if count == 0 {
        Some((Seq::empty(), pos))
    } else {
        match parse_seg(bytes, pos) {
            None => None,
            Some((seg, after)) => match parse_segs(bytes, after, (count - 1) as nat) {
                None => None,
                Some((rest, end)) => Some((seq![seg] + rest, end)),
            },
        }
    }
}

/// The `count` rules that follow one another from `pos` on.
pub open spec fn parse_rules(bytes: Seq<u8>, pos: int, count: nat) -> Option<
    (Seq<Seq<SegModel>>, int),
>
    decreases count,
{
    if count == 0 {
        Some((Seq::empty(), pos))
    } else {
        match parse_varint(bytes, pos) {
            None => None,
            Some((len, start)) => match parse_segs(bytes, start, len) {
                None => None,
                Some((rule, after)) => match parse_rules(bytes, after, (count - 1) as nat) {
                    None => None,
                    Some((rest, end)) => Some((seq![rule] + rest, end)),
                },
            },
        }
    }
}

/// The automaton that begins at `pos`, and the place after it.
pub open spec fn parse_layer(bytes: Seq<u8>, pos: int) -> Option<(LayerModel, int)>
    decreases bytes.len() - pos, 0nat,
{
    if pos < 0 || pos >= bytes.len() {
        None
    } else if bytes[pos] == 0 {
        match parse_varint(bytes, pos + 1) {
            None => None,
            Some((rule, end)) => Some((LayerModel::Certain(rule), end)),
        }
    } else if bytes[pos] == 1 {
        match parse_varint(bytes, pos + 1) {
            None => None,
            Some((count, start)) => {
                proof {
                    lemma_parse_varint(bytes, pos + 1);
                }
                match parse_kids(bytes, start, count, Seq::empty()) {
                    None => None,
                    Some((kids, end)) => Some((LayerModel::Branch(kids), end)),
                }
            },
        }
    } else {
        None
    }
}

/// The `count` children that follow `done` from `pos` on, each a code
/// point and an automaton; no key may come twice.
pub open spec fn parse_kids(
    bytes: Seq<u8>,
    pos: int,
    count: nat,
    done: Seq<(char, LayerModel)>,
) -> Option<(Seq<(char, LayerModel)>, int)>
    decreases bytes.len() - pos, count + 1,
{
    if count == 0 {
        Some((done, pos))
    } else {
        match parse_varint(bytes, pos) {
            None => None,
            Some((code, start)) => match char_of(code) {
                None => None,
                Some(key) => {
                    proof {
                        lemma_parse_varint(bytes, pos);
                    }
                    match parse_layer(bytes, start) {
                        None => None,
                        Some((kid, after)) => if find_key(done, key, 0) is Some || after <= pos
                            || after > bytes.len() {
                            None
                        } else {
                            parse_kids(bytes, after, (count - 1) as nat, done.push((key, kid)))
                        },
                    }
                },
            },
        }
    }
}

/// The `count` sections that follow one another from `pos` on.
pub open spec fn parse_sections(bytes: Seq<u8>, pos: int, count: nat) -> Option<
    (Seq<SectionModel>, int),
>
    decreases count,
{
    if count == 0 {
        Some((Seq::empty(), pos))
    } else {
        match parse_varint(bytes, pos) {
            None => None,
            Some((rule_count, start)) => match parse_rules(bytes, start, rule_count) {
                None => None,
                Some((rules, mid)) => match parse_layer(bytes, mid) {
                    None => None,
                    Some((decoder, after)) => match parse_sections(
                        bytes,
                        after,
                        (count - 1) as nat,
                    ) {
                        None => None,
                        Some((rest, end)) => Some(
                            (seq![SectionModel { rules, decoder }] + rest, end),
                        ),
                    },
                },
            },
        }
    }
}

/// The table that a payload holds; what follows the last section is not
/// looked at.
pub open spec fn parse_payload(bytes: Seq<u8>) -> Option<Seq<SectionModel>> {
    match parse_varint(bytes, 0) {
        None => None,
        Some((count, start)) => match parse_sections(bytes, start, count) {
            None => None,
            Some((table, _)) => Some(table),
        },
    }
}

/// What the crate `inflate` decompresses `data` to, read as a DEFLATE
/// stream without a header; `None` where it reports an error.
pub uninterp spec fn inflated(data: Seq<u8>) -> Option<Seq<u8>>;

/// Calls `inflate::inflate_bytes`; the result is named, not described.
#[verifier::external_body]
fn inflate_bytes(data: &[u8]) -> (r: Option<Vec<u8>>)
    ensures
        match inflated(data@) {
            Some(out) => (r matches Some(v) && v@ == out),
            None => r is None,
        },
{
    match inflate::inflate_bytes(data) {
        Ok(out) => Some(out),
        Err(_) => None,
    }
}

/// The byte at `pos`, read by `bytes::Buf::get_u8` from the bytes that
/// begin there.
#[verifier::external_body]
fn buf_get_u8(data: &[u8], pos: usize) -> (byte: u8)
    requires
        pos < data@.len(),
    ensures
        byte == data@[pos as int],
{
    let mut rest = &data[pos..];
    rest.get_u8()
}

/// The text that `bytes` are the UTF-8 form of, by `std::str::from_utf8`;
/// `None` where they are not valid UTF-8.
#[verifier::external_body]
fn str_from_utf8(bytes: &[u8]) -> (r: Option<&str>)
    ensures
        r is Some <==> valid_utf8(bytes@),
        r matches Some(s) ==> encode_utf8(s@) == bytes@,
{
    match std::str::from_utf8(bytes) {
        Ok(s) => Some(s),
        Err(_) => None,
    }
}

/// The character with the code point `u`, by `char::from_u32`; `None`
/// where `u` is a surrogate or lies beyond the last code point.
#[verifier::external_body]
fn char_from_u32(u: u32) -> (r: Option<char>)
    ensures
        r == char_of(u as nat),
{
    char::from_u32(u)
}

/// The variable-length integer that begins at `pos`, and the place after
/// it.
pub fn get_varint(data: &[u8], pos: usize) -> (r: Option<(u32, usize)>)
    requires
        pos <= data@.len(),
    ensures
        match r {
            Some((value, end)) => parse_varint(data@, pos as int) == Some(
                (value as nat, end as int),
            ) && value < VARINT_LIMIT && pos < end <= data@.len(),
            None => parse_varint(data@, pos as int) is None,
        },
{
    let n = data.len();
    if pos >= n {
        return None;
    }
    let header = buf_get_u8(data, pos);
    let used_bytes: usize = (header / 0x40) as usize + 1;
    if used_bytes > n - pos {
        return None;
    }
    let mut num: u32 = (header % 0x40) as u32;
    let mut k: usize = 1;
    while k < used_bytes
        invariant
            1 <= k <= used_bytes <= 4,
            pos + used_bytes <= n == data@.len(),
            header == data@[pos as int],
            num as nat == if k == 1 {
                (header % 0x40) as nat
            } else if k == 2 {
                (header % 0x40) as nat * 0x100 + data@[pos + 1] as nat
            } else if k == 3 {
                (header % 0x40) as nat * 0x1_0000 + data@[pos + 1] as nat * 0x100 + data@[pos
                    + 2] as nat
            } else {
                (header % 0x40) as nat * 0x100_0000 + data@[pos + 1] as nat * 0x1_0000 + data@[pos
                    + 2] as nat * 0x100 + data@[pos + 3] as nat
            },
        decreases used_bytes - k,
    {
        let byte = buf_get_u8(data, pos + k);
        num = num * 0x100 + byte as u32;
        k += 1;
    }
    Some((num, pos + used_bytes))
}

/// The segment that begins at `pos`, and the place after it.
pub fn get_seg(data: &[u8], pos: usize) -> (r: Option<(Seg, usize)>)
    requires
        pos <= data@.len(),
    ensures
        match r {
            Some((seg, end)) => parse_seg(data@, pos as int) == Some((seg@, end as int)) && pos
                < end <= data@.len(),
            None => parse_seg(data@, pos as int) is None,
        },
{
    let n = data.len();
    if pos >= n {
        return None;
    }
    let tag = buf_get_u8(data, pos);
    if tag == 0 {
        let (txt_len, start) = match get_varint(data, pos + 1) {
            Some(found) => found,
            None => {
                return None;
            },
        };
        let txt_len = txt_len as usize;
        if txt_len > n - start {
            return None;
        }
        let text = match str_from_utf8(slice_subrange(data, start, start + txt_len)) {
            Some(text) => text,
            None => {
                return None;
            },
        };
        proof {
            vstd::utf8::encode_utf8_decode_utf8(text@);
        }
        Some((Seg::Text(ShareStr::new(text)), start + txt_len))
    } else if tag == 1 {
        match get_varint(data, pos + 1) {
            Some((id, end)) => Some((Seg::Use(id), end)),
            None => None,
        }
    } else {
        None
    }
}

/// The index of the first child under the key `c`.
fn has_key(kids: &Vec<(char, Layer)>, c: char) -> (r: bool)
    ensures
        r == (find_key(layer_kids_model(kids@), c, 0) is Some),
{
    let ghost model = layer_kids_model(kids@);
    let mut i: usize = 0;
    while i < kids.len()
        invariant
            i <= kids.len(),
            model == layer_kids_model(kids@),
            find_key(model, c, 0) == find_key(model, c, i as int),
        decreases kids.len() - i,
    {
        assert(model[i as int].0 == kids@[i as int].0);
        if kids[i].0 == c {
            return true;
        }
        i += 1;
    }
    false
}

/// The automaton that begins at `pos`, and the place after it.
pub fn get_layer(data: &[u8], pos: usize) -> (r: Option<(Layer, usize)>)
    requires
        pos <= data@.len(),
    ensures
        match r {
            Some((layer, end)) => parse_layer(data@, pos as int) == Some((layer@, end as int))
                && pos < end <= data@.len(),
            None => parse_layer(data@, pos as int) is None,
        },
    decreases data@.len() - pos,
{
    let n = data.len();
    if pos >= n {
        return None;
    }
    let tag = buf_get_u8(data, pos);
    if tag == 0 {
        match get_varint(data, pos + 1) {
            Some((value, end)) => Some((Layer::Certain(value), end)),
            None => None,
        }
    } else if tag == 1 {
        let (len, start) = match get_varint(data, pos + 1) {
            Some(found) => found,
            None => {
                return None;
            },
        };
        let mut branch: Vec<(char, Layer)> = Vec::new();
        assert(layer_kids_model(branch@) =~= Seq::empty());
        let mut at = start;
        let mut left = len;
        while left > 0
            invariant
                pos < at <= data@.len() == n,
                pos < start,
                parse_layer(data@, pos as int) == (match parse_kids(
                    data@,
                    start as int,
                    len as nat,
                    Seq::empty(),
                ) {
                    None => None,
                    Some((kids, end)) => Some((LayerModel::Branch(kids), end)),
                }),
                parse_kids(data@, at as int, left as nat, layer_kids_model(branch@)) == parse_kids(
                    data@,
                    start as int,
                    len as nat,
                    Seq::empty(),
                ),
            decreases left,
        {
            proof {
                lemma_parse_varint(data@, at as int);
            }
            let (code, key_end) = match get_varint(data, at) {
                Some(found) => found,
                None => {
                    return None;
                },
            };
            let ch = match char_from_u32(code) {
                Some(ch) => ch,
                None => {
                    return None;
                },
            };
            let (layer, after) = match get_layer(data, key_end) {
                Some(found) => found,
                None => {
                    return None;
                },
            };
            if has_key(&branch, ch) {
                return None;
            }
            let ghost done = layer_kids_model(branch@);
            branch.push((ch, layer));
            assert(layer_kids_model(branch@) =~= done.push((ch, layer@)));
            at = after;
            left -= 1;
        }
        Some((Layer::Branch(branch), at))
    } else {
        None
    }
}

/// The `count` segments that follow one another from `pos` on.
fn get_segs(data: &[u8], pos: usize, count: u32) -> (r: Option<(Vec<Seg>, usize)>)
    requires
        pos <= data@.len(),
    ensures
        match r {
            Some((segs, end)) => parse_segs(data@, pos as int, count as nat) == Some(
                (rule_view(segs@), end as int),
            ) && pos <= end <= data@.len(),
            None => parse_segs(data@, pos as int, count as nat) is None,
        },
{
    let ghost goal = parse_segs(data@, pos as int, count as nat);
    let mut rule: Vec<Seg> = Vec::new();
    let mut at = pos;
    let mut left = count;
    while left > 0
        invariant
            pos <= at <= data@.len(),
            goal == parse_segs(data@, pos as int, count as nat),
            goal == match parse_segs(data@, at as int, left as nat) {
                Some((rest, end)) => Some((rule_view(rule@) + rest, end)),
                None => None,
            },
        decreases left,
    {
        let ghost done = rule_view(rule@);
        let (seg, after) = match get_seg(data, at) {
            Some(found) => found,
            None => {
                return None;
            },
        };
        rule.push(seg);
        proof {
            assert(rule_view(rule@) =~= done.push(seg@));
            if let Some((rest, end)) = parse_segs(data@, after as int, (left - 1) as nat) {
                assert(done + (seq![seg@] + rest) =~= done.push(seg@) + rest);
            }
        }
        at = after;
        left -= 1;
    }
    assert(rule_view(rule@) + Seq::<SegModel>::empty() =~= rule_view(rule@));
    Some((rule, at))
}

/// The `count` rules that follow one another from `pos` on.
fn get_rules(data: &[u8], pos: usize, count: u32) -> (r: Option<(Vec<Vec<Seg>>, usize)>)
    requires
        pos <= data@.len(),
    ensures
        match r {
            Some((rules, end)) => parse_rules(data@, pos as int, count as nat) == Some(
                (rules_view(rules@), end as int),
            ) && pos <= end <= data@.len(),
            None => parse_rules(data@, pos as int, count as nat) is None,
        },
{
    let ghost goal = parse_rules(data@, pos as int, count as nat);
    let mut rules: Vec<Vec<Seg>> = Vec::new();
    let mut at = pos;
    let mut left = count;
    while left > 0
        invariant
            pos <= at <= data@.len(),
            goal == parse_rules(data@, pos as int, count as nat),
            goal == match parse_rules(data@, at as int, left as nat) {
                Some((rest, end)) => Some((rules_view(rules@) + rest, end)),
                None => None,
            },
        decreases left,
    {
        let ghost done = rules_view(rules@);
        let (len, start) = match get_varint(data, at) {
            Some(found) => found,
            None => {
                return None;
            },
        };
        let (rule, after) = match get_segs(data, start, len) {
            Some(found) => found,
            None => {
                return None;
            },
        };
        let ghost rule_model = rule_view(rule@);
        rules.push(rule);
        proof {
            assert(rules_view(rules@) =~= done.push(rule_model));
            if let Some((rest, end)) = parse_rules(data@, after as int, (left - 1) as nat) {
                assert(done + (seq![rule_model] + rest) =~= done.push(rule_model) + rest);
            }
        }
        at = after;
        left -= 1;
    }
    assert(rules_view(rules@) + Seq::<Seq<SegModel>>::empty() =~= rules_view(rules@));
    Some((rules, at))
}

/// The table that a payload holds.
pub fn table_of(data: &[u8]) -> (r: Option<Vec<Section>>)
    ensures
        match r {
            Some(table) => parse_payload(data@) == Some(table_view(table@)),
            None => parse_payload(data@) is None,
        },
{
    let (count, start) = match get_varint(data, 0) {
        Some(found) => found,
        None => {
            return None;
        },
    };
    let ghost goal = parse_sections(data@, start as int, count as nat);
    let mut sections: Vec<Section> = Vec::new();
    let mut at = start;
    let mut left = count;
    while left > 0
        invariant
            at <= data@.len(),
            parse_payload(data@) == match goal {
                Some((table, _)) => Some(table),
                None => None,
            },
            goal == match parse_sections(data@, at as int, left as nat) {
                Some((rest, end)) => Some((table_view(sections@) + rest, end)),
                None => None,
            },
        decreases left,
    {
        let ghost done = table_view(sections@);
        let (rule_count, rules_start) = match get_varint(data, at) {
            Some(found) => found,
            None => {
                return None;
            },
        };
        let (rules, mid) = match get_rules(data, rules_start, rule_count) {
            Some(found) => found,
            None => {
                return None;
            },
        };
        let (table, after) = match get_layer(data, mid) {
            Some(found) => found,
            None => {
                return None;
            },
        };
        let section = Section { encoder: rules, decoder: table };
        sections.push(section);
        proof {
            assert(table_view(sections@) =~= done.push(section@));
            if let Some((rest, end)) = parse_sections(data@, after as int, (left - 1) as nat) {
                assert(done + (seq![section@] + rest) =~= done.push(section@) + rest);
            }
        }
        at = after;
        left -= 1;
    }
    assert(table_view(sections@) + Seq::<SectionModel>::empty() =~= table_view(sections@));
    Some(sections)
}

/// A stored table that cannot be read: the bytes are no compressed
/// stream, or what they hold is no payload of a table.
#[derive(Debug)]
pub struct CorruptLibraryError {}

/// The table held in the stored form `bytes`: what the bytes decompress to
/// is read as a payload.
pub fn read_lib(bytes: &[u8]) -> (r: Result<Vec<Section>, CorruptLibraryError>)
    ensures
        match r {
            Ok(table) => inflated(bytes@) matches Some(payload) && parse_payload(payload) == Some(
                table_view(table@),
            ),
            Err(_) => inflated(bytes@) matches Some(payload) ==> parse_payload(payload) is None,
        },
{
    let decompressed = match inflate_bytes(bytes) {
        Some(data) => data,
        None => {
            return Err(CorruptLibraryError {});
        },
    };
    match table_of(decompressed.as_slice()) {
        Some(table) => Ok(table),
        None => Err(CorruptLibraryError {}),
    }
}

} // verus!

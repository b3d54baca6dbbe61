//! Writing a table in its stored form.

use crate::syntax::{
    layer_kids_model, layer_size, lemma_layer_kid_is_smaller, rule_view, rules_view, table_view, Layer, LayerModel, Section, SectionModel,
    Seg, SegModel,
};
use bytes::BufMut;
use vstd::prelude::*;
use vstd::utf8::encode_utf8;

verus! {

/// The numbers that a variable-length integer can hold lie below this
/// bound, two to the power 30.
pub const VARINT_LIMIT: u32 = 0x4000_0000;

/// The bytes of the variable-length integer `v`.
pub open spec fn varint_bytes(v: nat) -> Seq<u8> {
    if v < 0x40 {
        seq![v as u8]
    } else if v < 0x4000 {
        seq![(0x40 + v / 0x100) as u8, (v % 0x100) as u8]
    } else if v < 0x40_0000 {
        seq![(0x80 + v / 0x1_0000) as u8, (v / 0x100 % 0x100) as u8, (v % 0x100) as u8]
    } else {
        seq![
            (0xC0 + v / 0x100_0000) as u8,
            (v / 0x1_0000 % 0x100) as u8,
            (v / 0x100 % 0x100) as u8,
            (v % 0x100) as u8,
        ]
    }
}

/// The bytes of a segment: the tag 0, the length of the text in bytes and
/// the text in UTF-8; or the tag 1 and the index of the section referred to.
pub open spec fn seg_bytes(seg: SegModel) -> Seq<u8> {
    match seg {
        SegModel::Text(t) => seq![0u8] + varint_bytes(encode_utf8(t).len()) + encode_utf8(t),
        SegModel::Use(i) => seq![1u8] + varint_bytes(i),
    }
}

/// The bytes of the segments `segs[i..]`, one after the other.
pub open spec fn segs_bytes(segs: Seq<SegModel>, i: int) -> Seq<u8>
    decreases segs.len() - i,
{
    if i < 0 || i >= segs.len() {
        Seq::empty()
    } else {
        seg_bytes(segs[i]) + segs_bytes(segs, i + 1)
    }
}

/// The bytes of the rules `rules[i..]`: each rule is the number of its
/// segments and the segments.
pub open spec fn rules_bytes(rules: Seq<Seq<SegModel>>, i: int) -> Seq<u8>
    decreases rules.len() - i,
{
    if i < 0 || i >= rules.len() {
        Seq::empty()
    } else {
        varint_bytes(rules[i].len()) + segs_bytes(rules[i], 0) + rules_bytes(rules, i + 1)
    }
}

/// The bytes of an automaton: the tag 0 and the rule; or the tag 1, the
/// number of children and, for each child, the code point of its key and
/// the child.
pub open spec fn layer_bytes(l: LayerModel) -> Seq<u8>
    decreases l, 0nat,
{
    match l {
        LayerModel::Certain(rule) => seq![0u8] + varint_bytes(rule),
        LayerModel::Branch(kids) => seq![1u8] + varint_bytes(kids.len()) + kids_bytes(kids, 0),
    }
}

/// The stored form of the branches of an automaton from the `i`-th on: for
/// each its character and then what it leads to.
pub open spec fn kids_bytes(kids: Seq<(char, LayerModel)>, i: int) -> Seq<u8>
    decreases kids, kids.len() - i,
{
    if i < 0 || i >= kids.len() {
        Seq::empty()
    } else {
        varint_bytes(kids[i].0 as u32 as nat) + layer_bytes(kids[i].1) + kids_bytes(kids, i + 1)
    }
}

/// The bytes of a section: the number of its rules, the rules, and the
/// automaton.
pub open spec fn section_bytes(section: SectionModel) -> Seq<u8> {
    varint_bytes(section.rules.len()) + rules_bytes(section.rules, 0) + layer_bytes(
        section.decoder,
    )
}

/// The stored form of the sections from the `i`-th on, one after another.
pub open spec fn sections_bytes(table: Seq<SectionModel>, i: int) -> Seq<u8>
    decreases table.len() - i,
{
    if i < 0 || i >= table.len() {
        Seq::empty()
    } else {
        section_bytes(table[i]) + sections_bytes(table, i + 1)
    }
}

/// The payload of a table: the number of its sections, and the sections.
pub open spec fn table_bytes(table: Seq<SectionModel>) -> Seq<u8> {
    varint_bytes(table.len()) + sections_bytes(table, 0)
}

/// Whether the numbers of a segment fit in variable-length integers.
pub open spec fn seg_fits(seg: SegModel) -> bool {
    match seg {
        SegModel::Text(t) => encode_utf8(t).len() < VARINT_LIMIT,
        SegModel::Use(i) => i < VARINT_LIMIT,
    }
}

/// The number of rules, the length of each and every segment can be stored.
pub open spec fn rules_fit(rules: Seq<Seq<SegModel>>) -> bool {
    &&& rules.len() < VARINT_LIMIT
    &&& forall|i: int| 0 <= i < rules.len() ==> (#[trigger] rules[i]).len() < VARINT_LIMIT
    &&& forall|i: int, j: int|
        0 <= i < rules.len() && 0 <= j < rules[i].len() ==> seg_fits(#[trigger] rules[i][j])
}

/// Whether the numbers of an automaton fit in variable-length integers.
pub open spec fn layer_fits(l: LayerModel) -> bool
    decreases l, 0nat,
{
    match l {
        LayerModel::Certain(rule) => rule < VARINT_LIMIT,
        LayerModel::Branch(kids) => kids.len() < VARINT_LIMIT && kids_fit(kids, kids.len()),
    }
}

/// What each of the first `m` branches leads to can be stored.
pub open spec fn kids_fit(kids: Seq<(char, LayerModel)>, m: nat) -> bool
    decreases kids, m,
{
    if 0 < m <= kids.len() {
        kids_fit(kids, (m - 1) as nat) && layer_fits(kids[m - 1].1)
    } else {
        true
    }
}

/// Where the first `m` branches can be stored, so can each one of them.
pub proof fn lemma_kids_fit_index(kids: Seq<(char, LayerModel)>, m: nat, i: int)
    requires
        kids_fit(kids, m),
        0 <= i < m <= kids.len(),
    ensures
        layer_fits(kids[i].1),
    decreases m,
{
    if i < m - 1 {
        lemma_kids_fit_index(kids, (m - 1) as nat, i);
    }
}

/// Whether a table can be stored: every number in it, the lengths and the
/// counts too, lies below two to the power 30.
pub open spec fn table_fits(table: Seq<SectionModel>) -> bool {
    &&& table.len() < VARINT_LIMIT
    &&& forall|i: int| 0 <= i < table.len() ==> rules_fit((#[trigger] table[i]).rules)
    &&& forall|i: int| 0 <= i < table.len() ==> layer_fits((#[trigger] table[i]).decoder)
}

/// What the crate `deflate` compresses `data` to, with its default setting
/// and without a header.
pub uninterp spec fn deflated(data: Seq<u8>) -> Seq<u8>;

/// Calls `deflate::deflate_bytes`; the result is named, not described.
#[verifier::external_body]
fn deflate_bytes(data: &Vec<u8>) -> (r: Vec<u8>)
    ensures
        r@ == deflated(data@),
{
    deflate::deflate_bytes(data)
}

/// Appends one byte, by `bytes::BufMut::put_u8`.
#[verifier::external_body]
fn buf_put_u8(data: &mut Vec<u8>, byte: u8)
    ensures
        final(data)@ == old(data)@.push(byte),
{
    data.put_u8(byte)
}

/// Appends the bytes of `src`, by `bytes::BufMut::put`.
#[verifier::external_body]
fn buf_put(data: &mut Vec<u8>, src: &[u8])
    ensures
        final(data)@ == old(data)@ + src@,
{
    data.put(src)
}

/// Appends `value` as a variable-length integer.
pub fn put_varint(vec: &mut Vec<u8>, value: u32)
    requires
        value < VARINT_LIMIT,
    ensures
        final(vec)@ == old(vec)@ + varint_bytes(value as nat),
{
    let mut out: Vec<u8> = Vec::new();
    if value < 0x40 {
        out.push(value as u8);
    } else if value < 0x4000 {
        out.push((0x40 + value / 0x100) as u8);
        out.push((value % 0x100) as u8);
    } else if value < 0x40_0000 {
        out.push((0x80 + value / 0x1_0000) as u8);
        out.push((value / 0x100 % 0x100) as u8);
        out.push((value % 0x100) as u8);
    } else {
        out.push((0xC0 + value / 0x100_0000) as u8);
        out.push((value / 0x1_0000 % 0x100) as u8);
        out.push((value / 0x100 % 0x100) as u8);
        out.push((value % 0x100) as u8);
    }
    assert(out@ =~= varint_bytes(value as nat));
    buf_put(vec, out.as_slice());
}

/// Appends a segment.
pub fn put_seg(data: &mut Vec<u8>, seg: &Seg)
    requires
        seg_fits(seg@),
    ensures
        final(data)@ == old(data)@ + seg_bytes(seg@),
{
    match seg {
        Seg::Text(txt) => {
            buf_put_u8(data, 0);
            let text = txt.as_str();
            let bytes = text.as_str().as_bytes();
            put_varint(data, bytes.len() as u32);
            buf_put(data, bytes);
            assert(data@ =~= old(data)@ + seg_bytes(seg@));
        },
        Seg::Use(u) => {
            buf_put_u8(data, 1);
            put_varint(data, *u);
            assert(data@ =~= old(data)@ + seg_bytes(seg@));
        },
    }
}

/// Appends an automaton.
pub fn put_layer(data: &mut Vec<u8>, layer: &Layer)
    requires
        layer_fits(layer@),
    ensures
        final(data)@ == old(data)@ + layer_bytes(layer@),
    decreases layer_size(layer@),
{
    match layer {
        Layer::Certain(value) => {
            buf_put_u8(data, 0);
            put_varint(data, *value);
            assert(data@ =~= old(data)@ + layer_bytes(layer@));
        },
        Layer::Branch(branch) => {
            let ghost kids = layer_kids_model(branch@);
            buf_put_u8(data, 1);
            put_varint(data, branch.len() as u32);
            let ghost head = data@;
            let mut i: usize = 0;
            while i < branch.len()
                invariant
                    i <= branch.len(),
                    layer@ == LayerModel::Branch(kids),
                    kids == layer_kids_model(branch@),
                    kids_fit(kids, kids.len()),
                    data@ + kids_bytes(kids, i as int) == head + kids_bytes(kids, 0),
                decreases branch.len() - i,
            {
                let ghost done = data@;
                proof {
                    lemma_kids_fit_index(kids, kids.len(), i as int);
                    lemma_layer_kid_is_smaller(kids, i as int);
                    assert(kids[i as int] == (branch@[i as int].0, branch@[i as int].1@));
                    vstd::utf8::char_is_scalar(branch@[i as int].0);
                }
                put_varint(data, branch[i].0 as u32);
                put_layer(data, &branch[i].1);
                proof {
                    let one = varint_bytes(kids[i as int].0 as u32 as nat) + layer_bytes(
                        kids[i as int].1,
                    );
                    assert(data@ =~= done + one);
                    assert(done + (one + kids_bytes(kids, i + 1)) =~= (done + one) + kids_bytes(
                        kids,
                        i + 1,
                    ));
                }
                i += 1;
            }
            assert(data@ + Seq::<u8>::empty() =~= data@);
            assert(head + kids_bytes(kids, 0) =~= old(data)@ + layer_bytes(layer@));
        },
    }
}

/// Appends the rules of a section, each with the number of its segments.
fn put_rules(data: &mut Vec<u8>, rules: &Vec<Vec<Seg>>)
    requires
        rules_fit(rules_view(rules@)),
    ensures
        final(data)@ == old(data)@ + rules_bytes(rules_view(rules@), 0),
{
    let ghost model = rules_view(rules@);
    let ghost start = data@;
    let mut i: usize = 0;
    while i < rules.len()
        invariant
            i <= rules.len(),
            model == rules_view(rules@),
            rules_fit(model),
            data@ + rules_bytes(model, i as int) == start + rules_bytes(model, 0),
        decreases rules.len() - i,
    {
        let rule = &rules[i];
        let ghost segs = model[i as int];
        let ghost before = data@;
        assert(segs == rule_view(rule@));
        put_varint(data, rule.len() as u32);
        let ghost head = data@;
        let mut j: usize = 0;
        while j < rule.len()
            invariant
                j <= rule.len(),
                0 <= i < rules.len(),
                rule == rules@[i as int],
                model == rules_view(rules@),
                segs == model[i as int],
                segs == rule_view(rule@),
                rules_fit(model),
                data@ + segs_bytes(segs, j as int) == head + segs_bytes(segs, 0),
            decreases rule.len() - j,
        {
            let ghost done = data@;
            assert(segs[j as int] == rule@[j as int]@);
            assert(seg_fits(model[i as int][j as int]));
            put_seg(data, &rule[j]);
            proof {
                let one = seg_bytes(segs[j as int]);
                assert(done + (one + segs_bytes(segs, j + 1)) =~= (done + one) + segs_bytes(
                    segs,
                    j + 1,
                ));
            }
            j += 1;
        }
        proof {
            assert(data@ + Seq::<u8>::empty() =~= data@);
            let one = varint_bytes(segs.len()) + segs_bytes(segs, 0);
            assert(data@ =~= before + one);
            assert(before + (one + rules_bytes(model, i + 1)) =~= (before + one) + rules_bytes(
                model,
                i + 1,
            ));
        }
        i += 1;
    }
    assert(data@ + Seq::<u8>::empty() =~= data@);
}

/// The payload of a table.
pub fn payload_of(secs: &Vec<Section>) -> (data: Vec<u8>)
    requires
        table_fits(table_view(secs@)),
    ensures
        data@ == table_bytes(table_view(secs@)),
{
    let ghost table = table_view(secs@);
    let mut data: Vec<u8> = Vec::new();
    put_varint(&mut data, secs.len() as u32);
    let ghost head = data@;
    let mut i: usize = 0;
    while i < secs.len()
        invariant
            i <= secs.len(),
            table == table_view(secs@),
            table_fits(table),
            data@ + sections_bytes(table, i as int) == head + sections_bytes(table, 0),
        decreases secs.len() - i,
    {
        let sec = &secs[i];
        let ghost before = data@;
        assert(table[i as int] == sec@);
        assert(rules_fit(table[i as int].rules));
        assert(layer_fits(table[i as int].decoder));
        put_varint(&mut data, sec.encoder.len() as u32);
        put_rules(&mut data, &sec.encoder);
        put_layer(&mut data, &sec.decoder);
        proof {
            let one = section_bytes(table[i as int]);
            assert(data@ =~= before + one);
            assert(before + (one + sections_bytes(table, i + 1)) =~= (before + one)
                + sections_bytes(table, i + 1));
        }
        i += 1;
    }
    assert(data@ + Seq::<u8>::empty() =~= data@);
    assert(head =~= varint_bytes(table.len()));
    data
}

/// The stored form of a table: its payload, compressed.
pub fn save_lib(secs: &Vec<Section>) -> (file: Vec<u8>)
    requires
        table_fits(table_view(secs@)),
    ensures
        file@ == deflated(table_bytes(table_view(secs@))),
{
    let data = payload_of(secs);
    deflate_bytes(&data)
}

/// Whether the numbers of `layer` fit in variable-length integers.
fn layer_can_be_saved(layer: &Layer) -> (b: bool)
    ensures
        b == layer_fits(layer@),
    decreases layer_size(layer@),
{
    match layer {
        Layer::Certain(rule) => *rule < VARINT_LIMIT,
        Layer::Branch(kids) => {
            if kids.len() >= VARINT_LIMIT as usize {
                return false;
            }
            let ghost model = layer_kids_model(kids@);
            let mut i: usize = 0;
            while i < kids.len()
                invariant
                    i <= kids.len(),
                    model == layer_kids_model(kids@),
                    layer@ == LayerModel::Branch(model),
                    kids_fit(model, i as nat),
                decreases kids.len() - i,
            {
                proof {
                    lemma_layer_kid_is_smaller(model, i as int);
                    assert(model[i as int].1 == kids@[i as int].1@);
                }
                if !layer_can_be_saved(&kids[i].1) {
                    proof {
                        if kids_fit(model, model.len()) {
                            lemma_kids_fit_index(model, model.len(), i as int);
                        }
                    }
                    return false;
                }
                i += 1;
            }
            true
        },
    }
}

/// Whether the numbers of `rules` fit in variable-length integers.
fn rules_can_be_saved(rules: &Vec<Vec<Seg>>) -> (b: bool)
    ensures
        b == rules_fit(rules_view(rules@)),
{
    let ghost model = rules_view(rules@);
    if rules.len() >= VARINT_LIMIT as usize {
        return false;
    }
    let mut i: usize = 0;
    while i < rules.len()
        invariant
            i <= rules.len(),
            model == rules_view(rules@),
            forall|a: int| 0 <= a < i ==> (#[trigger] model[a]).len() < VARINT_LIMIT,
            forall|a: int, c: int|
                0 <= a < i && 0 <= c < model[a].len() ==> seg_fits(#[trigger] model[a][c]),
        decreases rules.len() - i,
    {
        let rule = &rules[i];
        assert(model[i as int] == rule_view(rule@));
        if rule.len() >= VARINT_LIMIT as usize {
            return false;
        }
        let mut j: usize = 0;
        while j < rule.len()
            invariant
                j <= rule.len(),
                0 <= i < rules.len(),
                rule == rules@[i as int],
                model == rules_view(rules@),
                model[i as int] == rule_view(rule@),
                forall|c: int| 0 <= c < j ==> seg_fits(#[trigger] model[i as int][c]),
            decreases rule.len() - j,
        {
            assert(model[i as int][j as int] == rule@[j as int]@);
            let fits = match &rule[j] {
                Seg::Text(txt) => txt.as_str().as_str().as_bytes().len() < VARINT_LIMIT as usize,
                Seg::Use(target) => *target < VARINT_LIMIT,
            };
            if !fits {
                return false;
            }
            j += 1;
        }
        i += 1;
    }
    true
}

/// Whether the table `secs` can be stored.
pub fn can_save(secs: &Vec<Section>) -> (b: bool)
    ensures
        b == table_fits(table_view(secs@)),
{
    let ghost table = table_view(secs@);
    if secs.len() >= VARINT_LIMIT as usize {
        return false;
    }
    let mut i: usize = 0;
    while i < secs.len()
        invariant
            i <= secs.len(),
            table == table_view(secs@),
            forall|k: int| 0 <= k < i ==> rules_fit((#[trigger] table[k]).rules),
            forall|k: int| 0 <= k < i ==> layer_fits((#[trigger] table[k]).decoder),
        decreases secs.len() - i,
    {
        let section = &secs[i];
        assert(table[i as int] == section@);
        if !rules_can_be_saved(&section.encoder) || !layer_can_be_saved(&section.decoder) {
            return false;
        }
        i += 1;
    }
    true
}

} // verus!

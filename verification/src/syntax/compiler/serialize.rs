//! Flattening the linked sections that an entry reaches into one table.

use super::link::{
    linked_table_view, linked_table_wf, LinkedSection, LinkedSectionModel, LinkedSeg,
    LinkedSegModel, SectionTable,
};
use super::searcher::{
    kids_model, lemma_kid_is_smaller, lemma_kids_below_index, trie_size, values_below, Trie,
    TrieModel,
};
use crate::syntax::{
    layer_in_range, layer_kids_model, lemma_layers_in_range_intro, rule_view, rules_in_range,
    rules_view, table_view, table_wf, Layer, LayerModel, Section, SectionModel, Seg, SegModel,
};

use vstd::prelude::*;

verus! {

/// The automaton of a trie: the branches as they are, each leaf reduced to
/// the rule it stands for.
pub open spec fn flatten(t: TrieModel) -> LayerModel
    decreases t, 0nat,
{
    match t {
        TrieModel::Branch(kids) => LayerModel::Branch(flatten_kids(kids)),
        TrieModel::Leaf { value, rest } => LayerModel::Certain(value),
    }
}

/// The branches of an automaton for the branches of a trie.
pub open spec fn flatten_kids(kids: Seq<(char, TrieModel)>) -> Seq<(char, LayerModel)>
    decreases kids, 1nat,
{
    Seq::new(
        kids.len(),
        |i: int|
            if 0 <= i < kids.len() {
                (kids[i].0, flatten(kids[i].1))
            } else {
                arbitrary()
            },
    )
}

/// Progress of the flattening: the flat index given to each linked section
/// so far, and the flat sections, one slot for each index given; a slot is
/// empty while its section is being flattened.
pub struct SerState {
    pub index: Seq<Option<nat>>,
    pub out: Seq<Option<SectionModel>>,
}

/// The state after the section `sec` was flattened, and its flat index.
///
/// A section that has an index keeps it.  Another one takes the next free
/// index, then has its rules flattened, which flattens the sections they
/// refer to, and then fills its slot.
pub open spec fn ser_section(table: Seq<LinkedSectionModel>, st: SerState, sec: int) -> (
    SerState,
    nat,
)
    decreases sec, 2nat, 0nat,
{
    if sec < 0 || sec >= table.len() || sec >= st.index.len() {
        (st, 0)
    } else {
        match st.index[sec] {
            Some(i) => (st, i),
            None => {
                let i = st.out.len();
                let st1 = SerState { index: st.index.update(sec, Some(i)), out: st.out.push(None) };
                let (st2, rules) = ser_rules(table, st1, sec, 0);
                let flat = SectionModel { rules, decoder: flatten(table[sec].search) };
                (SerState { index: st2.index, out: st2.out.update(i as int, Some(flat)) }, i)
            },
        }
    }
}

/// The state after the rules `r..` of the section `sec` were flattened, and
/// those rules in flat form.
pub open spec fn ser_rules(table: Seq<LinkedSectionModel>, st: SerState, sec: int, r: int) -> (
    SerState,
    Seq<Seq<SegModel>>,
)
    decreases sec, 1nat, table[sec].rules.len() - r,
{
    if sec < 0 || sec >= table.len() || r < 0 || r >= table[sec].rules.len() {
        (st, Seq::empty())
    } else {
        let (st1, rule) = ser_rule(table, st, sec, r, 0);
        let (st2, rest) = ser_rules(table, st1, sec, r + 1);
        (st2, seq![rule] + rest)
    }
}

/// The state after the segments `j..` of the rule `r` of the section `sec`
/// were flattened, and those segments in flat form.
pub open spec fn ser_rule(table: Seq<LinkedSectionModel>, st: SerState, sec: int, r: int, j: int) -> (
    SerState,
    Seq<SegModel>,
)
    decreases sec, 0nat, table[sec].rules[r].len() - j,
{
    if sec < 0 || sec >= table.len() || r < 0 || r >= table[sec].rules.len() || j < 0 || j
        >= table[sec].rules[r].len() {
        (st, Seq::empty())
    } else {
        let (st1, seg) = match table[sec].rules[r][j] {
            LinkedSegModel::Text(t) => (st, SegModel::Text(t)),
            LinkedSegModel::Use(t) => if t < sec {
                let (s, i) = ser_section(table, st, t as int);
                (s, SegModel::Use(i))
            } else {
                (st, SegModel::Use(0))
            },
        };
        let (st2, rest) = ser_rule(table, st1, sec, r, j + 1);
        (st2, seq![seg] + rest)
    }
}

/// The state in which no section of a table of `n` has an index.
pub open spec fn ser_start(n: nat) -> SerState {
    SerState { index: Seq::new(n, |i: int| None::<nat>), out: Seq::empty() }
}

/// The flat table of the sections that can be reached from `entry`: they
/// are numbered in the order in which a walk from `entry`, depth first and
/// through the rules in order, meets them.
pub open spec fn serialize_model(table: Seq<LinkedSectionModel>, entry: int) -> Seq<SectionModel> {
    let st = ser_section(table, ser_start(table.len()), entry).0;
    Seq::new(st.out.len(), |i: int| st.out[i]->0)
}

/// How many of the first `n` sections have an index.
pub open spec fn count_indexed(index: Seq<Option<nat>>, n: nat) -> nat
    decreases n,
{
    if 0 < n <= index.len() {
        count_indexed(index, (n - 1) as nat) + if index[n - 1] is Some {
            1nat
        } else {
            0nat
        }
    } else {
        0
    }
}

proof fn lemma_count_bound(index: Seq<Option<nat>>, n: nat)
    requires
        n <= index.len(),
    ensures
        count_indexed(index, n) <= n,
    decreases n,
{
    if n > 0 {
        lemma_count_bound(index, (n - 1) as nat);
    }
}

proof fn lemma_count_update(index: Seq<Option<nat>>, k: int, v: nat, n: nat)
    requires
        0 <= k < index.len(),
        index[k] is None,
        n <= index.len(),
    ensures
        count_indexed(index.update(k, Some(v)), n) == count_indexed(index, n) + if k < n {
            1nat
        } else {
            0nat
        },
    decreases n,
{
    if n > 0 {
        lemma_count_update(index, k, v, (n - 1) as nat);
    }
}

proof fn lemma_count_start(n: nat, m: nat)
    requires
        m <= n,
    ensures
        count_indexed(ser_start(n).index, m) == 0,
    decreases m,
{
    if m > 0 {
        lemma_count_start(n, (m - 1) as nat);
    }
}

/// A flat section whose references stay below `n`, and whose automaton
/// tells its own rules only.
pub open spec fn slot_ok(slot: Option<SectionModel>, n: nat) -> bool {
    slot matches Some(s) ==> s.rules.len() > 0 && rules_in_range(s.rules, n) && layer_in_range(
        s.decoder,
        s.rules.len(),
    )
}

/// The automaton of a trie tells the rules that the leaves stand for.
pub proof fn lemma_flatten_in_range(t: TrieModel, n: nat)
    requires
        values_below(t, n),
    ensures
        layer_in_range(flatten(t), n),
    decreases t,
{
    if let TrieModel::Branch(kids) = t {
        let flat = flatten_kids(kids);
        assert forall|i: int| 0 <= i < flat.len() implies layer_in_range(
            (#[trigger] flat[i]).1,
            n,
        ) by {
            lemma_kids_below_index(kids, kids.len(), n, i);
            lemma_flatten_in_range(kids[i].1, n);
        }
        lemma_layers_in_range_intro(flat, flat.len(), n);
    }
}

/// What holds of the state between any two steps of the flattening of a
/// table of `n` sections.
pub open spec fn ser_inv(st: SerState, n: nat) -> bool {
    &&& st.index.len() == n
    &&& st.out.len() == count_indexed(st.index, n)
    &&& forall|s: int| 0 <= s < n ==> (#[trigger] st.index[s] matches Some(i) ==> i < st.out.len())
    &&& forall|i: int| 0 <= i < st.out.len() ==> slot_ok(#[trigger] st.out[i], st.out.len())
}

/// How a state may differ from an earlier one: indices are kept, the slots
/// that were there are as they were, and every slot added is filled.
pub open spec fn ser_grows(st: SerState, st2: SerState) -> bool {
    &&& st.out.len() <= st2.out.len()
    &&& st.index.len() == st2.index.len()
    &&& forall|s: int|
        0 <= s < st.index.len() && st.index[s] is Some ==> #[trigger] st2.index[s] == st.index[s]
    &&& forall|i: int| 0 <= i < st.out.len() ==> #[trigger] st2.out[i] == st.out[i]
    &&& forall|i: int| st.out.len() <= i < st2.out.len() ==> (#[trigger] st2.out[i]) is Some
}

/// Writing a section out keeps the state in order, keeps what was written,
/// and records a place for the section.
pub proof fn lemma_ser_section(table: Seq<LinkedSectionModel>, st: SerState, sec: int)
    requires
        linked_table_wf(table),
        ser_inv(st, table.len()),
        0 <= sec < table.len(),
    ensures
        ({
            let (st2, i) = ser_section(table, st, sec);
            &&& ser_inv(st2, table.len())
            &&& ser_grows(st, st2)
            &&& st2.index[sec] == Some(i)
            &&& i < st2.out.len()
        }),
    decreases sec, 2nat, 0nat,
{
    if st.index[sec] is None {
        let i = st.out.len();
        let st1 = SerState { index: st.index.update(sec, Some(i)), out: st.out.push(None) };
        lemma_count_update(st.index, sec, i, table.len());
        assert(ser_inv(st1, table.len())) by {
            assert forall|k: int| 0 <= k < st1.out.len() implies slot_ok(
                #[trigger] st1.out[k],
                st1.out.len(),
            ) by {
                if k < st.out.len() {
                    assert(slot_ok(st.out[k], st.out.len()));
                }
            }
        }
        lemma_ser_rules(table, st1, sec, 0);
        let (st2, rules) = ser_rules(table, st1, sec, 0);
        let flat = SectionModel { rules, decoder: flatten(table[sec].search) };
        let st3 = SerState { index: st2.index, out: st2.out.update(i as int, Some(flat)) };
        assert(st2.index[sec] == st1.index[sec]);
        lemma_flatten_in_range(table[sec].search, table[sec].rules.len());
        assert(ser_inv(st3, table.len())) by {
            assert forall|k: int| 0 <= k < st3.out.len() implies slot_ok(
                #[trigger] st3.out[k],
                st3.out.len(),
            ) by {
                if k != i {
                    assert(slot_ok(st2.out[k], st2.out.len()));
                }
            }
        }
        assert(ser_grows(st, st3)) by {
            assert forall|k: int| 0 <= k < st.out.len() implies #[trigger] st3.out[k]
                == st.out[k] by {
                assert(st2.out[k] == st1.out[k]);
            }
            assert forall|k: int| st.out.len() <= k < st3.out.len() implies (
            #[trigger] st3.out[k]) is Some by {
                if k != i {
                    assert(st2.out[k] is Some);
                }
            }
            assert forall|s: int|
                0 <= s < st.index.len() && st.index[s] is Some implies #[trigger] st3.index[s]
                == st.index[s] by {
                assert(st1.index[s] is Some);
                assert(st2.index[s] == st1.index[s]);
            }
        }
    }
}

/// Writing the rules of a section out from the `r`-th on keeps the state in
/// order and yields one rule for each, with references to places in use.
pub proof fn lemma_ser_rules(table: Seq<LinkedSectionModel>, st: SerState, sec: int, r: int)
    requires
        linked_table_wf(table),
        ser_inv(st, table.len()),
        0 <= sec < table.len(),
        0 <= r <= table[sec].rules.len(),
    ensures
        ({
            let (st2, rules) = ser_rules(table, st, sec, r);
            &&& ser_inv(st2, table.len())
            &&& ser_grows(st, st2)
            &&& rules.len() == table[sec].rules.len() - r
            &&& rules_in_range(rules, st2.out.len())
        }),
    decreases sec, 1nat, table[sec].rules.len() - r,
{
    if r < table[sec].rules.len() {
        lemma_ser_rule(table, st, sec, r, 0);
        let (st1, rule) = ser_rule(table, st, sec, r, 0);
        lemma_ser_rules(table, st1, sec, r + 1);
        let (st2, rest) = ser_rules(table, st1, sec, r + 1);
        let rules = seq![rule] + rest;
        assert forall|a: int, b: int|
            0 <= a < rules.len() && 0 <= b < rules[a].len() implies (
        #[trigger] rules[a][b] matches SegModel::Use(t) ==> t < st2.out.len()) by {
            if a == 0 {
                assert(rule[b] matches SegModel::Use(t) ==> t < st1.out.len());
            } else {
                assert(rules[a] == rest[a - 1]);
                assert(rest[a - 1][b] matches SegModel::Use(t) ==> t < st2.out.len());
            }
        }
        assert(ser_grows(st, st2)) by {
            assert forall|s: int|
                0 <= s < st.index.len() && st.index[s] is Some implies #[trigger] st2.index[s]
                == st.index[s] by {
                assert(st1.index[s] == st.index[s]);
            }
            assert forall|k: int| 0 <= k < st.out.len() implies #[trigger] st2.out[k]
                == st.out[k] by {
                assert(st1.out[k] == st.out[k]);
            }
            assert forall|k: int| st.out.len() <= k < st2.out.len() implies (
            #[trigger] st2.out[k]) is Some by {
                if k < st1.out.len() {
                    assert(st1.out[k] is Some);
                    assert(st2.out[k] == st1.out[k]);
                }
            }
        }
    }
}

/// Writing a rule out from its `j`-th segment on keeps the state in order
/// and yields one segment for each, with references to places in use.
pub proof fn lemma_ser_rule(table: Seq<LinkedSectionModel>, st: SerState, sec: int, r: int, j: int)
    requires
        linked_table_wf(table),
        ser_inv(st, table.len()),
        0 <= sec < table.len(),
        0 <= r < table[sec].rules.len(),
        0 <= j <= table[sec].rules[r].len(),
    ensures
        ({
            let (st2, segs) = ser_rule(table, st, sec, r, j);
            &&& ser_inv(st2, table.len())
            &&& ser_grows(st, st2)
            &&& segs.len() == table[sec].rules[r].len() - j
            &&& forall|k: int|
                0 <= k < segs.len() ==> (#[trigger] segs[k] matches SegModel::Use(t) ==> t
                    < st2.out.len())
        }),
    decreases sec, 0nat, table[sec].rules[r].len() - j,
{
    if j < table[sec].rules[r].len() {
        let (st1, seg) = match table[sec].rules[r][j] {
            LinkedSegModel::Text(t) => (st, SegModel::Text(t)),
            LinkedSegModel::Use(t) => if t < sec {
                let (s, i) = ser_section(table, st, t as int);
                (s, SegModel::Use(i))
            } else {
                (st, SegModel::Use(0))
            },
        };
        if let LinkedSegModel::Use(t) = table[sec].rules[r][j] {
            assert(t < sec);
            lemma_ser_section(table, st, t as int);
        }
        lemma_ser_rule(table, st1, sec, r, j + 1);
        let (st2, rest) = ser_rule(table, st1, sec, r, j + 1);
        let segs = seq![seg] + rest;
        assert forall|k: int| 0 <= k < segs.len() implies (#[trigger] segs[k] matches SegModel::Use(
            t,
        ) ==> t < st2.out.len()) by {
            if k > 0 {
                assert(segs[k] == rest[k - 1]);
            }
        }
        assert(ser_grows(st, st2)) by {
            assert forall|s: int|
                0 <= s < st.index.len() && st.index[s] is Some implies #[trigger] st2.index[s]
                == st.index[s] by {
                assert(st1.index[s] == st.index[s]);
            }
            assert forall|k: int| 0 <= k < st.out.len() implies #[trigger] st2.out[k]
                == st.out[k] by {
                assert(st1.out[k] == st.out[k]);
            }
            assert forall|k: int| st.out.len() <= k < st2.out.len() implies (
            #[trigger] st2.out[k]) is Some by {
                if k < st1.out.len() {
                    assert(st1.out[k] is Some);
                    assert(st2.out[k] == st1.out[k]);
                }
            }
        }
    }
}

/// Whether a flat segment stands for a linked one: the same text, or a
/// reference to the flat index that the section referred to was given.
pub open spec fn seg_mirrors(flat: SegModel, linked: LinkedSegModel, index: Seq<Option<nat>>) -> bool {
    match linked {
        LinkedSegModel::Text(t) => flat == SegModel::Text(t),
        LinkedSegModel::Use(s) => s < index.len() && index[s as int] is Some && flat
            == SegModel::Use(index[s as int]->0),
    }
}

/// Whether the flat segments stand for the linked segments from `from` on.
pub open spec fn rule_mirrors(
    flat: Seq<SegModel>,
    linked: Seq<LinkedSegModel>,
    from: int,
    index: Seq<Option<nat>>,
) -> bool {
    &&& flat.len() == linked.len() - from
    &&& forall|j: int|
        0 <= j < flat.len() ==> seg_mirrors(#[trigger] flat[j], linked[from + j], index)
}

/// Whether the flat rules stand for the linked rules from `from` on.
pub open spec fn rules_mirror(
    flat: Seq<Seq<SegModel>>,
    linked: Seq<Seq<LinkedSegModel>>,
    from: int,
    index: Seq<Option<nat>>,
) -> bool {
    &&& flat.len() == linked.len() - from
    &&& forall|r: int|
        0 <= r < flat.len() ==> rule_mirrors(#[trigger] flat[r], linked[from + r], 0, index)
}

/// Whether a slot, once filled, holds the flat form of a linked section.
pub open spec fn slot_mirrors(
    slot: Option<SectionModel>,
    section: LinkedSectionModel,
    index: Seq<Option<nat>>,
) -> bool {
    slot matches Some(flat) ==> flat.decoder == flatten(section.search) && rules_mirror(
        flat.rules,
        section.rules,
        0,
        index,
    )
}

/// Whether some section was given the flat index `i`.
pub open spec fn has_owner(index: Seq<Option<nat>>, i: nat) -> bool {
    exists|s: int| 0 <= s < index.len() && #[trigger] index[s] == Some(i)
}

/// What the state of the flattening has to do with the linked table: every
/// slot belongs to one section, and holds the flat form of it once it is
/// filled.
pub open spec fn ser_mirrors(table: Seq<LinkedSectionModel>, st: SerState) -> bool {
    &&& forall|i: nat| i < st.out.len() ==> #[trigger] has_owner(st.index, i)
    &&& forall|a: int, b: int|
        0 <= a < st.index.len() && 0 <= b < st.index.len() && (#[trigger] st.index[a]) is Some
            && st.index[a] == (#[trigger] st.index[b]) ==> a == b
    &&& forall|s: int|
        0 <= s < table.len() && s < st.index.len() && (#[trigger] st.index[s]) is Some
            ==> slot_mirrors(st.out[st.index[s]->0 as int], table[s], st.index)
}

/// Whether `later` gives every section the index that `index` gives it.
pub open spec fn index_grows(index: Seq<Option<nat>>, later: Seq<Option<nat>>) -> bool {
    &&& index.len() == later.len()
    &&& forall|s: int| 0 <= s < index.len() && index[s] is Some ==> #[trigger] later[s] == index[s]
}

proof fn lemma_rule_mirrors_grows(
    flat: Seq<SegModel>,
    linked: Seq<LinkedSegModel>,
    from: int,
    index: Seq<Option<nat>>,
    later: Seq<Option<nat>>,
)
    requires
        rule_mirrors(flat, linked, from, index),
        index_grows(index, later),
    ensures
        rule_mirrors(flat, linked, from, later),
{
    assert forall|j: int| 0 <= j < flat.len() implies seg_mirrors(
        #[trigger] flat[j],
        linked[from + j],
        later,
    ) by {
        assert(seg_mirrors(flat[j], linked[from + j], index));
        if let LinkedSegModel::Use(s) = linked[from + j] {
            assert(later[s as int] == index[s as int]);
        }
    }
}

proof fn lemma_rules_mirror_grows(
    flat: Seq<Seq<SegModel>>,
    linked: Seq<Seq<LinkedSegModel>>,
    from: int,
    index: Seq<Option<nat>>,
    later: Seq<Option<nat>>,
)
    requires
        rules_mirror(flat, linked, from, index),
        index_grows(index, later),
    ensures
        rules_mirror(flat, linked, from, later),
{
    assert forall|r: int| 0 <= r < flat.len() implies rule_mirrors(
        #[trigger] flat[r],
        linked[from + r],
        0,
        later,
    ) by {
        lemma_rule_mirrors_grows(flat[r], linked[from + r], 0, index, later);
    }
}

/// Before the flattening begins, its state is in order.
pub proof fn lemma_ser_start(table: Seq<LinkedSectionModel>)
    ensures
        ser_inv(ser_start(table.len()), table.len()),
        ser_mirrors(table, ser_start(table.len())),
{
    lemma_count_start(table.len(), table.len());
}

/// Writing a section out keeps every written section the image of a linked
/// one.
pub proof fn lemma_ser_section_mirrors(table: Seq<LinkedSectionModel>, st: SerState, sec: int)
    requires
        linked_table_wf(table),
        ser_inv(st, table.len()),
        ser_mirrors(table, st),
        0 <= sec < table.len(),
    ensures
        ser_mirrors(table, ser_section(table, st, sec).0),
    decreases sec, 2nat, 0nat,
{
    if st.index[sec] is None {
        let i = st.out.len();
        let st1 = SerState { index: st.index.update(sec, Some(i)), out: st.out.push(None) };
        lemma_count_update(st.index, sec, i, table.len());
        assert(ser_inv(st1, table.len())) by {
            assert forall|k: int| 0 <= k < st1.out.len() implies slot_ok(
                #[trigger] st1.out[k],
                st1.out.len(),
            ) by {
                if k < st.out.len() {
                    assert(slot_ok(st.out[k], st.out.len()));
                }
            }
        }
        assert(index_grows(st.index, st1.index));
        assert(ser_mirrors(table, st1)) by {
            assert forall|k: nat| k < st1.out.len() implies #[trigger] has_owner(st1.index, k) by {
                if k < st.out.len() {
                    assert(has_owner(st.index, k));
                    let s = choose|s: int| 0 <= s < st.index.len() && #[trigger] st.index[s]
                        == Some(k);
                    assert(st1.index[s] == Some(k));
                } else {
                    assert(st1.index[sec] == Some(k));
                }
            }
            assert forall|s: int|
                0 <= s < table.len() && s < st1.index.len() && (#[trigger] st1.index[s]) is Some
                implies slot_mirrors(st1.out[st1.index[s]->0 as int], table[s], st1.index) by {
                if s != sec {
                    assert(st.index[s] is Some);
                    let k = st.index[s]->0;
                    assert(slot_mirrors(st.out[k as int], table[s], st.index));
                    if let Some(flat) = st.out[k as int] {
                        lemma_rules_mirror_grows(
                            flat.rules,
                            table[s].rules,
                            0,
                            st.index,
                            st1.index,
                        );
                    }
                }
            }
        }
        lemma_ser_rules(table, st1, sec, 0);
        lemma_ser_rules_mirrors(table, st1, sec, 0);
        let (st2, rules) = ser_rules(table, st1, sec, 0);
        let flat = SectionModel { rules, decoder: flatten(table[sec].search) };
        let st3 = SerState { index: st2.index, out: st2.out.update(i as int, Some(flat)) };
        assert(st2.index[sec] == st1.index[sec]);
        assert(ser_mirrors(table, st3)) by {
            assert forall|k: nat| k < st3.out.len() implies #[trigger] has_owner(st3.index, k) by {
                assert(has_owner(st2.index, k));
            }
            assert forall|s: int|
                0 <= s < table.len() && s < st3.index.len() && (#[trigger] st3.index[s]) is Some
                implies slot_mirrors(st3.out[st3.index[s]->0 as int], table[s], st3.index) by {
                if s != sec {
                    assert(st2.index[s] != st2.index[sec]);
                    assert(slot_mirrors(st2.out[st2.index[s]->0 as int], table[s], st2.index));
                }
            }
        }
    }
}

/// The rules written out are the image of the linked rules, and every
/// written section stays the image of a linked one.
pub proof fn lemma_ser_rules_mirrors(table: Seq<LinkedSectionModel>, st: SerState, sec: int, r: int)
    requires
        linked_table_wf(table),
        ser_inv(st, table.len()),
        ser_mirrors(table, st),
        0 <= sec < table.len(),
        0 <= r <= table[sec].rules.len(),
    ensures
        ser_mirrors(table, ser_rules(table, st, sec, r).0),
        rules_mirror(
            ser_rules(table, st, sec, r).1,
            table[sec].rules,
            r,
            ser_rules(table, st, sec, r).0.index,
        ),
    decreases sec, 1nat, table[sec].rules.len() - r,
{
    if r < table[sec].rules.len() {
        lemma_ser_rule(table, st, sec, r, 0);
        lemma_ser_rule_mirrors(table, st, sec, r, 0);
        let (st1, rule) = ser_rule(table, st, sec, r, 0);
        lemma_ser_rules(table, st1, sec, r + 1);
        lemma_ser_rules_mirrors(table, st1, sec, r + 1);
        let (st2, rest) = ser_rules(table, st1, sec, r + 1);
        let rules = seq![rule] + rest;
        lemma_rule_mirrors_grows(rule, table[sec].rules[r], 0, st1.index, st2.index);
        assert forall|a: int| 0 <= a < rules.len() implies rule_mirrors(
            #[trigger] rules[a],
            table[sec].rules[r + a],
            0,
            st2.index,
        ) by {
            if a > 0 {
                assert(rules[a] == rest[a - 1]);
                assert(rule_mirrors(rest[a - 1], table[sec].rules[r + 1 + (a - 1)], 0, st2.index));
            }
        }
    }
}

/// The segments written out are the image of the linked segments, and
/// every written section stays the image of a linked one.
pub proof fn lemma_ser_rule_mirrors(
    table: Seq<LinkedSectionModel>,
    st: SerState,
    sec: int,
    r: int,
    j: int,
)
    requires
        linked_table_wf(table),
        ser_inv(st, table.len()),
        ser_mirrors(table, st),
        0 <= sec < table.len(),
        0 <= r < table[sec].rules.len(),
        0 <= j <= table[sec].rules[r].len(),
    ensures
        ser_mirrors(table, ser_rule(table, st, sec, r, j).0),
        rule_mirrors(
            ser_rule(table, st, sec, r, j).1,
            table[sec].rules[r],
            j,
            ser_rule(table, st, sec, r, j).0.index,
        ),
    decreases sec, 0nat, table[sec].rules[r].len() - j,
{
    let linked = table[sec].rules[r];
    if j < linked.len() {
        let (st1, seg) = match linked[j] {
            LinkedSegModel::Text(t) => (st, SegModel::Text(t)),
            LinkedSegModel::Use(t) => if t < sec {
                let (s, i) = ser_section(table, st, t as int);
                (s, SegModel::Use(i))
            } else {
                (st, SegModel::Use(0))
            },
        };
        if let LinkedSegModel::Use(t) = linked[j] {
            assert(t < sec);
            lemma_ser_section(table, st, t as int);
            lemma_ser_section_mirrors(table, st, t as int);
        }
        assert(seg_mirrors(seg, linked[j], st1.index));
        lemma_ser_rule(table, st1, sec, r, j + 1);
        lemma_ser_rule_mirrors(table, st1, sec, r, j + 1);
        let (st2, rest) = ser_rule(table, st1, sec, r, j + 1);
        let segs = seq![seg] + rest;
        assert forall|k: int| 0 <= k < segs.len() implies seg_mirrors(
            #[trigger] segs[k],
            linked[j + k],
            st2.index,
        ) by {
            if k > 0 {
                assert(segs[k] == rest[k - 1]);
                assert(seg_mirrors(rest[k - 1], linked[j + 1 + (k - 1)], st2.index));
            } else {
                if let LinkedSegModel::Use(t) = linked[j] {
                    assert(st2.index[t as int] == st1.index[t as int]);
                }
            }
        }
    }
}

/// The flat table of a linked grammar can be worked with: every section has
/// a rule, every reference names a section of the table, and the first
/// section is the one flattened from `entry`.
pub proof fn lemma_serialize_is_wf(table: Seq<LinkedSectionModel>, entry: int)
    requires
        linked_table_wf(table),
        0 <= entry < table.len(),
    ensures
        table_wf(serialize_model(table, entry)),
        serialize_model(table, entry).len() <= table.len(),
        ser_section(table, ser_start(table.len()), entry).1 == 0,
        forall|i: int|
            0 <= i < serialize_model(table, entry).len() ==> (#[trigger] ser_section(
                table,
                ser_start(table.len()),
                entry,
            ).0.out[i]) is Some,
{
    let st0 = ser_start(table.len());
    lemma_count_start(table.len(), table.len());
    assert(ser_inv(st0, table.len()));
    lemma_ser_section(table, st0, entry);
    let st = ser_section(table, st0, entry).0;
    lemma_count_bound(st.index, table.len());
    let flat = serialize_model(table, entry);
    assert forall|i: int| 0 <= i < flat.len() implies (#[trigger] flat[i]).rules.len() > 0
        && rules_in_range(flat[i].rules, flat.len()) && layer_in_range(
        flat[i].decoder,
        flat[i].rules.len(),
    ) by {
        assert(st.out[i] is Some);
        assert(slot_ok(st.out[i], st.out.len()));
    }
}

/// The automaton of a trie.
pub fn serialize_trie(trie: &Trie) -> (l: Layer)
    ensures
        l@ == flatten(trie@),
    decreases trie_size(trie@),
{
    match trie {
        Trie::Branch(b) => {
            let mut kids: Vec<(char, Layer)> = Vec::new();
            let mut i: usize = 0;
            while i < b.len()
                invariant
                    i <= b.len(),
                    kids@.len() == i,
                    trie@ == TrieModel::Branch(kids_model(b@)),
                    layer_kids_model(kids@) == flatten_kids(kids_model(b@)).take(i as int),
                decreases b.len() - i,
            {
                proof {
                    lemma_kid_is_smaller(kids_model(b@), i as int);
                }
                let ghost done = kids@;
                let kid = serialize_trie(&b[i].1);
                kids.push((b[i].0, kid));
                proof {
                    let goal = flatten_kids(kids_model(b@));
                    assert(kids_model(b@)[i as int] == (b@[i as int].0, b@[i as int].1@));
                    assert(goal[i as int] == (b@[i as int].0, kid@));
                    assert forall|k: int| 0 <= k < i implies #[trigger] layer_kids_model(kids@)[k]
                        == goal[k] by {
                        assert(layer_kids_model(done)[k] == goal.take(i as int)[k]);
                        assert(kids@[k] == done[k]);
                    }
                }
                i += 1;
                assert(layer_kids_model(kids@) =~= flatten_kids(kids_model(b@)).take(i as int));
            }
            assert(layer_kids_model(kids@) =~= flatten_kids(kids_model(b@)));
            Layer::Branch(kids)
        },
        Trie::Leaf { value, rest_nodes } => Layer::Certain(*value),
    }
}

/// The model of the places recorded for the sections.
pub open spec fn index_view(index: Seq<Option<u32>>) -> Seq<Option<nat>> {
    Seq::new(
        index.len(),
        |s: int|
            match index[s] {
                Some(i) => Some(i as nat),
                None => None,
            },
    )
}

/// The model of the places of the flat table, filled or not.
pub open spec fn slots_view(out: Seq<Option<Section>>) -> Seq<Option<SectionModel>> {
    Seq::new(
        out.len(),
        |i: int|
            match out[i] {
                Some(s) => Some(s@),
                None => None,
            },
    )
}

/// The model of the state: the places recorded and the table so far.
pub open spec fn state_view(index: Seq<Option<u32>>, out: Seq<Option<Section>>) -> SerState {
    SerState { index: index_view(index), out: slots_view(out) }
}

/// Flattens the section `sec` of `table`, and every section it reaches that
/// has no index yet, into `vec`; returns the index of `sec` in `vec`.
/// `index` holds, for each section of `table`, its index in `vec` once it
/// has one.
pub fn serialize_sec(
    table: &Vec<LinkedSection>,
    index: &mut Vec<Option<u32>>,
    vec: &mut Vec<Option<Section>>,
    sec: usize,
) -> (r: u32)
    requires
        linked_table_wf(linked_table_view(table@)),
        sec < table@.len() <= u32::MAX,
        ser_inv(state_view(old(index)@, old(vec)@), table@.len()),
    ensures
        (state_view(final(index)@, final(vec)@), r as nat) == ser_section(
            linked_table_view(table@),
            state_view(old(index)@, old(vec)@),
            sec as int,
        ),
    decreases sec,
{
    let ghost tv = linked_table_view(table@);
    let ghost st = state_view(index@, vec@);
    if let Some(i) = index[sec] {
        return i;
    }
    proof {
        lemma_count_bound(st.index, table@.len());
        lemma_count_update(st.index, sec as int, st.out.len(), table@.len());
    }
    let insert_index: u32 = vec.len() as u32;
    index[sec] = Some(insert_index);
    vec.push(None);
    let ghost st1 = SerState {
        index: st.index.update(sec as int, Some(insert_index as nat)),
        out: st.out.push(None),
    };
    assert(state_view(index@, vec@).index =~= st1.index);
    assert(state_view(index@, vec@).out =~= st1.out);
    proof {
        assert(ser_inv(st1, table@.len())) by {
            assert forall|k: int| 0 <= k < st1.out.len() implies slot_ok(
                #[trigger] st1.out[k],
                st1.out.len(),
            ) by {
                if k < st.out.len() {
                    assert(slot_ok(st.out[k], st.out.len()));
                }
            }
        }
    }
    let section = &table[sec];
    let ghost goal = ser_rules(tv, st1, sec as int, 0);
    let mut rules: Vec<Vec<Seg>> = Vec::new();
    let mut r: usize = 0;
    while r < section.rules.len()
        invariant
            r <= section.rules.len(),
            section == table@[sec as int],
            tv == linked_table_view(table@),
            linked_table_wf(tv),
            sec < table@.len() <= u32::MAX,
            ser_inv(state_view(index@, vec@), table@.len()),
            ({
                let (st2, rest) = ser_rules(tv, state_view(index@, vec@), sec as int, r as int);
                goal == (st2, rules_view(rules@) + rest)
            }),
        decreases section.rules.len() - r,
    {
        let rule = &section.rules[r];
        assert(tv[sec as int].rules[r as int].len() == rule@.len());
        let ghost rule_goal = ser_rule(tv, state_view(index@, vec@), sec as int, r as int, 0);
        let mut segs: Vec<Seg> = Vec::new();
        let mut j: usize = 0;
        while j < rule.len()
            invariant
                j <= rule.len(),
                r < section.rules.len(),
                rule == section.rules@[r as int],
                section == table@[sec as int],
                tv == linked_table_view(table@),
                linked_table_wf(tv),
                sec < table@.len() <= u32::MAX,
                ser_inv(state_view(index@, vec@), table@.len()),
                ({
                    let (st2, rest) = ser_rule(
                        tv,
                        state_view(index@, vec@),
                        sec as int,
                        r as int,
                        j as int,
                    );
                    rule_goal == (st2, rule_view(segs@) + rest)
                }),
            decreases rule.len() - j,
        {
            let ghost cur = state_view(index@, vec@);
            let ghost done = rule_view(segs@);
            assert(tv[sec as int].rules[r as int][j as int] == rule@[j as int]@);
            let seg = match &rule[j] {
                LinkedSeg::Text(t) => Seg::Text(t.clone()),
                LinkedSeg::Use(target) => {
                    assert(*target < sec) by {
                        assert(tv[sec as int].rules[r as int][j as int] matches LinkedSegModel::Use(
                            t,
                        ) ==> t < sec);
                    }
                    proof {
                        lemma_ser_section(tv, cur, *target as int);
                    }
                    Seg::Use(serialize_sec(table, index, vec, *target))
                },
            };
            segs.push(seg);
            proof {
                let next = state_view(index@, vec@);
                assert(rule_view(segs@) =~= done.push(seg@));
                let (st2, rest) = ser_rule(tv, next, sec as int, r as int, j + 1);
                assert(done + (seq![seg@] + rest) =~= done.push(seg@) + rest);
            }
            j += 1;
        }
        assert(rule_view(segs@) + Seq::<SegModel>::empty() =~= rule_view(segs@));
        proof {
            lemma_ser_rule(tv, state_view(index@, vec@), sec as int, r as int, rule.len() as int);
        }
        let ghost done = rules_view(rules@);
        let ghost rule_model = rule_view(segs@);
        rules.push(segs);
        proof {
            assert(rules_view(rules@) =~= done.push(rule_model));
            let (st2, rest) = ser_rules(tv, state_view(index@, vec@), sec as int, r + 1);
            assert(done + (seq![rule_model] + rest) =~= done.push(rule_model) + rest);
        }
        r += 1;
    }
    assert(rules_view(rules@) + Seq::<Seq<SegModel>>::empty() =~= rules_view(rules@));
    proof {
        lemma_ser_rules(tv, st1, sec as int, 0);
    }
    let ghost st2 = state_view(index@, vec@);
    let flat = Section { encoder: rules, decoder: serialize_trie(&section.search) };
    vec[insert_index as usize] = Some(flat);
    assert(state_view(index@, vec@).out =~= st2.out.update(insert_index as int, Some(flat@)));
    assert(state_view(index@, vec@).index =~= st2.index);
    insert_index
}

/// Flattens a linked grammar: the sections that can be reached from the
/// section at `entry`, numbered in the order in which a walk from it, depth
/// first and through the rules in order, meets them; `entry` comes first.
pub fn serialize(linked: &SectionTable, entry: usize) -> (r: Vec<Section>)
    requires
        linked_table_wf(linked@),
        entry < linked@.len() <= u32::MAX,
        linked@[entry as int].name == "entry"@,
    ensures
        table_view(r@) == serialize_model(linked@, entry as int),
        table_wf(table_view(r@)),
{
    let table = &linked.table;
    let mut index: Vec<Option<u32>> = Vec::new();
    let mut n: usize = 0;
    while n < table.len()
        invariant
            n <= table.len(),
            index@ == Seq::new(n as nat, |i: int| None::<u32>),
        decreases table.len() - n,
    {
        index.push(None);
        n += 1;
        assert(index@ =~= Seq::new(n as nat, |i: int| None::<u32>));
    }
    let mut vec: Vec<Option<Section>> = Vec::new();
    assert(state_view(index@, vec@).index =~= ser_start(table@.len()).index);
    assert(state_view(index@, vec@).out =~= ser_start(table@.len()).out);
    proof {
        lemma_count_start(table@.len(), table@.len());
        lemma_serialize_is_wf(linked@, entry as int);
    }
    let _ = serialize_sec(table, &mut index, &mut vec, entry);
    let ghost st = state_view(index@, vec@);
    let mut out: Vec<Section> = Vec::new();
    let mut slots = vec;
    let ghost all = slots@;
    while slots.len() > 0
        invariant
            slots@ == all.take(slots@.len() as int),
            st.out == slots_view(all),
            forall|i: int| 0 <= i < all.len() ==> (#[trigger] st.out[i]) is Some,
            out@.len() + slots@.len() == all.len(),
            forall|i: int|
                0 <= i < out@.len() ==> (#[trigger] out@[i])@ == st.out[all.len() - 1 - i]->0,
        decreases slots@.len(),
    {
        let ghost k = slots@.len() - 1;
        assert(st.out[k] is Some);
        match slots.pop() {
            Some(Some(section)) => {
                out.push(section);
            },
            _ => {},
        }
        assert(slots@ =~= all.take(slots@.len() as int));
    }
    let mut r: Vec<Section> = Vec::new();
    while out.len() > 0
        invariant
            r@.len() + out@.len() == all.len(),
            forall|i: int|
                0 <= i < out@.len() ==> (#[trigger] out@[i])@ == st.out[all.len() - 1 - i]->0,
            forall|i: int| 0 <= i < r@.len() ==> (#[trigger] r@[i])@ == st.out[i]->0,
        decreases out@.len(),
    {
        match out.pop() {
            Some(section) => {
                r.push(section);
            },
            None => {},
        }
    }
    assert(table_view(r@) =~= serialize_model(linked@, entry as int));
    r
}

} // verus!

//! Why an automaton of a compiled table never has a character twice where
//! it branches.

use super::link::{linked_table_wf, rules_resolved, table_tries, trie_rules, LinkedSectionModel};
use super::searcher::{
    as_table, compile_model, expand_rest, fan_out, insert_at_model, insert_fan, insert_rule,
    insert_rules, lemma_kid_is_smaller, lemma_stack_size_concat, lemma_stack_size_drop_last,
    lemma_stack_size_push, stack_size, trie_size, SearchSegModel, TrieModel,
};
use super::serialize::{
    flatten, flatten_kids, has_owner, lemma_ser_section, lemma_ser_section_mirrors,
    lemma_ser_start, lemma_serialize_is_wf, ser_section, ser_start, serialize_model,
    slot_mirrors,
};
use super::soundness::{flat_of, ser_done};
use crate::syntax::{
    find_key, keys_differ, layer_is_keyed, lemma_find_key, lemma_layers_are_keyed_intro,
    table_is_keyed,
};
use vstd::prelude::*;

verus! {

/// Whether a trie has each character once wherever it branches, and so has
/// every trie that one of its leaves owes.
pub open spec fn trie_keyed(t: TrieModel) -> bool
    decreases t, 0nat,
{
    match t {
        TrieModel::Branch(kids) => keys_differ(kids) && kids_keyed(kids, kids.len()),
        TrieModel::Leaf { value, rest } => segs_keyed(rest, rest.len()),
    }
}

/// Whether the tries under the first `m` branches are keyed.
pub open spec fn kids_keyed(kids: Seq<(char, TrieModel)>, m: nat) -> bool
    decreases kids, m,
{
    if 0 < m <= kids.len() {
        kids_keyed(kids, (m - 1) as nat) && trie_keyed(kids[m - 1].1)
    } else {
        true
    }
}

/// Whether the trie that a segment refers to, if it refers to one, is keyed.
pub open spec fn seg_keyed(s: SearchSegModel) -> bool
    decreases s, 0nat,
{
    match s {
        SearchSegModel::Text(_) => true,
        SearchSegModel::Use(u) => trie_keyed(u),
    }
}

/// Whether the first `m` segments are keyed.
pub open spec fn segs_keyed(segs: Seq<SearchSegModel>, m: nat) -> bool
    decreases segs, m,
{
    if 0 < m <= segs.len() {
        segs_keyed(segs, (m - 1) as nat) && seg_keyed(segs[m - 1])
    } else {
        true
    }
}

/// Whether every segment of a stack is keyed.
pub open spec fn stack_keyed(segs: Seq<SearchSegModel>) -> bool {
    segs_keyed(segs, segs.len())
}

proof fn lemma_segs_keyed_index(segs: Seq<SearchSegModel>, m: nat, i: int)
    requires
        segs_keyed(segs, m),
        0 <= i < m <= segs.len(),
    ensures
        seg_keyed(segs[i]),
    decreases m,
{
    if i < m - 1 {
        lemma_segs_keyed_index(segs, (m - 1) as nat, i);
    }
}

proof fn lemma_segs_keyed_intro(segs: Seq<SearchSegModel>, m: nat)
    requires
        m <= segs.len(),
        forall|i: int| 0 <= i < m ==> seg_keyed(#[trigger] segs[i]),
    ensures
        segs_keyed(segs, m),
    decreases m,
{
    if m > 0 {
        lemma_segs_keyed_intro(segs, (m - 1) as nat);
    }
}

proof fn lemma_kids_keyed_index(kids: Seq<(char, TrieModel)>, m: nat, i: int)
    requires
        kids_keyed(kids, m),
        0 <= i < m <= kids.len(),
    ensures
        trie_keyed(kids[i].1),
    decreases m,
{
    if i < m - 1 {
        lemma_kids_keyed_index(kids, (m - 1) as nat, i);
    }
}

proof fn lemma_kids_keyed_intro(kids: Seq<(char, TrieModel)>, m: nat)
    requires
        m <= kids.len(),
        forall|i: int| 0 <= i < m ==> trie_keyed((#[trigger] kids[i]).1),
    ensures
        kids_keyed(kids, m),
    decreases m,
{
    if m > 0 {
        lemma_kids_keyed_intro(kids, (m - 1) as nat);
    }
}

/// A stack is keyed just when each of its segments is.
proof fn lemma_stack_keyed(segs: Seq<SearchSegModel>)
    ensures
        stack_keyed(segs) <==> forall|i: int| 0 <= i < segs.len() ==> seg_keyed(#[trigger] segs[i]),
{
    if stack_keyed(segs) {
        assert forall|i: int| 0 <= i < segs.len() implies seg_keyed(#[trigger] segs[i]) by {
            lemma_segs_keyed_index(segs, segs.len(), i);
        }
    }
    if forall|i: int| 0 <= i < segs.len() ==> seg_keyed(#[trigger] segs[i]) {
        lemma_segs_keyed_intro(segs, segs.len());
    }
}

/// A branch is keyed just when its characters differ and the trie under
/// each is keyed.
proof fn lemma_branch_keyed(kids: Seq<(char, TrieModel)>)
    ensures
        trie_keyed(TrieModel::Branch(kids)) <==> keys_differ(kids) && forall|i: int|
            0 <= i < kids.len() ==> trie_keyed((#[trigger] kids[i]).1),
{
    if kids_keyed(kids, kids.len()) {
        assert forall|i: int| 0 <= i < kids.len() implies trie_keyed((#[trigger] kids[i]).1) by {
            lemma_kids_keyed_index(kids, kids.len(), i);
        }
    }
    if forall|i: int| 0 <= i < kids.len() ==> trie_keyed((#[trigger] kids[i]).1) {
        lemma_kids_keyed_intro(kids, kids.len());
    }
}

proof fn lemma_stack_keyed_push(segs: Seq<SearchSegModel>, s: SearchSegModel)
    requires
        stack_keyed(segs),
        seg_keyed(s),
    ensures
        stack_keyed(segs.push(s)),
{
    lemma_stack_keyed(segs);
    lemma_stack_keyed(segs.push(s));
    assert forall|i: int| 0 <= i < segs.push(s).len() implies seg_keyed(
        #[trigger] segs.push(s)[i],
    ) by {
        if i < segs.len() {
            assert(segs.push(s)[i] == segs[i]);
        }
    }
}

proof fn lemma_stack_keyed_drop_last(segs: Seq<SearchSegModel>)
    requires
        stack_keyed(segs),
        segs.len() > 0,
    ensures
        stack_keyed(segs.drop_last()),
        seg_keyed(segs.last()),
{
    lemma_stack_keyed(segs);
    lemma_stack_keyed(segs.drop_last());
    assert forall|i: int| 0 <= i < segs.drop_last().len() implies seg_keyed(
        #[trigger] segs.drop_last()[i],
    ) by {
        assert(segs.drop_last()[i] == segs[i]);
    }
    assert(seg_keyed(segs[segs.len() - 1]));
}

proof fn lemma_stack_keyed_concat(a: Seq<SearchSegModel>, b: Seq<SearchSegModel>)
    requires
        stack_keyed(a),
        stack_keyed(b),
    ensures
        stack_keyed(a + b),
{
    lemma_stack_keyed(a);
    lemma_stack_keyed(b);
    lemma_stack_keyed(a + b);
    assert forall|i: int| 0 <= i < (a + b).len() implies seg_keyed(#[trigger] (a + b)[i]) by {
        if i < a.len() {
            assert((a + b)[i] == a[i]);
        } else {
            assert((a + b)[i] == b[i - a.len()]);
        }
    }
}

proof fn lemma_stack_keyed_reverse(segs: Seq<SearchSegModel>)
    requires
        stack_keyed(segs),
    ensures
        stack_keyed(segs.reverse()),
{
    lemma_stack_keyed(segs);
    lemma_stack_keyed(segs.reverse());
    assert forall|i: int| 0 <= i < segs.reverse().len() implies seg_keyed(
        #[trigger] segs.reverse()[i],
    ) by {
        assert(segs.reverse()[i] == segs[segs.len() - 1 - i]);
    }
}

/// The branches that a leaf with a keyed stack is expanded to are keyed.
proof fn lemma_expand_keyed(value: nat, rest: Seq<SearchSegModel>)
    requires
        stack_keyed(rest),
    ensures
        expand_rest(value, rest) matches Some(kids) ==> trie_keyed(TrieModel::Branch(kids)),
    decreases stack_size(rest),
{
    if rest.len() > 0 {
        let below = rest.drop_last();
        lemma_stack_size_drop_last(rest);
        lemma_stack_keyed_drop_last(rest);
        match rest.last() {
            SearchSegModel::Text(s) => {
                if s.len() == 0 {
                    lemma_expand_keyed(value, below);
                } else {
                    let left = SearchSegModel::Text(s.drop_first());
                    let kids = seq![(s[0], TrieModel::Leaf { value, rest: below.push(left) })];
                    lemma_stack_keyed_push(below, left);
                    lemma_branch_keyed(kids);
                }
            },
            SearchSegModel::Use(u) => {
                match u {
                    TrieModel::Leaf { value: _, rest: inner } => {
                        lemma_stack_size_concat(below, inner);
                        lemma_stack_keyed_concat(below, inner);
                        lemma_expand_keyed(value, below + inner);
                    },
                    TrieModel::Branch(sub) => {
                        let kids = fan_out(value, below, sub);
                        lemma_branch_keyed(sub);
                        lemma_branch_keyed(kids);
                        assert forall|i: int| 0 <= i < kids.len() implies trie_keyed(
                            (#[trigger] kids[i]).1,
                        ) by {
                            assert(trie_keyed(sub[i].1));
                            lemma_stack_keyed_push(below, SearchSegModel::Use(sub[i].1));
                        }
                        assert forall|i: int, j: int| 0 <= i < j < kids.len() implies (
                        #[trigger] kids[i]).0 != (#[trigger] kids[j]).0 by {
                            assert(sub[i].0 != sub[j].0);
                        }
                    },
                }
            },
        }
    }
}

/// The branches of a keyed trie are keyed, also where a leaf is expanded to
/// give them.
proof fn lemma_as_table_keyed(t: TrieModel)
    requires
        trie_keyed(t),
    ensures
        as_table(t) matches Some(kids) ==> trie_keyed(TrieModel::Branch(kids)),
{
    if let TrieModel::Leaf { value, rest } = t {
        lemma_expand_keyed(value, rest);
    }
}

/// A keyed trie stays keyed when a rule with a keyed stack is added to it.
proof fn lemma_insert_rule_keyed(t: TrieModel, buf: Seq<SearchSegModel>, value: nat)
    requires
        trie_keyed(t),
        stack_keyed(buf),
    ensures
        insert_rule(t, buf, value) matches Ok(t2) ==> trie_keyed(t2),
    decreases stack_size(buf), 2nat, 0nat,
{
    if buf.len() > 0 {
        let below = buf.drop_last();
        lemma_stack_size_drop_last(buf);
        lemma_stack_keyed_drop_last(buf);
        match buf.last() {
            SearchSegModel::Text(s) => {
                if s.len() == 0 {
                    lemma_insert_rule_keyed(t, below, value);
                } else {
                    let left = SearchSegModel::Text(s.drop_first());
                    lemma_stack_size_push(below, left);
                    lemma_stack_keyed_push(below, left);
                    lemma_insert_at_keyed(t, s[0], below.push(left), value);
                }
            },
            SearchSegModel::Use(u) => {
                match u {
                    TrieModel::Leaf { value: _, rest: inner } => {
                        lemma_stack_size_concat(below, inner);
                        lemma_stack_keyed_concat(below, inner);
                        lemma_insert_rule_keyed(t, below + inner, value);
                    },
                    TrieModel::Branch(kids) => {
                        lemma_insert_fan_keyed(t, below, kids, 0, value);
                    },
                }
            },
        }
    }
}

/// A keyed trie stays keyed when a rule is added below one character.
proof fn lemma_insert_at_keyed(t: TrieModel, c: char, buf: Seq<SearchSegModel>, value: nat)
    requires
        trie_keyed(t),
        stack_keyed(buf),
    ensures
        insert_at_model(t, c, buf, value) matches Ok(t2) ==> trie_keyed(t2),
    decreases stack_size(buf), 3nat, 0nat,
{
    lemma_as_table_keyed(t);
    if let Some(kids) = as_table(t) {
        lemma_branch_keyed(kids);
        lemma_find_key(kids, c, 0);
        match find_key(kids, c, 0) {
            None => {
                let grown = kids.push((c, TrieModel::Leaf { value, rest: buf }));
                lemma_branch_keyed(grown);
                assert forall|i: int| 0 <= i < grown.len() implies trie_keyed(
                    (#[trigger] grown[i]).1,
                ) by {
                    if i < kids.len() {
                        assert(trie_keyed(kids[i].1));
                    }
                }
                assert forall|i: int, j: int| 0 <= i < j < grown.len() implies (
                #[trigger] grown[i]).0 != (#[trigger] grown[j]).0 by {
                    if j < kids.len() {
                        assert(kids[i].0 != kids[j].0);
                    } else {
                        assert(kids[i].0 != c);
                    }
                }
            },
            Some(k) => {
                assert(trie_keyed(kids[k].1));
                lemma_insert_rule_keyed(kids[k].1, buf, value);
                if let Ok(kid) = insert_rule(kids[k].1, buf, value) {
                    let changed = kids.update(k, (c, kid));
                    lemma_branch_keyed(changed);
                    assert forall|i: int| 0 <= i < changed.len() implies trie_keyed(
                        (#[trigger] changed[i]).1,
                    ) by {
                        if i != k {
                            assert(trie_keyed(kids[i].1));
                        }
                    }
                    assert forall|i: int, j: int| 0 <= i < j < changed.len() implies (
                    #[trigger] changed[i]).0 != (#[trigger] changed[j]).0 by {
                        assert(kids[i].0 != kids[j].0);
                    }
                }
            },
        }
    }
}

/// A keyed trie stays keyed when a rule is added below each character of
/// a keyed branch.
proof fn lemma_insert_fan_keyed(
    t: TrieModel,
    below: Seq<SearchSegModel>,
    kids: Seq<(char, TrieModel)>,
    i: int,
    value: nat,
)
    requires
        trie_keyed(t),
        stack_keyed(below),
        trie_keyed(TrieModel::Branch(kids)),
    ensures
        insert_fan(t, below, kids, i, value) matches Ok(t2) ==> trie_keyed(t2),
    decreases stack_size(below) + trie_size(TrieModel::Branch(kids)), 1nat, kids.len() - i,
{
    if 0 <= i < kids.len() {
        let top = SearchSegModel::Use(kids[i].1);
        lemma_kid_is_smaller(kids, i);
        lemma_stack_size_push(below, top);
        lemma_branch_keyed(kids);
        assert(trie_keyed(kids[i].1));
        lemma_stack_keyed_push(below, top);
        lemma_insert_at_keyed(t, kids[i].0, below.push(top), value);
        if let Ok(t2) = insert_at_model(t, kids[i].0, below.push(top), value) {
            lemma_insert_fan_keyed(t2, below, kids, i + 1, value);
        }
    }
}

proof fn lemma_insert_rules_keyed(t: TrieModel, rules: Seq<Seq<SearchSegModel>>, i: int)
    requires
        0 <= i,
        trie_keyed(t),
        forall|r: int| 0 <= r < rules.len() ==> stack_keyed(#[trigger] rules[r]),
    ensures
        insert_rules(t, rules, i) matches Ok(t2) ==> trie_keyed(t2),
    decreases rules.len() - i,
{
    if i < rules.len() {
        lemma_stack_keyed_reverse(rules[i]);
        lemma_insert_rule_keyed(t, rules[i].reverse(), i as nat);
        if let Ok(t2) = insert_rule(t, rules[i].reverse(), i as nat) {
            lemma_insert_rules_keyed(t2, rules, i + 1);
        }
    }
}

/// The trie of a section is keyed where the tries that its rules refer to
/// are.
pub proof fn lemma_compile_keyed(rules: Seq<Seq<SearchSegModel>>)
    requires
        forall|r: int| 0 <= r < rules.len() ==> stack_keyed(#[trigger] rules[r]),
    ensures
        compile_model(rules) matches Ok(t) ==> trie_keyed(t),
{
    let empty = TrieModel::Branch(Seq::empty());
    lemma_branch_keyed(Seq::empty());
    lemma_insert_rules_keyed(empty, rules, 0);
}

/// The trie of every linked section is keyed.
pub proof fn lemma_linked_trie_keyed(table: Seq<LinkedSectionModel>, s: int)
    requires
        linked_table_wf(table),
        0 <= s < table.len(),
    ensures
        trie_keyed(table[s].search),
    decreases s,
{
    let tries = table_tries(table.take(s));
    let rules = trie_rules(table[s].rules, tries);
    assert(rules_resolved(table[s].rules, s as nat));
    assert forall|r: int| 0 <= r < rules.len() implies stack_keyed(#[trigger] rules[r]) by {
        lemma_stack_keyed(rules[r]);
        assert forall|j: int| 0 <= j < rules[r].len() implies seg_keyed(#[trigger] rules[r][j]) by {
            if let super::link::LinkedSegModel::Use(t) = table[s].rules[r][j] {
                assert(t < s);
                assert(tries[t as int] == table[t as int].search);
                lemma_linked_trie_keyed(table, t as int);
            }
        }
    }
    lemma_compile_keyed(rules);
}

/// The automaton of a keyed trie has each character once wherever it
/// branches.
pub proof fn lemma_flatten_keyed(t: TrieModel)
    requires
        trie_keyed(t),
    ensures
        layer_is_keyed(flatten(t)),
    decreases trie_size(t),
{
    if let TrieModel::Branch(kids) = t {
        let flat = flatten_kids(kids);
        lemma_branch_keyed(kids);
        assert forall|i: int| 0 <= i < flat.len() implies layer_is_keyed((#[trigger] flat[i]).1) by {
            lemma_kid_is_smaller(kids, i);
            assert(trie_keyed(kids[i].1));
            lemma_flatten_keyed(kids[i].1);
        }
        lemma_layers_are_keyed_intro(flat, flat.len());
        assert forall|i: int, j: int| 0 <= i < j < flat.len() implies (#[trigger] flat[i]).0 != (
        #[trigger] flat[j]).0 by {
            assert(kids[i].0 != kids[j].0);
        }
    }
}

/// In the flat table of a linked grammar every automaton has each character
/// once wherever it branches.
pub proof fn lemma_serialize_is_keyed(table: Seq<LinkedSectionModel>, entry: int)
    requires
        linked_table_wf(table),
        0 <= entry < table.len(),
    ensures
        table_is_keyed(serialize_model(table, entry)),
{
    let start = ser_start(table.len());
    let st = ser_section(table, start, entry).0;
    let flat = serialize_model(table, entry);
    lemma_ser_start(table);
    lemma_ser_section(table, start, entry);
    lemma_ser_section_mirrors(table, start, entry);
    lemma_serialize_is_wf(table, entry);
    assert(flat =~= flat_of(st));
    assert(ser_done(table, st));
    assert forall|f: int| 0 <= f < flat.len() implies layer_is_keyed((#[trigger] flat[f]).decoder) by {
        assert(has_owner(st.index, f as nat));
        let s = choose|s: int| 0 <= s < st.index.len() && #[trigger] st.index[s] == Some(f as nat);
        assert(slot_mirrors(st.out[f], table[s], st.index));
        lemma_linked_trie_keyed(table, s);
        lemma_flatten_keyed(table[s].search);
    }
}

} // verus!

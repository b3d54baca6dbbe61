//! Why the automata of a compiled table tell its rules apart.

use super::language::{
    covered, in_stack, lemma_covered_is_in_trie, lemma_find_key_same_keys, lemma_in_stack_push_text,
    lemma_in_stack_push_use, lemma_insert_rules_cover,
};
use super::link::{
    linked_table_wf, rules_resolved, table_tries, trie_rule, trie_rules, trie_seg,
    LinkedSectionModel, LinkedSegModel,
};

use super::searcher::{
    compile_model as trie_of, insert_at_model, insert_fan, insert_rule, insert_rules,
    lemma_stack_size_concat, lemma_stack_size_drop_last, stack_size, Ambiguity, SearchSegModel,
    TrieModel,
};
use super::serialize::{
    flatten, flatten_kids, has_owner, lemma_ser_section, lemma_ser_section_mirrors, lemma_ser_start,
    lemma_serialize_is_wf, rule_mirrors, seg_mirrors, ser_inv, ser_mirrors, ser_section, ser_start,
    serialize_model, slot_mirrors, slot_ok, SerState,
};
use crate::decoder::{
    lemma_match_layer_in_range, match_layer, parse_rule, parse_section, DecodeFailure, Parse,
};
use crate::termination::{acyclic, progressive, ranked};
use crate::encoder::{choose_rule, derive_rule, derive_section, lemma_choose_rule};
use crate::round_trip::{
    derived_rule_text, derived_text, lemma_text_at_split, lookahead_correct, text_at,
};
use crate::syntax::{find_key, lemma_find_key, SectionModel, SegModel};
use vstd::prelude::*;

verus! {

/// Where a text stands that a trie tells to be of a rule, the automaton of
/// the trie tells that rule.
pub proof fn lemma_covered_matches(t: TrieModel, x: Seq<char>, v: nat, text: Seq<char>, p: nat)
    requires
        covered(t, x, v),
        text_at(text, p, x),
    ensures
        match_layer(flatten(t), text, p) == Ok::<nat, DecodeFailure>(v),
    decreases t,
{
    match t {
        TrieModel::Leaf { value, rest } => {},
        TrieModel::Branch(kids) => {
            let k = find_key(kids, x[0], 0)->0;
            lemma_find_key(kids, x[0], 0);
            lemma_find_key_same_keys(kids, flatten_kids(kids), x[0], 0);
            assert(text[p as int] == x[0]) by {
                assert(text.subrange(p as int, (p + x.len()) as int)[0] == x[0]);
            }
            assert(x =~= seq![x[0]] + x.drop_first());
            lemma_text_at_split(text, p, seq![x[0]], x.drop_first());
            lemma_covered_matches(kids[k].1, x.drop_first(), v, text, p + 1);
            assert(flatten_kids(kids)[k].1 == flatten(kids[k].1));
        },
    }
}

proof fn lemma_insert_at_is_branch(t: TrieModel, c: char, buf: Seq<SearchSegModel>, v: nat)
    ensures
        insert_at_model(t, c, buf, v) matches Ok(t2) ==> t2 is Branch,
{
}

proof fn lemma_insert_rule_is_branch(t: TrieModel, buf: Seq<SearchSegModel>, v: nat)
    requires
        t is Branch,
    ensures
        insert_rule(t, buf, v) matches Ok(t2) ==> t2 is Branch,
    decreases stack_size(buf), 2nat, 0nat,
{
    if buf.len() > 0 {
        let below = buf.drop_last();
        lemma_stack_size_drop_last(buf);
        match buf.last() {
            SearchSegModel::Text(s) => {
                if s.len() == 0 {
                    lemma_insert_rule_is_branch(t, below, v);
                } else {
                    lemma_insert_at_is_branch(
                        t,
                        s[0],
                        below.push(SearchSegModel::Text(s.drop_first())),
                        v,
                    );
                }
            },
            SearchSegModel::Use(u) => {
                match u {
                    TrieModel::Leaf { value: _, rest: inner } => {
                        lemma_stack_size_concat(below, inner);
                        lemma_insert_rule_is_branch(t, below + inner, v);
                    },
                    TrieModel::Branch(kids) => {
                        lemma_insert_fan_is_branch(t, below, kids, 0, v);
                    },
                }
            },
        }
    }
}

proof fn lemma_insert_fan_is_branch(
    t: TrieModel,
    below: Seq<SearchSegModel>,
    kids: Seq<(char, TrieModel)>,
    i: int,
    v: nat,
)
    requires
        t is Branch,
    ensures
        insert_fan(t, below, kids, i, v) matches Ok(t2) ==> t2 is Branch,
    decreases kids.len() - i,
{
    if 0 <= i < kids.len() {
        let next = below.push(SearchSegModel::Use(kids[i].1));
        lemma_insert_at_is_branch(t, kids[i].0, next, v);
        if let Ok(t1) = insert_at_model(t, kids[i].0, next, v) {
            lemma_insert_fan_is_branch(t1, below, kids, i + 1, v);
        }
    }
}

proof fn lemma_insert_rules_is_branch(t: TrieModel, rules: Seq<Seq<SearchSegModel>>, i: int)
    requires
        t is Branch,
    ensures
        insert_rules(t, rules, i) matches Ok(t2) ==> t2 is Branch,
    decreases rules.len() - i,
{
    if 0 <= i < rules.len() {
        lemma_insert_rule_is_branch(t, rules[i].reverse(), i as nat);
        if let Ok(t1) = insert_rule(t, rules[i].reverse(), i as nat) {
            lemma_insert_rules_is_branch(t1, rules, i + 1);
        }
    }
}

/// The segments of a linked rule as the trie builder sees them depend on
/// the tries of the sections referred to only.
proof fn lemma_trie_rule_depends_on_targets(
    rule: Seq<LinkedSegModel>,
    tries: Seq<TrieModel>,
    others: Seq<TrieModel>,
    n: nat,
)
    requires
        forall|j: int| 0 <= j < rule.len() ==> (#[trigger] rule[j] matches LinkedSegModel::Use(t)
            ==> t < n),
        n <= tries.len(),
        n <= others.len(),
        forall|t: int| 0 <= t < n ==> tries[t] == others[t],
    ensures
        trie_rule(rule, tries) == trie_rule(rule, others),
{
    assert forall|j: int| 0 <= j < rule.len() implies trie_seg(rule[j], tries) == trie_seg(
        rule[j],
        others,
    ) by {
        assert(rule[j] matches LinkedSegModel::Use(t) ==> t < n);
    }
    assert(trie_rule(rule, tries) =~= trie_rule(rule, others));
}

/// The trie of a linked section tells, of each rule of the section, every
/// text that the rule stands for.
pub proof fn lemma_linked_rule_covered(
    table: Seq<LinkedSectionModel>,
    s: int,
    r: int,
    x: Seq<char>,
)
    requires
        linked_table_wf(table),
        0 <= s < table.len(),
        0 <= r < table[s].rules.len(),
        in_stack(trie_rule(table[s].rules[r], table_tries(table)).reverse(), x),
    ensures
        covered(table[s].search, x, r as nat),
{
    let before = table_tries(table.take(s));
    let model = trie_rules(table[s].rules, before);
    assert(trie_of(model) == Ok::<TrieModel, (int, Ambiguity)>(table[s].search));
    assert(rules_resolved(table[s].rules, s as nat));
    assert forall|j: int| 0 <= j < table[s].rules[r].len() implies (
    #[trigger] table[s].rules[r][j] matches LinkedSegModel::Use(t) ==> t < s) by {}
    lemma_trie_rule_depends_on_targets(table[s].rules[r], table_tries(table), before, s as nat);
    assert(model[r] == trie_rule(table[s].rules[r], before));
    lemma_insert_rules_cover(TrieModel::Branch(Seq::empty()), model, 0, r, x);
}

/// The flat table that a state of the flattening holds once every slot is
/// filled.
pub open spec fn flat_of(st: SerState) -> Seq<SectionModel> {
    Seq::new(st.out.len(), |i: int| st.out[i]->0)
}

/// A state of the flattening in which no section is left half done.
pub open spec fn ser_done(table: Seq<LinkedSectionModel>, st: SerState) -> bool {
    &&& ser_inv(st, table.len())
    &&& ser_mirrors(table, st)
    &&& forall|i: int| 0 <= i < st.out.len() ==> (#[trigger] st.out[i]) is Some
}

/// A text derived from a section of the flat table is told by the trie of
/// the linked section, of the rule that the derivation began with.
pub proof fn lemma_flat_section_covered(
    table: Seq<LinkedSectionModel>,
    st: SerState,
    f: nat,
    s: int,
    input: Seq<u8>,
    pos: nat,
    fuel: nat,
)
    requires
        linked_table_wf(table),
        ser_done(table, st),
        0 <= s < table.len(),
        st.index[s] == Some(f),
        derive_section(flat_of(st), f, input, pos, fuel) is Some,
    ensures
        covered(
            table[s].search,
            derived_text(flat_of(st), f, input, pos, fuel),
            choose_rule(input, pos, 0, flat_of(st)[f as int].rules.len()).0,
        ),
    decreases fuel, 0nat, 0nat,
{
    let flat = flat_of(st);
    let n = flat[f as int].rules.len();
    let (rule, after) = choose_rule(input, pos, 0, n);
    lemma_choose_rule(input, pos, 0, n);
    assert(slot_mirrors(st.out[f as int], table[s], st.index));
    lemma_flat_rule_in_stack(table, st, f, s, rule as int, 0, input, after, (fuel - 1) as nat);
    let linked = trie_rule(table[s].rules[rule as int], table_tries(table));
    assert(linked.reverse().take(linked.len() as int) =~= linked.reverse());
    lemma_linked_rule_covered(
        table,
        s,
        rule as int,
        derived_text(flat, f, input, pos, fuel),
    );
}

/// A text derived along the segments of a flat rule is a text that the
/// segments of the linked rule stand for.
pub proof fn lemma_flat_rule_in_stack(
    table: Seq<LinkedSectionModel>,
    st: SerState,
    f: nat,
    s: int,
    r: int,
    i: nat,
    input: Seq<u8>,
    pos: nat,
    fuel: nat,
)
    requires
        linked_table_wf(table),
        ser_done(table, st),
        0 <= s < table.len(),
        st.index[s] == Some(f),
        0 <= r < flat_of(st)[f as int].rules.len(),
        i <= flat_of(st)[f as int].rules[r].len(),
        derive_rule(flat_of(st), flat_of(st)[f as int].rules[r], i, input, pos, fuel) is Some,
    ensures
        in_stack(
            trie_rule(table[s].rules[r], table_tries(table)).reverse().take(
                flat_of(st)[f as int].rules[r].len() - i,
            ),
            derived_rule_text(flat_of(st), flat_of(st)[f as int].rules[r], i, input, pos, fuel),
        ),
    decreases fuel, 1nat, flat_of(st)[f as int].rules[r].len() - i,
{
    let flat = flat_of(st);
    let segs = flat[f as int].rules[r];
    let tries = table_tries(table);
    let linked = table[s].rules[r];
    let model = trie_rule(linked, tries);
    let len = segs.len();
    assert(slot_mirrors(st.out[f as int], table[s], st.index));
    assert(rule_mirrors(segs, linked, 0, st.index));
    let (x, end) = derive_rule(flat, segs, i, input, pos, fuel)->0;
    let stack = model.reverse().take(len - i);
    if i >= len {
        assert(stack =~= Seq::<SearchSegModel>::empty());
    } else {
        let below = model.reverse().take(len - i - 1);
        assert(stack =~= below.push(model[i as int]));
        assert(seg_mirrors(segs[i as int], linked[i as int], st.index));
        match segs[i as int] {
            SegModel::Text(t) => {
                let (rest, _) = derive_rule(flat, segs, i + 1, input, pos, fuel)->0;
                lemma_flat_rule_in_stack(table, st, f, s, r, i + 1, input, pos, fuel);
                lemma_in_stack_push_text(t, below, rest);
            },
            SegModel::Use(k) => {
                let target = linked[i as int]->Use_0;
                assert(rules_resolved(table[s].rules, s as nat));
                assert(table[s].rules[r][i as int] matches LinkedSegModel::Use(t) ==> t < s);
                let (head, after) = derive_section(flat, k, input, pos, fuel)->0;
                let (rest, _) = derive_rule(flat, segs, i + 1, input, after, fuel)->0;
                lemma_flat_section_covered(table, st, k, target as int, input, pos, fuel);
                lemma_covered_is_in_trie(
                    table[target as int].search,
                    head,
                    choose_rule(input, pos, 0, flat[k as int].rules.len()).0,
                );
                lemma_flat_rule_in_stack(table, st, f, s, r, i + 1, input, after, fuel);
                lemma_in_stack_push_use(table[target as int].search, below, head, rest);
            },
        }
    }
}

/// The linked section that was given the flat index `f`.
pub open spec fn owner_of(st: SerState, f: nat) -> int {
    choose|s: int| 0 <= s < st.index.len() && #[trigger] st.index[s] == Some(f)
}

/// The trie of every linked section begins with a branch.
proof fn lemma_linked_trie_is_branch(table: Seq<LinkedSectionModel>, s: int)
    requires
        linked_table_wf(table),
        0 <= s < table.len(),
    ensures
        table[s].search is Branch,
{
    lemma_insert_rules_is_branch(
        TrieModel::Branch(Seq::empty()),
        trie_rules(table[s].rules, table_tries(table.take(s))),
        0,
    );
}

/// In the flat table of a linked grammar, the order of the linked sections
/// ranks the flat ones: every section refers to sections linked before it.
pub proof fn lemma_flat_table_is_ranked(table: Seq<LinkedSectionModel>, st: SerState)
    requires
        linked_table_wf(table),
        ser_done(table, st),
    ensures
        ranked(flat_of(st), Seq::new(st.out.len(), |f: int| owner_of(st, f as nat) as nat)),
{
    let flat = flat_of(st);
    let rank = Seq::new(st.out.len(), |f: int| owner_of(st, f as nat) as nat);
    assert forall|f: int, r: int, j: int|
        0 <= f < flat.len() && 0 <= r < flat[f].rules.len() && 0 <= j
            < flat[f].rules[r].len() implies (#[trigger] flat[f].rules[r][j] matches SegModel::Use(
        k,
    ) ==> k < flat.len() && rank[k as int] < rank[f]) by {
        if let SegModel::Use(k) = flat[f].rules[r][j] {
            assert(has_owner(st.index, f as nat));
            let s = owner_of(st, f as nat);
            assert(slot_mirrors(st.out[f], table[s], st.index));
            assert(rule_mirrors(flat[f].rules[r], table[s].rules[r], 0, st.index));
            assert(seg_mirrors(flat[f].rules[r][j], table[s].rules[r][j], st.index));
            assert(rules_resolved(table[s].rules, s as nat));
            assert(table[s].rules[r][j] matches LinkedSegModel::Use(t) ==> t < s);
            let target = table[s].rules[r][j]->Use_0;
            assert(st.index[target as int] == Some(k));
            assert(has_owner(st.index, k));
            let owner = owner_of(st, k);
            assert(st.index[owner] == st.index[target as int]);
        }
    }
}

/// A text that is read as a derivation of a flat section is told by the
/// trie of the linked section, of the rule that the automaton told.
pub proof fn lemma_parsed_section_covered(
    table: Seq<LinkedSectionModel>,
    st: SerState,
    f: nat,
    s: int,
    text: Seq<char>,
    pos: nat,
    fuel: nat,
)
    requires
        linked_table_wf(table),
        ser_done(table, st),
        0 <= s < table.len(),
        st.index[s] == Some(f),
        pos <= text.len(),
        parse_section(flat_of(st), f, text, pos, fuel) is Done,
    ensures
        parse_section(flat_of(st), f, text, pos, fuel) matches Parse::Done(_, end) && pos <= end
            <= text.len() && match_layer(flat_of(st)[f as int].decoder, text, pos) is Ok
            && covered(
            table[s].search,
            text.subrange(pos as int, end as int),
            match_layer(flat_of(st)[f as int].decoder, text, pos)->Ok_0,
        ),
    decreases fuel, 0nat, 0nat,
{
    let flat = flat_of(st);
    let rule = match_layer(flat[f as int].decoder, text, pos)->Ok_0;
    assert(slot_mirrors(st.out[f as int], table[s], st.index));
    assert(slot_ok(st.out[f as int], st.out.len()));
    lemma_match_layer_in_range(flat[f as int].decoder, text, pos, flat[f as int].rules.len());
    lemma_parsed_rule_in_stack(table, st, f, s, rule as int, 0, text, pos, (fuel - 1) as nat);
    let linked = trie_rule(table[s].rules[rule as int], table_tries(table));
    assert(linked.reverse().take(linked.len() as int) =~= linked.reverse());
    let end = parse_section(flat, f, text, pos, fuel)->Done_1;
    lemma_linked_rule_covered(table, s, rule as int, text.subrange(pos as int, end as int));
}

/// A text that is read along the segments of a flat rule is a text that
/// the segments of the linked rule stand for.
pub proof fn lemma_parsed_rule_in_stack(
    table: Seq<LinkedSectionModel>,
    st: SerState,
    f: nat,
    s: int,
    r: int,
    i: nat,
    text: Seq<char>,
    pos: nat,
    fuel: nat,
)
    requires
        linked_table_wf(table),
        ser_done(table, st),
        0 <= s < table.len(),
        st.index[s] == Some(f),
        0 <= r < flat_of(st)[f as int].rules.len(),
        i <= flat_of(st)[f as int].rules[r].len(),
        pos <= text.len(),
        parse_rule(flat_of(st), flat_of(st)[f as int].rules[r], i, text, pos, fuel) is Done,
    ensures
        parse_rule(flat_of(st), flat_of(st)[f as int].rules[r], i, text, pos, fuel) matches Parse::Done(
            _,
            end,
        ) && pos <= end <= text.len() && in_stack(
            trie_rule(table[s].rules[r], table_tries(table)).reverse().take(
                flat_of(st)[f as int].rules[r].len() - i,
            ),
            text.subrange(pos as int, end as int),
        ),
    decreases fuel, 1nat, flat_of(st)[f as int].rules[r].len() - i,
{
    let flat = flat_of(st);
    let segs = flat[f as int].rules[r];
    let tries = table_tries(table);
    let linked = table[s].rules[r];
    let model = trie_rule(linked, tries);
    let len = segs.len();
    assert(slot_mirrors(st.out[f as int], table[s], st.index));
    assert(rule_mirrors(segs, linked, 0, st.index));
    let end = parse_rule(flat, segs, i, text, pos, fuel)->Done_1;
    let stack = model.reverse().take(len - i);
    if i >= len {
        assert(stack =~= Seq::<SearchSegModel>::empty());
        assert(text.subrange(pos as int, pos as int) =~= Seq::<char>::empty());
    } else {
        let below = model.reverse().take(len - i - 1);
        assert(stack =~= below.push(model[i as int]));
        assert(seg_mirrors(segs[i as int], linked[i as int], st.index));
        match segs[i as int] {
            SegModel::Text(t) => {
                let after = pos + t.len();
                lemma_parsed_rule_in_stack(table, st, f, s, r, i + 1, text, after, fuel);
                let z = text.subrange(after as int, end as int);
                lemma_in_stack_push_text(t, below, z);
                assert(t + z =~= text.subrange(pos as int, end as int));
            },
            SegModel::Use(k) => {
                let target = linked[i as int]->Use_0;
                assert(rules_resolved(table[s].rules, s as nat));
                assert(table[s].rules[r][i as int] matches LinkedSegModel::Use(t) ==> t < s);
                lemma_parsed_section_covered(table, st, k, target as int, text, pos, fuel);
                let after = parse_section(flat, k, text, pos, fuel)->Done_1;
                let y = text.subrange(pos as int, after as int);
                lemma_covered_is_in_trie(
                    table[target as int].search,
                    y,
                    match_layer(flat[k as int].decoder, text, pos)->Ok_0,
                );
                lemma_parsed_rule_in_stack(table, st, f, s, r, i + 1, text, after, fuel);
                let z = text.subrange(after as int, end as int);
                lemma_in_stack_push_use(table[target as int].search, below, y, z);
                assert(y + z =~= text.subrange(pos as int, end as int));
            },
        }
    }
}

/// In the flat table of a linked grammar, the reading of a derivation from
/// the first section takes at least one character.
pub proof fn lemma_flat_table_is_progressive(table: Seq<LinkedSectionModel>, st: SerState, s: int)
    requires
        linked_table_wf(table),
        ser_done(table, st),
        0 <= s < table.len(),
        st.index[s] == Some(0nat),
    ensures
        progressive(flat_of(st)),
{
    let flat = flat_of(st);
    assert forall|text: Seq<char>, pos: nat, fuel: nat| #[trigger]
        parse_section(flat, 0, text, pos, fuel) is Done implies pos < parse_section(
        flat,
        0,
        text,
        pos,
        fuel,
    )->Done_1 <= text.len() by {
        lemma_linked_trie_is_branch(table, s);
        assert(slot_mirrors(st.out[0], table[s], st.index));
        assert(flat[0].decoder is Branch);
        if pos < text.len() {
            lemma_parsed_section_covered(table, st, 0, s, text, pos, fuel);
        }
    }
}

/// The automata of the flat table of a linked grammar tell its rules
/// apart.
pub proof fn lemma_serialize_is_lookahead_correct(table: Seq<LinkedSectionModel>, entry: int)
    requires
        linked_table_wf(table),
        0 <= entry < table.len(),
    ensures
        lookahead_correct(serialize_model(table, entry)),
{
    let start = ser_start(table.len());
    let st = ser_section(table, start, entry).0;
    let flat = serialize_model(table, entry);
    lemma_ser_start(table);
    lemma_ser_section(table, start, entry);
    lemma_ser_section_mirrors(table, start, entry);
    lemma_serialize_is_wf(table, entry);
    assert(flat =~= flat_of(st));
    assert(ser_done(table, st));
    assert(st.index[entry] == Some(0nat));
    assert(slot_mirrors(st.out[0], table[entry], st.index));
    lemma_insert_rules_is_branch(
        TrieModel::Branch(Seq::empty()),
        trie_rules(table[entry].rules, table_tries(table.take(entry))),
        0,
    );
    assert(flat[0].decoder is Branch);
    assert forall|sec: nat, input: Seq<u8>, pos: nat, fuel: nat, text: Seq<char>, p: nat|
        #![trigger derive_section(flat, sec, input, pos, fuel), match_layer(flat[sec as int].decoder, text, p)]
        sec < flat.len() && derive_section(flat, sec, input, pos, fuel) is Some && text_at(
            text,
            p,
            derived_text(flat, sec, input, pos, fuel),
        ) implies match_layer(flat[sec as int].decoder, text, p) == Ok::<nat, DecodeFailure>(
        choose_rule(input, pos, 0, flat[sec as int].rules.len()).0) by {
        assert(has_owner(st.index, sec));
        let s = choose|s: int| 0 <= s < st.index.len() && #[trigger] st.index[s] == Some(sec);
        assert(slot_mirrors(st.out[sec as int], table[s], st.index));
        lemma_flat_section_covered(table, st, sec, s, input, pos, fuel);
        lemma_covered_matches(
            table[s].search,
            derived_text(flat, sec, input, pos, fuel),
            choose_rule(input, pos, 0, flat[sec as int].rules.len()).0,
            text,
            p,
        );
    }
}

/// In the flat table of a linked grammar no section leads back to itself,
/// and the reading of a derivation from the first section takes a
/// character.
pub proof fn lemma_serialize_terminates(table: Seq<LinkedSectionModel>, entry: int)
    requires
        linked_table_wf(table),
        0 <= entry < table.len(),
    ensures
        acyclic(serialize_model(table, entry)),
        progressive(serialize_model(table, entry)),
{
    let start = ser_start(table.len());
    let st = ser_section(table, start, entry).0;
    let flat = serialize_model(table, entry);
    lemma_ser_start(table);
    lemma_ser_section(table, start, entry);
    lemma_ser_section_mirrors(table, start, entry);
    lemma_serialize_is_wf(table, entry);
    assert(flat =~= flat_of(st));
    assert(ser_done(table, st));
    lemma_flat_table_is_ranked(table, st);
    lemma_flat_table_is_progressive(table, st, entry);
}

} // verus!

//! The tries by which the rules of a section are told apart.

use super::link::{
    linked_rules_view, linked_table_view, rules_resolved, table_tries, trie_rule, trie_rules,
    LinkError, LinkedSection, LinkedSeg,
};
use super::parse_tokens::SecInfo;
use crate::syntax::find_key;
use crate::share_str::ShareStr;
use std::rc::Rc;
use vstd::prelude::*;

verus! {

/// Why a rule could not be told apart from the rules before it.
#[derive(Clone, Copy, Debug, PartialEq, Eq, Structural)]
pub enum Ambiguity {
    /// The text of the rule ended inside text that earlier rules cover.
    RuleContained,
    /// An earlier rule ended where the new rule still had text to place.
    LeafExhausted,
}

/// Model of a pending segment of a rule.
pub enum SearchSegModel {
    Text(Seq<char>),
    Use(TrieModel),
}

/// Model of a lookahead trie.
///
/// A leaf stands for one rule and keeps, as a stack whose last element comes
/// next, the segments that the rule still owes after the characters that
/// lead to the leaf.
pub enum TrieModel {
    Branch(Seq<(char, TrieModel)>),
    Leaf { value: nat, rest: Seq<SearchSegModel> },
}

/// The size of a trie: its nodes, and the sizes of what its leaves owe.
pub open spec fn trie_size(t: TrieModel) -> nat
    decreases t, 0nat,
{
    match t {
        TrieModel::Branch(kids) => 1 + kids_size(kids, kids.len()),
        TrieModel::Leaf { value, rest } => 1 + segs_size(rest, rest.len()),
    }
}

/// The sizes of the first `n` children, summed.
pub open spec fn kids_size(kids: Seq<(char, TrieModel)>, n: nat) -> nat
    decreases kids, n,
{
    if 0 < n <= kids.len() {
        kids_size(kids, (n - 1) as nat) + trie_size(kids[n - 1].1)
    } else {
        0
    }
}

/// The size of a segment: a text's length and one, or the size of the trie.
pub open spec fn seg_size(s: SearchSegModel) -> nat
    decreases s, 0nat,
{
    match s {
        SearchSegModel::Text(t) => t.len() + 1,
        SearchSegModel::Use(u) => trie_size(u),
    }
}

/// The sizes of the first `n` segments, summed.
pub open spec fn segs_size(segs: Seq<SearchSegModel>, n: nat) -> nat
    decreases segs, n,
{
    if 0 < n <= segs.len() {
        segs_size(segs, (n - 1) as nat) + seg_size(segs[n - 1])
    } else {
        0
    }
}

/// The size of a whole stack of segments.
pub open spec fn stack_size(segs: Seq<SearchSegModel>) -> nat {
    segs_size(segs, segs.len())
}

/// Every segment has a size of at least one.
pub proof fn lemma_seg_size_positive(s: SearchSegModel)
    ensures
        seg_size(s) >= 1,
{
}

proof fn lemma_segs_size_agrees(a: Seq<SearchSegModel>, b: Seq<SearchSegModel>, n: nat)
    requires
        n <= a.len(),
        n <= b.len(),
        forall|i: int| 0 <= i < n ==> a[i] == b[i],
    ensures
        segs_size(a, n) == segs_size(b, n),
    decreases n,
{
    if n > 0 {
        lemma_segs_size_agrees(a, b, (n - 1) as nat);
    }
}

/// A pushed segment adds its size.
pub proof fn lemma_stack_size_push(segs: Seq<SearchSegModel>, s: SearchSegModel)
    ensures
        stack_size(segs.push(s)) == stack_size(segs) + seg_size(s),
{
    lemma_segs_size_agrees(segs.push(s), segs, segs.len());
}

/// The size of a stack is that of its last segment and of the rest.
pub proof fn lemma_stack_size_drop_last(segs: Seq<SearchSegModel>)
    requires
        segs.len() > 0,
    ensures
        stack_size(segs) == stack_size(segs.drop_last()) + seg_size(segs.last()),
{
    lemma_segs_size_agrees(segs, segs.drop_last(), (segs.len() - 1) as nat);
}

/// The sizes of two stacks add up when one is put on the other.
pub proof fn lemma_stack_size_concat(a: Seq<SearchSegModel>, b: Seq<SearchSegModel>)
    ensures
        stack_size(a + b) == stack_size(a) + stack_size(b),
    decreases b.len(),
{
    if b.len() == 0 {
        assert(a + b =~= a);
    } else {
        assert(a + b =~= (a + b.drop_last()).push(b.last()));
        lemma_stack_size_push(a + b.drop_last(), b.last());
        lemma_stack_size_concat(a, b.drop_last());
        lemma_stack_size_drop_last(b);
    }
}

proof fn lemma_kids_size_monotone(kids: Seq<(char, TrieModel)>, i: int, n: nat)
    requires
        0 <= i < n <= kids.len(),
    ensures
        trie_size(kids[i].1) <= kids_size(kids, n),
    decreases n,
{
    if i < n - 1 {
        lemma_kids_size_monotone(kids, i, (n - 1) as nat);
    }
}

/// A child is smaller than the branch that holds it.
pub proof fn lemma_kid_is_smaller(kids: Seq<(char, TrieModel)>, i: int)
    requires
        0 <= i < kids.len(),
    ensures
        trie_size(kids[i].1) < trie_size(TrieModel::Branch(kids)),
{
    lemma_kids_size_monotone(kids, i, kids.len());
}

/// One leaf of rule `value` for each child of an inlined branch: the leaf
/// under a key owes the child under that key, then what lay `below`.
pub open spec fn fan_out(value: nat, below: Seq<SearchSegModel>, kids: Seq<(char, TrieModel)>) -> Seq<
    (char, TrieModel),
> {
    Seq::new(
        kids.len(),
        |i: int| (kids[i].0, TrieModel::Leaf { value, rest: below.push(SearchSegModel::Use(kids[i].1)) }),
    )
}

/// The children that a leaf of rule `value` turns into when the first
/// character of what it owes is read off its stack `rest`; `None` where the
/// stack holds no character at all.
pub open spec fn expand_rest(value: nat, rest: Seq<SearchSegModel>) -> Option<Seq<(char, TrieModel)>>
    decreases stack_size(rest),
{
    if rest.len() == 0 {
        None
    } else {
        let below = rest.drop_last();
        match rest.last() {
            SearchSegModel::Text(s) => if s.len() == 0 {
                proof {
                    lemma_stack_size_drop_last(rest);
                }
                expand_rest(value, below)
            } else {
                Some(
                    seq![
                        (
                            s[0],
                            TrieModel::Leaf {
                                value,
                                rest: below.push(SearchSegModel::Text(s.drop_first())),
                            },
                        ),
                    ],
                )
            },
            SearchSegModel::Use(u) => match u {
                TrieModel::Leaf { value: _, rest: inner } => {
                    proof {
                        lemma_stack_size_drop_last(rest);
                        lemma_stack_size_concat(below, inner);
                    }
                    expand_rest(value, below + inner)
                },
                TrieModel::Branch(kids) => Some(fan_out(value, below, kids)),
            },
        }
    }
}

/// The children of a trie, a leaf being expanded first.
pub open spec fn as_table(t: TrieModel) -> Option<Seq<(char, TrieModel)>> {
    match t {
        TrieModel::Branch(kids) => Some(kids),
        TrieModel::Leaf { value, rest } => expand_rest(value, rest),
    }
}

/// The trie `t` after the rule `value`, whose pending segments are the
/// stack `buf`, was added to it.
pub open spec fn insert_rule(t: TrieModel, buf: Seq<SearchSegModel>, value: nat) -> Result<
    TrieModel,
    Ambiguity,
>
    decreases stack_size(buf), 2nat, 0nat,
{
    if buf.len() == 0 {
        Err(Ambiguity::RuleContained)
    } else {
        let below = buf.drop_last();
        match buf.last() {
            SearchSegModel::Text(s) => if s.len() == 0 {
                proof {
                    lemma_stack_size_drop_last(buf);
                }
                insert_rule(t, below, value)
            } else {
                proof {
                    lemma_stack_size_drop_last(buf);
                    lemma_stack_size_push(below, SearchSegModel::Text(s.drop_first()));
                }
                insert_at_model(t, s[0], below.push(SearchSegModel::Text(s.drop_first())), value)
            },
            SearchSegModel::Use(u) => match u {
                TrieModel::Leaf { value: _, rest: inner } => {
                    proof {
                        lemma_stack_size_drop_last(buf);
                        lemma_stack_size_concat(below, inner);
                    }
                    insert_rule(t, below + inner, value)
                },
                TrieModel::Branch(kids) => {
                    proof {
                        lemma_stack_size_drop_last(buf);
                    }
                    insert_fan(t, below, kids, 0, value)
                },
            },
        }
    }
}

/// The trie `t` after the rule `value` was added below the character `c`,
/// with `buf` pending after that character.
pub open spec fn insert_at_model(t: TrieModel, c: char, buf: Seq<SearchSegModel>, value: nat) -> Result<
    TrieModel,
    Ambiguity,
>
    decreases stack_size(buf), 3nat, 0nat,
{
    match as_table(t) {
        None => Err(Ambiguity::LeafExhausted),
        Some(kids) => match find_key(kids, c, 0) {
            None => Ok(TrieModel::Branch(kids.push((c, TrieModel::Leaf { value, rest: buf })))),
            Some(k) => match insert_rule(kids[k].1, buf, value) {
                Err(e) => Err(e),
                Ok(kid) => Ok(TrieModel::Branch(kids.update(k, (c, kid)))),
            },
        },
    }
}

/// The trie `t` after the rule `value` was added below the key of each of
/// `kids[i..]`, the children of a branch that the rule begins with.
pub open spec fn insert_fan(
    t: TrieModel,
    below: Seq<SearchSegModel>,
    kids: Seq<(char, TrieModel)>,
    i: int,
    value: nat,
) -> Result<TrieModel, Ambiguity>
    decreases stack_size(below) + trie_size(TrieModel::Branch(kids)), 1nat, kids.len() - i,
{
    if i < 0 || i >= kids.len() {
        Ok(t)
    } else {
        proof {
            lemma_kid_is_smaller(kids, i);
            lemma_stack_size_push(below, SearchSegModel::Use(kids[i].1));
        }
        match insert_at_model(t, kids[i].0, below.push(SearchSegModel::Use(kids[i].1)), value) {
            Err(e) => Err(e),
            Ok(t2) => insert_fan(t2, below, kids, i + 1, value),
        }
    }
}

/// The trie of the rules `rules[i..]` added, in order, to `t`; each rule is
/// given by its segments in reading order.
pub open spec fn insert_rules(t: TrieModel, rules: Seq<Seq<SearchSegModel>>, i: int) -> Result<
    TrieModel,
    (int, Ambiguity),
>
    decreases rules.len() - i,
{
    if i < 0 || i >= rules.len() {
        Ok(t)
    } else {
        match insert_rule(t, rules[i].reverse(), i as nat) {
            Err(e) => Err((i, e)),
            Ok(t2) => insert_rules(t2, rules, i + 1),
        }
    }
}

/// The lookahead trie of a section with the given rules, or the first rule
/// that cannot be told apart from those before it.
pub open spec fn compile_model(rules: Seq<Seq<SearchSegModel>>) -> Result<TrieModel, (int, Ambiguity)> {
    insert_rules(TrieModel::Branch(Seq::empty()), rules, 0)
}

/// Every leaf of `t` stands for one of the first `n` rules.
pub open spec fn values_below(t: TrieModel, n: nat) -> bool
    decreases t, 0nat,
{
    match t {
        TrieModel::Leaf { value, rest } => value < n,
        TrieModel::Branch(kids) => kids_below(kids, kids.len(), n),
    }
}

/// Every leaf below the first `m` children stands for one of the first `n`
/// rules.
pub open spec fn kids_below(kids: Seq<(char, TrieModel)>, m: nat, n: nat) -> bool
    decreases kids, m,
{
    if 0 < m <= kids.len() {
        kids_below(kids, (m - 1) as nat, n) && values_below(kids[m - 1].1, n)
    } else {
        true
    }
}

/// Where the first `m` branches hold values below `n`, each of them does.
pub proof fn lemma_kids_below_index(kids: Seq<(char, TrieModel)>, m: nat, n: nat, i: int)
    requires
        kids_below(kids, m, n),
        0 <= i < m <= kids.len(),
    ensures
        values_below(kids[i].1, n),
    decreases m,
{
    if i < m - 1 {
        lemma_kids_below_index(kids, (m - 1) as nat, n, i);
    }
}

/// Where each of the first `m` branches holds values below `n`, they do
/// together.
pub proof fn lemma_kids_below_intro(kids: Seq<(char, TrieModel)>, m: nat, n: nat)
    requires
        m <= kids.len(),
        forall|i: int| 0 <= i < m ==> values_below((#[trigger] kids[i]).1, n),
    ensures
        kids_below(kids, m, n),
    decreases m,
{
    if m > 0 {
        lemma_kids_below_intro(kids, (m - 1) as nat, n);
    }
}

proof fn lemma_expand_values(value: nat, rest: Seq<SearchSegModel>, n: nat)
    requires
        value < n,
    ensures
        expand_rest(value, rest) is Some ==> values_below(
            TrieModel::Branch(expand_rest(value, rest)->0),
            n,
        ),
    decreases stack_size(rest),
{
    if rest.len() > 0 {
        let below = rest.drop_last();
        lemma_stack_size_drop_last(rest);
        match rest.last() {
            SearchSegModel::Text(s) => {
                if s.len() == 0 {
                    lemma_expand_values(value, below, n);
                } else {
                    let kids = expand_rest(value, rest)->0;
                    assert forall|i: int| 0 <= i < kids.len() implies values_below(
                        (#[trigger] kids[i]).1,
                        n,
                    ) by {
                        assert(kids[i].1 is Leaf);
                    }
                    lemma_kids_below_intro(kids, kids.len(), n);
                }
            },
            SearchSegModel::Use(u) => {
                match u {
                    TrieModel::Leaf { value: _, rest: inner } => {
                        lemma_stack_size_concat(below, inner);
                        lemma_expand_values(value, below + inner, n);
                    },
                    TrieModel::Branch(sub) => {
                        let kids = fan_out(value, below, sub);
                        assert forall|i: int| 0 <= i < kids.len() implies values_below(
                            (#[trigger] kids[i]).1,
                            n,
                        ) by {
                            assert(kids[i].1 is Leaf);
                        }
                        lemma_kids_below_intro(kids, kids.len(), n);
                    },
                }
            },
        }
    }
}

proof fn lemma_as_table_values(t: TrieModel, n: nat)
    requires
        values_below(t, n),
    ensures
        as_table(t) is Some ==> values_below(TrieModel::Branch(as_table(t)->0), n),
{
    if let TrieModel::Leaf { value, rest } = t {
        lemma_expand_values(value, rest, n);
    }
}

proof fn lemma_insert_rule_values(t: TrieModel, buf: Seq<SearchSegModel>, value: nat, n: nat)
    requires
        values_below(t, n),
        value < n,
    ensures
        insert_rule(t, buf, value) matches Ok(t2) ==> values_below(t2, n),
    decreases stack_size(buf), 2nat, 0nat,
{
    if buf.len() > 0 {
        let below = buf.drop_last();
        lemma_stack_size_drop_last(buf);
        match buf.last() {
            SearchSegModel::Text(s) => {
                if s.len() == 0 {
                    lemma_insert_rule_values(t, below, value, n);
                } else {
                    lemma_stack_size_push(below, SearchSegModel::Text(s.drop_first()));
                    lemma_insert_at_values(
                        t,
                        s[0],
                        below.push(SearchSegModel::Text(s.drop_first())),
                        value,
                        n,
                    );
                }
            },
            SearchSegModel::Use(u) => {
                match u {
                    TrieModel::Leaf { value: _, rest: inner } => {
                        lemma_stack_size_concat(below, inner);
                        lemma_insert_rule_values(t, below + inner, value, n);
                    },
                    TrieModel::Branch(kids) => {
                        lemma_insert_fan_values(t, below, kids, 0, value, n);
                    },
                }
            },
        }
    }
}

proof fn lemma_insert_at_values(
    t: TrieModel,
    c: char,
    buf: Seq<SearchSegModel>,
    value: nat,
    n: nat,
)
    requires
        values_below(t, n),
        value < n,
    ensures
        insert_at_model(t, c, buf, value) matches Ok(t2) ==> values_below(t2, n),
    decreases stack_size(buf), 3nat, 0nat,
{
    lemma_as_table_values(t, n);
    if let Some(kids) = as_table(t) {
        assert forall|i: int| 0 <= i < kids.len() implies values_below(
            (#[trigger] kids[i]).1,
            n,
        ) by {
            lemma_kids_below_index(kids, kids.len(), n, i);
        }
        match find_key(kids, c, 0) {
            None => {
                let grown = kids.push((c, TrieModel::Leaf { value, rest: buf }));
                assert forall|i: int| 0 <= i < grown.len() implies values_below(
                    (#[trigger] grown[i]).1,
                    n,
                ) by {
                    if i < kids.len() {
                        assert(values_below(kids[i].1, n));
                    }
                }
                lemma_kids_below_intro(grown, grown.len(), n);
            },
            Some(k) => {
                crate::syntax::lemma_find_key(kids, c, 0);
                assert(values_below(kids[k].1, n));
                lemma_insert_rule_values(kids[k].1, buf, value, n);
                if let Ok(kid) = insert_rule(kids[k].1, buf, value) {
                    let changed = kids.update(k, (c, kid));
                    assert forall|i: int| 0 <= i < changed.len() implies values_below(
                        (#[trigger] changed[i]).1,
                        n,
                    ) by {
                        if i != k {
                            assert(values_below(kids[i].1, n));
                        }
                    }
                    lemma_kids_below_intro(changed, changed.len(), n);
                }
            },
        }
    }
}

proof fn lemma_insert_fan_values(
    t: TrieModel,
    below: Seq<SearchSegModel>,
    kids: Seq<(char, TrieModel)>,
    i: int,
    value: nat,
    n: nat,
)
    requires
        values_below(t, n),
        value < n,
    ensures
        insert_fan(t, below, kids, i, value) matches Ok(t2) ==> values_below(t2, n),
    decreases stack_size(below) + trie_size(TrieModel::Branch(kids)), 1nat, kids.len() - i,
{
    if 0 <= i < kids.len() {
        lemma_kid_is_smaller(kids, i);
        lemma_stack_size_push(below, SearchSegModel::Use(kids[i].1));
        lemma_insert_at_values(t, kids[i].0, below.push(SearchSegModel::Use(kids[i].1)), value, n);
        if let Ok(t2) = insert_at_model(
            t,
            kids[i].0,
            below.push(SearchSegModel::Use(kids[i].1)),
            value,
        ) {
            lemma_insert_fan_values(t2, below, kids, i + 1, value, n);
        }
    }
}

proof fn lemma_insert_rules_values(t: TrieModel, rules: Seq<Seq<SearchSegModel>>, i: int)
    requires
        0 <= i,
        values_below(t, rules.len()),
    ensures
        insert_rules(t, rules, i) matches Ok(t2) ==> values_below(t2, rules.len()),
    decreases rules.len() - i,
{
    if i < rules.len() {
        lemma_insert_rule_values(t, rules[i].reverse(), i as nat, rules.len());
        if let Ok(t2) = insert_rule(t, rules[i].reverse(), i as nat) {
            lemma_insert_rules_values(t2, rules, i + 1);
        }
    }
}

/// Every leaf of the trie of a section stands for a rule of the section.
pub proof fn lemma_compile_values(rules: Seq<Seq<SearchSegModel>>)
    ensures
        compile_model(rules) matches Ok(t) ==> values_below(t, rules.len()),
{
    lemma_insert_rules_values(TrieModel::Branch(Seq::empty()), rules, 0);
}

proof fn lemma_insert_rules_error_index(t: TrieModel, rules: Seq<Seq<SearchSegModel>>, i: int)
    requires
        0 <= i,
    ensures
        insert_rules(t, rules, i) matches Err((k, _)) ==> i <= k < rules.len(),
    decreases rules.len() - i,
{
    if i < rules.len() {
        if let Ok(t2) = insert_rule(t, rules[i].reverse(), i as nat) {
            lemma_insert_rules_error_index(t2, rules, i + 1);
        }
    }
}

/// A failure to compile names one of the rules.
pub proof fn lemma_compile_error_index(rules: Seq<Seq<SearchSegModel>>)
    ensures
        compile_model(rules) matches Err((k, _)) ==> 0 <= k < rules.len(),
{
    lemma_insert_rules_error_index(TrieModel::Branch(Seq::empty()), rules, 0);
}

/// A segment that a rule still owes: literal text, or the trie of a section
/// that the rule refers to (or of a part of one).
pub enum SearchSeg {
    Text(ShareStr),
    Use(Rc<Trie>),
}

/// Lookahead trie of a section while it is built.
pub enum Trie {
    Branch(Vec<(char, Rc<Trie>)>),
    Leaf {
        value: u32,
        /// What the rule owes after this leaf; the last element comes next.
        rest_nodes: Vec<SearchSeg>,
    },
}

/// The model of a trie.
pub open spec fn trie_model(t: Trie) -> TrieModel
    decreases t, 0nat,
{
    match t {
        Trie::Branch(kids) => TrieModel::Branch(kids_model(kids@)),
        Trie::Leaf { value, rest_nodes } => TrieModel::Leaf {
            value: value as nat,
            rest: segs_model(rest_nodes@),
        },
    }
}

/// The model of the branches of a trie.
pub open spec fn kids_model(kids: Seq<(char, Rc<Trie>)>) -> Seq<(char, TrieModel)>
    decreases kids, 1nat,
{
    Seq::new(
        kids.len(),
        |i: int|
            if 0 <= i < kids.len() {
                (kids[i].0, trie_model(*kids[i].1))
            } else {
                arbitrary()
            },
    )
}

/// The model of a segment.
pub open spec fn seg_model(s: SearchSeg) -> SearchSegModel
    decreases s, 0nat,
{
    match s {
        SearchSeg::Text(t) => SearchSegModel::Text(t@),
        SearchSeg::Use(u) => SearchSegModel::Use(trie_model(*u)),
    }
}

/// The model of a list of segments.
pub open spec fn segs_model(segs: Seq<SearchSeg>) -> Seq<SearchSegModel>
    decreases segs, 1nat,
{
    Seq::new(
        segs.len(),
        |i: int|
            if 0 <= i < segs.len() {
                seg_model(segs[i])
            } else {
                arbitrary()
            },
    )
}

impl View for Trie {
    type V = TrieModel;

    open spec fn view(&self) -> TrieModel {
        trie_model(*self)
    }
}

impl View for SearchSeg {
    type V = SearchSegModel;

    open spec fn view(&self) -> SearchSegModel {
        seg_model(*self)
    }
}

impl Clone for SearchSeg {
    fn clone(&self) -> (r: Self)
        ensures
            r == *self,
    {
        match self {
            SearchSeg::Text(t) => SearchSeg::Text(t.clone()),
            SearchSeg::Use(u) => SearchSeg::Use(u.clone()),
        }
    }
}

fn clone_segs(segs: &Vec<SearchSeg>) -> (r: Vec<SearchSeg>)
    ensures
        r@ == segs@,
{
    let mut r: Vec<SearchSeg> = Vec::new();
    let mut i: usize = 0;
    while i < segs.len()
        invariant
            i <= segs.len(),
            r@ == segs@.take(i as int),
        decreases segs.len() - i,
    {
        r.push(segs[i].clone());
        i += 1;
        assert(segs@.take(i as int) == segs@.take(i - 1).push(segs@[i - 1]));
    }
    assert(segs@.take(segs.len() as int) == segs@);
    r
}

fn clone_kids(kids: &Vec<(char, Rc<Trie>)>) -> (r: Vec<(char, Rc<Trie>)>)
    ensures
        r@ == kids@,
{
    let mut r: Vec<(char, Rc<Trie>)> = Vec::new();
    let mut i: usize = 0;
    while i < kids.len()
        invariant
            i <= kids.len(),
            r@ == kids@.take(i as int),
        decreases kids.len() - i,
    {
        r.push((kids[i].0, kids[i].1.clone()));
        i += 1;
        assert(kids@.take(i as int) == kids@.take(i - 1).push(kids@[i - 1]));
    }
    assert(kids@.take(kids.len() as int) == kids@);
    r
}

/// The trie behind a shared pointer, moved out where nothing else holds it
/// and copied one level deep otherwise.
fn unshare(t: Rc<Trie>) -> (r: Trie)
    ensures
        r@ == t@,
{
    match Rc::try_unwrap(t) {
        Ok(owned) => owned,
        Err(shared) => match &*shared {
            Trie::Branch(kids) => Trie::Branch(clone_kids(kids)),
            Trie::Leaf { value, rest_nodes } => Trie::Leaf {
                value: *value,
                rest_nodes: clone_segs(rest_nodes),
            },
        },
    }
}

/// The model of a list with one segment more is the model with one more.
pub proof fn lemma_segs_model_push(segs: Seq<SearchSeg>, s: SearchSeg)
    ensures
        segs_model(segs.push(s)) == segs_model(segs).push(seg_model(s)),
{
    assert(segs_model(segs.push(s)) =~= segs_model(segs).push(seg_model(s)));
}

/// The model of a list without its last segment is the model without its
/// last.
pub proof fn lemma_segs_model_drop_last(segs: Seq<SearchSeg>)
    requires
        segs.len() > 0,
    ensures
        segs_model(segs.drop_last()) == segs_model(segs).drop_last(),
        segs_model(segs).last() == seg_model(segs.last()),
{
    assert(segs_model(segs.drop_last()) =~= segs_model(segs).drop_last());
}

/// The model of two lists joined is their models joined.
pub proof fn lemma_segs_model_concat(a: Seq<SearchSeg>, b: Seq<SearchSeg>)
    ensures
        segs_model(a + b) == segs_model(a) + segs_model(b),
{
    assert(segs_model(a + b) =~= segs_model(a) + segs_model(b));
}

/// The model of branches with one more is the model with one more.
pub proof fn lemma_kids_model_push(kids: Seq<(char, Rc<Trie>)>, c: char, t: Rc<Trie>)
    ensures
        kids_model(kids.push((c, t))) == kids_model(kids).push((c, t@)),
{
    assert(kids_model(kids.push((c, t))) =~= kids_model(kids).push((c, t@)));
}

proof fn lemma_find_key_in_model(kids: Seq<(char, Rc<Trie>)>, c: char, from: int)
    ensures
        find_key(kids_model(kids), c, from) == find_key(kids, c, from),
    decreases kids.len() - from,
{
    if 0 <= from < kids.len() && kids[from].0 != c {
        lemma_find_key_in_model(kids, c, from + 1);
    }
}

/// The first character of `s` and the text after it.
pub fn split_first(s: &ShareStr) -> (r: Option<(char, ShareStr)>)
    ensures
        s@.len() == 0 ==> r is None,
        s@.len() > 0 ==> (r matches Some((c, rest)) && c == s@[0] && rest@ == s@.drop_first()),
{
    if s.is_empty() {
        None
    } else {
        Some((s.char_at(0), s.clone_range(1, s.len())))
    }
}

/// The index of the first child under the key `c`.
fn find_kid(kids: &Vec<(char, Rc<Trie>)>, c: char) -> (r: Option<usize>)
    ensures
        match r {
            Some(i) => find_key(kids_model(kids@), c, 0) == Some(i as int) && i < kids.len(),
            None => find_key(kids_model(kids@), c, 0) is None,
        },
{
    proof {
        lemma_find_key_in_model(kids@, c, 0);
    }
    let mut i: usize = 0;
    while i < kids.len()
        invariant
            i <= kids.len(),
            find_key(kids@, c, 0) == find_key(kids@, c, i as int),
            find_key(kids_model(kids@), c, 0) == find_key(kids@, c, 0),
        decreases kids.len() - i,
    {
        assert(find_key(kids@, c, i as int) == if kids@[i as int].0 == c {
            Some(i as int)
        } else {
            find_key(kids@, c, i + 1)
        });
        if kids[i].0 == c {
            return Some(i);
        }
        i += 1;
    }
    None
}

/// Moves the child at index `k` out of `kids`, leaving an empty branch under
/// its key.
fn take_kid(kids: &mut Vec<(char, Rc<Trie>)>, k: usize) -> (r: Rc<Trie>)
    requires
        k < old(kids).len(),
    ensures
        r == old(kids)@[k as int].1,
        final(kids)@.len() == old(kids)@.len(),
        final(kids)@[k as int].0 == old(kids)@[k as int].0,
        forall|j: int| 0 <= j < old(kids)@.len() && j != k ==> final(kids)@[j] == old(kids)@[j],
{
    let c = kids[k].0;
    kids.push((c, Rc::new(Trie::Branch(Vec::new()))));
    let taken = kids.swap_remove(k);
    taken.1
}

/// Puts `t` under the key `c` at index `k` of `kids`.
fn put_kid(kids: &mut Vec<(char, Rc<Trie>)>, k: usize, c: char, t: Trie)
    requires
        k < old(kids).len(),
    ensures
        final(kids)@.len() == old(kids)@.len(),
        final(kids)@[k as int].0 == c,
        final(kids)@[k as int].1@ == t@,
        forall|j: int| 0 <= j < old(kids)@.len() && j != k ==> final(kids)@[j] == old(kids)@[j],
{
    kids.push((c, Rc::new(t)));
    let _ = kids.swap_remove(k);
}

impl Trie {
    /// A branch without children: the trie of no rule at all.
    pub fn new() -> (t: Self)
        ensures
            t@ == TrieModel::Branch(Seq::empty()),
    {
        let t = Trie::Branch(Vec::new());
        assert(kids_model(Seq::<(char, Rc<Trie>)>::empty()) =~= Seq::empty());
        t
    }

    /// The children of this trie, with the index of the one under `expect`
    /// if there is one.  A leaf is expanded into its children first.
    pub fn insert(self, expect: char) -> (r: Result<
        (Vec<(char, Rc<Trie>)>, Option<usize>),
        Ambiguity,
    >)
        ensures
            match as_table(self@) {
                None => r == Err::<(Vec<(char, Rc<Trie>)>, Option<usize>), Ambiguity>(
                    Ambiguity::LeafExhausted,
                ),
                Some(kids) => (r matches Ok((table, found)) && kids_model(table@) == kids
                    && match found {
                    Some(i) => find_key(kids, expect, 0) == Some(i as int) && i < table.len(),
                    None => find_key(kids, expect, 0) is None,
                }),
            },
    {
        let table = match self {
            Trie::Branch(b) => b,
            Trie::Leaf { value, rest_nodes } => {
                match (Trie::Leaf { value, rest_nodes }).expand_to_table() {
                    Ok(table) => table,
                    Err(e) => {
                        return Err(e);
                    },
                }
            },
        };
        let found = find_kid(&table, expect);
        Ok((table, found))
    }

    /// The children that a leaf turns into once the first character of what
    /// its rule still owes is read off: one child where that is literal
    /// text, one for each child of the trie referred to where it is a
    /// reference.  Fails where the leaf owes no character at all.
    pub fn expand_to_table(self) -> (r: Result<Vec<(char, Rc<Trie>)>, Ambiguity>)
        requires
            self is Leaf,
        ensures
            match as_table(self@) {
                None => r == Err::<Vec<(char, Rc<Trie>)>, Ambiguity>(Ambiguity::LeafExhausted),
                Some(kids) => (r matches Ok(table) && kids_model(table@) == kids),
            },
    {
        let (value, mut rest) = match self {
            Trie::Leaf { value, rest_nodes } => (value, rest_nodes),
            Trie::Branch(b) => {
                return Ok(b);
            },
        };
        let ghost goal = expand_rest(value as nat, segs_model(rest@));
        loop
            invariant
                expand_rest(value as nat, segs_model(rest@)) == goal,
                as_table(self@) == goal,
            decreases stack_size(segs_model(rest@)),
        {
            let ghost before = rest@;
            proof {
                if before.len() > 0 {
                    lemma_segs_model_drop_last(before);
                    lemma_stack_size_drop_last(segs_model(before));
                    lemma_seg_size_positive(seg_model(before.last()));
                }
            }
            match rest.pop() {
                None => {
                    return Err(Ambiguity::LeafExhausted);
                },
                Some(SearchSeg::Text(txt)) => {
                    assert(rest@ == before.drop_last());
                    match split_first(&txt) {
                        None => {},
                        Some((ch, tail)) => {
                            proof {
                                lemma_segs_model_push(rest@, SearchSeg::Text(tail));
                            }
                            rest.push(SearchSeg::Text(tail));
                            let mut table: Vec<(char, Rc<Trie>)> = Vec::new();
                            table.push((ch, Rc::new(Trie::Leaf { value, rest_nodes: rest })));
                            assert(kids_model(table@) =~= goal->0);
                            return Ok(table);
                        },
                    }
                },
                Some(SearchSeg::Use(trie)) => {
                    assert(rest@ == before.drop_last());
                    match &*trie {
                        Trie::Branch(b) => {
                            let mut table: Vec<(char, Rc<Trie>)> = Vec::new();
                            let mut i: usize = 0;
                            let ghost kids = kids_model(b@);
                            let ghost below = segs_model(rest@);
                            while i < b.len()
                                invariant
                                    i <= b.len(),
                                    kids == kids_model(b@),
                                    below == segs_model(rest@),
                                    kids_model(table@) == fan_out(value as nat, below, kids).take(
                                        i as int,
                                    ),
                                decreases b.len() - i,
                            {
                                let mut rn = clone_segs(&rest);
                                let sub = b[i].1.clone();
                                proof {
                                    lemma_segs_model_push(rn@, SearchSeg::Use(sub));
                                }
                                rn.push(SearchSeg::Use(sub));
                                let leaf = Rc::new(Trie::Leaf { value, rest_nodes: rn });
                                proof {
                                    lemma_kids_model_push(table@, b[i as int].0, leaf);
                                }
                                table.push((b[i].0, leaf));
                                i += 1;
                                assert(kids_model(table@) =~= fan_out(
                                    value as nat,
                                    below,
                                    kids,
                                ).take(i as int));
                            }
                            assert(kids_model(table@) =~= fan_out(value as nat, below, kids));
                            return Ok(table);
                        },
                        Trie::Leaf { value: _, rest_nodes } => {
                            let ghost below = rest@;
                            let mut i: usize = 0;
                            while i < rest_nodes.len()
                                invariant
                                    i <= rest_nodes.len(),
                                    rest@ == below + rest_nodes@.take(i as int),
                                decreases rest_nodes.len() - i,
                            {
                                rest.push(rest_nodes[i].clone());
                                i += 1;
                                assert(rest@ =~= below + rest_nodes@.take(i as int));
                            }
                            assert(rest_nodes@.take(rest_nodes.len() as int) == rest_nodes@);
                            proof {
                                lemma_segs_model_concat(below, rest_nodes@);
                                lemma_stack_size_concat(
                                    segs_model(below),
                                    segs_model(rest_nodes@),
                                );
                            }
                        },
                    }
                },
            }
        }
    }
}

/// Adds to `trie` the rule `value`, of which the stack `pending` is still
/// to be placed: follows the characters of the rule down the trie, through
/// the tries of the sections it refers to, until it leaves the paths of the
/// earlier rules, and hangs a leaf there.  Fails where the rule ends before
/// it leaves them, or where an earlier rule ends on its path.
pub fn compile_rule(trie: Trie, pending: Vec<SearchSeg>, value: u32) -> (r: Result<Trie, Ambiguity>)
    ensures
        match insert_rule(trie@, segs_model(pending@), value as nat) {
            Ok(m) => (r matches Ok(t) && t@ == m),
            Err(e) => r == Err::<Trie, Ambiguity>(e),
        },
    decreases stack_size(segs_model(pending@)), 2nat, 0nat,
{
    let mut buffer = pending;
    proof {
        if pending@.len() > 0 {
            lemma_segs_model_drop_last(pending@);
            lemma_stack_size_drop_last(segs_model(pending@));
        }
    }
    match buffer.pop() {
        None => Err(Ambiguity::RuleContained),
        Some(SearchSeg::Text(txt)) => {
            assert(buffer@ == pending@.drop_last());
            match split_first(&txt) {
                None => compile_rule(trie, buffer, value),
                Some((ch, tail)) => {
                    proof {
                        lemma_segs_model_push(buffer@, SearchSeg::Text(tail));
                        lemma_stack_size_push(segs_model(buffer@), SearchSegModel::Text(tail@));
                    }
                    buffer.push(SearchSeg::Text(tail));
                    insert_at(trie, ch, buffer, value)
                },
            }
        },
        Some(SearchSeg::Use(u)) => {
            assert(buffer@ == pending@.drop_last());
            match &*u {
                Trie::Leaf { value: _, rest_nodes } => {
                    let ghost below = buffer@;
                    let mut i: usize = 0;
                    while i < rest_nodes.len()
                        invariant
                            i <= rest_nodes.len(),
                            buffer@ == below + rest_nodes@.take(i as int),
                        decreases rest_nodes.len() - i,
                    {
                        buffer.push(rest_nodes[i].clone());
                        i += 1;
                        assert(buffer@ =~= below + rest_nodes@.take(i as int));
                    }
                    assert(rest_nodes@.take(rest_nodes.len() as int) == rest_nodes@);
                    proof {
                        lemma_segs_model_concat(below, rest_nodes@);
                        lemma_stack_size_concat(segs_model(below), segs_model(rest_nodes@));
                    }
                    compile_rule(trie, buffer, value)
                },
                Trie::Branch(b) => {
                    let ghost kids = kids_model(b@);
                    let ghost below = segs_model(buffer@);
                    let ghost goal = insert_fan(trie@, below, kids, 0, value as nat);
                    let mut cur = trie;
                    let mut i: usize = 0;
                    while i < b.len()
                        invariant
                            i <= b.len(),
                            kids == kids_model(b@),
                            below == segs_model(buffer@),
                            insert_fan(cur@, below, kids, i as int, value as nat) == goal,
                            insert_rule(trie@, segs_model(pending@), value as nat) == goal,
                            stack_size(segs_model(pending@)) == stack_size(below) + trie_size(
                                TrieModel::Branch(kids),
                            ),
                        decreases b.len() - i,
                    {
                        let mut buffer2 = clone_segs(&buffer);
                        let sub = b[i].1.clone();
                        proof {
                            lemma_segs_model_push(buffer2@, SearchSeg::Use(sub));
                            lemma_stack_size_push(below, SearchSegModel::Use(kids[i as int].1));
                            lemma_kid_is_smaller(kids, i as int);
                        }
                        buffer2.push(SearchSeg::Use(sub));
                        match insert_at(cur, b[i].0, buffer2, value) {
                            Err(e) => {
                                return Err(e);
                            },
                            Ok(t2) => {
                                cur = t2;
                            },
                        }
                        i += 1;
                    }
                    Ok(cur)
                },
            }
        },
    }
}

/// Adds the rule `value` to `trie` below the character `c`, with `pending`
/// still to be placed after that character.
fn insert_at(trie: Trie, c: char, pending: Vec<SearchSeg>, value: u32) -> (r: Result<
    Trie,
    Ambiguity,
>)
    ensures
        match insert_at_model(trie@, c, segs_model(pending@), value as nat) {
            Ok(m) => (r matches Ok(t) && t@ == m),
            Err(e) => r == Err::<Trie, Ambiguity>(e),
        },
    decreases stack_size(segs_model(pending@)), 3nat, 0nat,
{
    let (mut kids, found) = match trie.insert(c) {
        Ok(x) => x,
        Err(e) => {
            return Err(e);
        },
    };
    match found {
        None => {
            let leaf = Rc::new(Trie::Leaf { value, rest_nodes: pending });
            proof {
                lemma_kids_model_push(kids@, c, leaf);
            }
            kids.push((c, leaf));
            Ok(Trie::Branch(kids))
        },
        Some(k) => {
            let ghost before = kids@;
            let kid = unshare(take_kid(&mut kids, k));
            match compile_rule(kid, pending, value) {
                Err(e) => Err(e),
                Ok(kid2) => {
                    put_kid(&mut kids, k, c, kid2);
                    assert(kids_model(kids@) =~= kids_model(before).update(k as int, (c, kid2@)));
                    Ok(Trie::Branch(kids))
                },
            }
        },
    }
}

/// Builds the lookahead trie of the section `info`, whose linked rules are
/// `rules`: the rules are added one by one, the earliest under the lowest
/// index.  Fails at the first rule that cannot be told apart from the rules
/// before it.
pub fn compile(rules: &Vec<Vec<LinkedSeg>>, table: &Vec<LinkedSection>, info: &SecInfo) -> (r:
    Result<Trie, LinkError>)
    requires
        rules_resolved(linked_rules_view(rules@), table@.len()),
        rules@.len() <= u32::MAX,
    ensures
        match compile_model(
            trie_rules(linked_rules_view(rules@), table_tries(linked_table_view(table@))),
        ) {
            Ok(m) => (r matches Ok(t) && t@ == m),
            Err((i, kind)) => r == Err::<Trie, LinkError>(
                LinkError::AmbiguousRule { section: *info, rule: i as u32, kind },
            ),
        },
{
    let ghost tries = table_tries(linked_table_view(table@));
    let ghost model = trie_rules(linked_rules_view(rules@), tries);
    let mut trie = Trie::new();
    let mut value: usize = 0;
    while value < rules.len()
        invariant
            value <= rules.len() <= u32::MAX,
            tries == table_tries(linked_table_view(table@)),
            model == trie_rules(linked_rules_view(rules@), tries),
            rules_resolved(linked_rules_view(rules@), table@.len()),
            insert_rules(trie@, model, value as int) == compile_model(model),
        decreases rules.len() - value,
    {
        let rule = &rules[value];
        let ghost rule_model = trie_rule(linked_rules_view(rules@)[value as int], tries);
        let mut buffer: Vec<SearchSeg> = Vec::new();
        let mut j: usize = rule.len();
        while j > 0
            invariant
                j <= rule.len(),
                rule == rules@[value as int],
                0 <= value < rules.len(),
                tries == table_tries(linked_table_view(table@)),
                rule_model == trie_rule(linked_rules_view(rules@)[value as int], tries),
                rules_resolved(linked_rules_view(rules@), table@.len()),
                segs_model(buffer@) == rule_model.reverse().take(rule.len() - j),
            decreases j,
        {
            j -= 1;
            let seg = match &rule[j] {
                LinkedSeg::Text(t) => SearchSeg::Text(t.clone()),
                LinkedSeg::Use(u) => {
                    assert(linked_rules_view(rules@)[value as int][j as int] == rule@[j as int]@);
                    SearchSeg::Use(table[*u].search.clone())
                },
            };
            proof {
                lemma_segs_model_push(buffer@, seg);
                assert(seg_model(seg) == rule_model[j as int]);
                assert(rule_model.reverse().take(rule.len() - j) =~= rule_model.reverse().take(
                    rule.len() - j - 1,
                ).push(rule_model[j as int]));
            }
            buffer.push(seg);
        }
        assert(rule_model.reverse().take(rule.len() as int) == rule_model.reverse());
        match compile_rule(trie, buffer, value as u32) {
            Err(kind) => {
                return Err(
                    LinkError::AmbiguousRule { section: info.clone(), rule: value as u32, kind },
                );
            },
            Ok(t) => {
                trie = t;
            },
        }
        value += 1;
    }
    Ok(trie)
}

} // verus!


//! What the tries mean: the texts that a stack of pending segments stands
//! for, and the texts that a trie tells to be of a rule.

use super::searcher::{
    as_table, expand_rest, fan_out, insert_at_model, insert_fan, insert_rule, insert_rules,
    lemma_kid_is_smaller, lemma_stack_size_concat, lemma_stack_size_drop_last,
    lemma_stack_size_push, stack_size, trie_size, SearchSegModel, TrieModel,
};
use crate::syntax::{find_key, lemma_find_key};
use vstd::prelude::*;

verus! {

/// Whether `x` is a text that the stack of segments stands for: the text of
/// its last segment, then of the one below, and so on to the first.
pub open spec fn in_stack(stack: Seq<SearchSegModel>, x: Seq<char>) -> bool
    decreases stack_size(stack), 1nat,
{
    if stack.len() == 0 {
        x.len() == 0
    } else {
        let below = stack.drop_last();
        match stack.last() {
            SearchSegModel::Text(s) => {
                proof {
                    lemma_stack_size_drop_last(stack);
                }
                s.is_prefix_of(x) && in_stack(below, x.skip(s.len() as int))
            },
            SearchSegModel::Use(u) => {
                proof {
                    lemma_stack_size_drop_last(stack);
                }
                in_trie_then(u, below, x)
            },
        }
    }
}

/// Whether `x` is a text of the trie `u` followed by a text of the stack
/// `below`.
pub open spec fn in_trie_then(u: TrieModel, below: Seq<SearchSegModel>, x: Seq<char>) -> bool
    decreases stack_size(below) + trie_size(u), 0nat,
{
    match u {
        TrieModel::Leaf { value, rest } => {
            proof {
                lemma_stack_size_concat(below, rest);
            }
            in_stack(below + rest, x)
        },
        TrieModel::Branch(kids) => x.len() > 0 && match find_key(kids, x[0], 0) {
            None => false,
            Some(k) => {
                proof {
                    lemma_find_key(kids, x[0], 0);
                    lemma_kid_is_smaller(kids, k);
                }
                in_trie_then(kids[k].1, below, x.drop_first())
            },
        },
    }
}

/// Whether `x` is a text of the trie `u`.
pub open spec fn in_trie(u: TrieModel, x: Seq<char>) -> bool {
    in_trie_then(u, Seq::empty(), x)
}

/// Whether the trie `t` tells the text `x` to be of the rule `v`: the
/// characters of `x` lead through its branches to a leaf of that rule, and
/// what is left of `x` there is a text of what the leaf owes.
pub open spec fn covered(t: TrieModel, x: Seq<char>, v: nat) -> bool
    decreases t,
{
    match t {
        TrieModel::Leaf { value, rest } => value == v && in_stack(rest, x),
        TrieModel::Branch(kids) => x.len() > 0 && match find_key(kids, x[0], 0) {
            None => false,
            Some(k) => {
                proof {
                    lemma_find_key(kids, x[0], 0);
                }
                covered(kids[k].1, x.drop_first(), v)
            },
        },
    }
}

/// The children that a leaf turns into tell of the rule of the leaf every
/// text that the leaf owed.
pub proof fn lemma_expand_covers(value: nat, rest: Seq<SearchSegModel>, x: Seq<char>)
    requires
        expand_rest(value, rest) is Some,
        in_stack(rest, x),
    ensures
        covered(TrieModel::Branch(expand_rest(value, rest)->0), x, value),
    decreases stack_size(rest),
{
    let below = rest.drop_last();
    lemma_stack_size_drop_last(rest);
    match rest.last() {
        SearchSegModel::Text(s) => {
            if s.len() == 0 {
                assert(x.skip(0) =~= x);
                lemma_expand_covers(value, below, x);
            } else {
                let tail = s.drop_first();
                let leaf = TrieModel::Leaf { value, rest: below.push(SearchSegModel::Text(tail)) };
                let kids = seq![(s[0], leaf)];
                assert(expand_rest(value, rest)->0 == kids);
                assert(x[0] == s[0]);
                assert(find_key(kids, x[0], 0) == Some(0int));
                assert(below.push(SearchSegModel::Text(tail)).drop_last() =~= below);
                assert(tail.is_prefix_of(x.drop_first()));
                assert(x.drop_first().skip(tail.len() as int) =~= x.skip(s.len() as int));
                assert(covered(kids[0].1, x.drop_first(), value));
            }
        },
        SearchSegModel::Use(u) => {
            match u {
                TrieModel::Leaf { value: _, rest: inner } => {
                    lemma_stack_size_concat(below, inner);
                    assert(in_trie_then(u, below, x));
                    assert(in_stack(below + inner, x));
                    lemma_expand_covers(value, below + inner, x);
                },
                TrieModel::Branch(sub) => {
                    let kids = fan_out(value, below, sub);
                    assert(in_trie_then(u, below, x));
                    let k = find_key(sub, x[0], 0)->0;
                    lemma_find_key(sub, x[0], 0);
                    lemma_find_key_same_keys(sub, kids, x[0], 0);
                    let pushed = below.push(SearchSegModel::Use(sub[k].1));
                    assert(pushed.drop_last() =~= below);
                    assert(in_trie_then(sub[k].1, below, x.drop_first()));
                    assert(in_stack(pushed, x.drop_first()));
                    assert(covered(kids[k].1, x.drop_first(), value));
                },
            }
        },
    }
}

/// Sequences with the same keys find the same key at the same place.
pub proof fn lemma_find_key_same_keys<A, B>(
    a: Seq<(char, A)>,
    b: Seq<(char, B)>,
    c: char,
    from: int,
)
    requires
        a.len() == b.len(),
        forall|i: int| 0 <= i < a.len() ==> a[i].0 == b[i].0,
    ensures
        find_key(a, c, from) == find_key(b, c, from),
    decreases a.len() - from,
{
    if 0 <= from < a.len() && a[from].0 != c {
        lemma_find_key_same_keys(a, b, c, from + 1);
    }
}

/// A key that the children have stays where it is when a child is added.
pub proof fn lemma_find_key_push<A>(kids: Seq<(char, A)>, kid: (char, A), c: char, from: int)
    requires
        0 <= from,
    ensures
        find_key(kids, c, from) is Some ==> find_key(kids.push(kid), c, from) == find_key(
            kids,
            c,
            from,
        ),
        find_key(kids, c, from) is None && kid.0 == c && from <= kids.len() ==> find_key(
            kids.push(kid),
            c,
            from,
        ) == Some(kids.len() as int),
    decreases kids.len() - from,
{
    if from < kids.len() {
        if kids[from].0 != c {
            lemma_find_key_push(kids, kid, c, from + 1);
        }
    }
}

/// The keys are found as before when a child is replaced under its key.
pub proof fn lemma_find_key_update<A>(kids: Seq<(char, A)>, k: int, kid: A, c: char, from: int)
    requires
        0 <= k < kids.len(),
        0 <= from,
    ensures
        find_key(kids.update(k, (kids[k].0, kid)), c, from) == find_key(kids, c, from),
    decreases kids.len() - from,
{
    if from < kids.len() {
        if kids[from].0 != c {
            lemma_find_key_update(kids, k, kid, c, from + 1);
        }
    }
}

/// What a trie told of a text, its children tell of it.
pub proof fn lemma_as_table_keeps(t: TrieModel, x: Seq<char>, w: nat)
    requires
        as_table(t) is Some,
        covered(t, x, w),
    ensures
        covered(TrieModel::Branch(as_table(t)->0), x, w),
{
    if let TrieModel::Leaf { value, rest } = t {
        lemma_expand_covers(value, rest, x);
    }
}

/// After a rule is added to a trie, the trie tells what it told before, and
/// tells of the new rule every text that the rule stands for.
pub proof fn lemma_insert_rule_covers(
    t: TrieModel,
    buf: Seq<SearchSegModel>,
    v: nat,
    x: Seq<char>,
    w: nat,
)
    requires
        insert_rule(t, buf, v) is Ok,
        covered(t, x, w) || (w == v && in_stack(buf, x)),
    ensures
        covered(insert_rule(t, buf, v)->Ok_0, x, w),
    decreases stack_size(buf), 2nat, 0nat,
{
    let below = buf.drop_last();
    lemma_stack_size_drop_last(buf);
    match buf.last() {
        SearchSegModel::Text(s) => {
            if s.len() == 0 {
                assert(x.skip(0) =~= x);
                lemma_insert_rule_covers(t, below, v, x, w);
            } else {
                let tail = s.drop_first();
                let next = below.push(SearchSegModel::Text(tail));
                lemma_stack_size_push(below, SearchSegModel::Text(tail));
                if !covered(t, x, w) {
                    assert(next.drop_last() =~= below);
                    assert(tail.is_prefix_of(x.drop_first()));
                    assert(x.drop_first().skip(tail.len() as int) =~= x.skip(s.len() as int));
                    assert(in_stack(next, x.drop_first()));
                }
                lemma_insert_at_covers(t, s[0], next, v, x, w);
            }
        },
        SearchSegModel::Use(u) => {
            match u {
                TrieModel::Leaf { value: _, rest: inner } => {
                    lemma_stack_size_concat(below, inner);
                    if !covered(t, x, w) {
                        assert(in_trie_then(u, below, x));
                        assert(in_stack(below + inner, x));
                    }
                    lemma_insert_rule_covers(t, below + inner, v, x, w);
                },
                TrieModel::Branch(kids) => {
                    if !covered(t, x, w) {
                        assert(in_trie_then(u, below, x));
                        lemma_find_key(kids, x[0], 0);
                        assert(in_trie_then(
                            kids[find_key(kids, x[0], 0)->0].1,
                            below,
                            x.drop_first(),
                        ));
                    }
                    lemma_insert_fan_covers(t, below, kids, 0, v, x, w);
                },
            }
        },
    }
}

/// Inserting under the character `c` keeps what was covered, and covers for
/// `v` the texts that begin with `c` and go on as `buf` does.
pub proof fn lemma_insert_at_covers(
    t: TrieModel,
    c: char,
    buf: Seq<SearchSegModel>,
    v: nat,
    x: Seq<char>,
    w: nat,
)
    requires
        insert_at_model(t, c, buf, v) is Ok,
        covered(t, x, w) || (w == v && x.len() > 0 && x[0] == c && in_stack(buf, x.drop_first())),
    ensures
        covered(insert_at_model(t, c, buf, v)->Ok_0, x, w),
    decreases stack_size(buf), 3nat, 0nat,
{
    let kids = as_table(t)->0;
    let old = TrieModel::Branch(kids);
    if covered(t, x, w) {
        lemma_as_table_keeps(t, x, w);
    }
    match find_key(kids, c, 0) {
        None => {
            let kid = (c, TrieModel::Leaf { value: v, rest: buf });
            let grown = kids.push(kid);
            assert(insert_at_model(t, c, buf, v)->Ok_0 == TrieModel::Branch(grown));
            lemma_find_key_push(kids, kid, x[0], 0);
            if covered(old, x, w) {
                let k = find_key(kids, x[0], 0)->0;
                lemma_find_key(kids, x[0], 0);
                assert(grown[k] == kids[k]);
                assert(covered(grown[k].1, x.drop_first(), w));
            } else {
                assert(grown[kids.len() as int] == kid);
                assert(covered(kid.1, x.drop_first(), w));
            }
        },
        Some(k) => {
            lemma_find_key(kids, c, 0);
            let kid = insert_rule(kids[k].1, buf, v)->Ok_0;
            let changed = kids.update(k, (c, kid));
            assert(insert_at_model(t, c, buf, v)->Ok_0 == TrieModel::Branch(changed));
            lemma_find_key_update(kids, k, kid, x[0], 0);
            if covered(old, x, w) {
                let j = find_key(kids, x[0], 0)->0;
                lemma_find_key(kids, x[0], 0);
                if j == k {
                    lemma_insert_rule_covers(kids[k].1, buf, v, x.drop_first(), w);
                } else {
                    assert(changed[j] == kids[j]);
                }
                assert(covered(changed[j].1, x.drop_first(), w));
            } else {
                lemma_insert_rule_covers(kids[k].1, buf, v, x.drop_first(), w);
                assert(find_key(changed, x[0], 0) == Some(k));
                assert(covered(changed[k].1, x.drop_first(), w));
            }
        },
    }
}

/// Inserting below each branch from the `i`-th on keeps what was covered,
/// and covers for `v` the texts that one of those branches begins.
pub proof fn lemma_insert_fan_covers(
    t: TrieModel,
    below: Seq<SearchSegModel>,
    kids: Seq<(char, TrieModel)>,
    i: int,
    v: nat,
    x: Seq<char>,
    w: nat,
)
    requires
        0 <= i,
        insert_fan(t, below, kids, i, v) is Ok,
        covered(t, x, w) || (w == v && x.len() > 0 && find_key(kids, x[0], 0) is Some && find_key(
            kids,
            x[0],
            0,
        )->0 >= i && in_trie_then(
            kids[find_key(kids, x[0], 0)->0].1,
            below,
            x.drop_first(),
        )),
    ensures
        covered(insert_fan(t, below, kids, i, v)->Ok_0, x, w),
    decreases stack_size(below) + trie_size(TrieModel::Branch(kids)), 1nat, kids.len() - i,
{
    if i < kids.len() {
        lemma_kid_is_smaller(kids, i);
        let next = below.push(SearchSegModel::Use(kids[i].1));
        lemma_stack_size_push(below, SearchSegModel::Use(kids[i].1));
        let t1 = insert_at_model(t, kids[i].0, next, v)->Ok_0;
        if covered(t, x, w) {
            lemma_insert_at_covers(t, kids[i].0, next, v, x, w);
            lemma_insert_fan_covers(t1, below, kids, i + 1, v, x, w);
        } else {
            let k = find_key(kids, x[0], 0)->0;
            lemma_find_key(kids, x[0], 0);
            if k == i {
                assert(next.drop_last() =~= below);
                assert(in_stack(next, x.drop_first()));
                lemma_insert_at_covers(t, kids[i].0, next, v, x, w);
            }
            lemma_insert_fan_covers(t1, below, kids, i + 1, v, x, w);
        }
    } else {
        if !covered(t, x, w) {
            lemma_find_key(kids, x[0], 0);
        }
    }
}

/// The trie of the rules added so far tells, of each of them, every text
/// that the rule stands for.
pub proof fn lemma_insert_rules_cover(
    t: TrieModel,
    rules: Seq<Seq<SearchSegModel>>,
    i: int,
    r: int,
    x: Seq<char>,
)
    requires
        0 <= i,
        insert_rules(t, rules, i) is Ok,
        0 <= r < rules.len(),
        r < i ==> covered(t, x, r as nat),
        in_stack(rules[r].reverse(), x),
    ensures
        covered(insert_rules(t, rules, i)->Ok_0, x, r as nat),
    decreases rules.len() - i,
{
    if i < rules.len() {
        let t1 = insert_rule(t, rules[i].reverse(), i as nat)->Ok_0;
        if r <= i {
            lemma_insert_rule_covers(t, rules[i].reverse(), i as nat, x, r as nat);
        }
        lemma_insert_rules_cover(t1, rules, i + 1, r, x);
    }
}

/// A text that a trie tells to be of a rule is a text of the trie.
pub proof fn lemma_covered_is_in_trie(t: TrieModel, x: Seq<char>, v: nat)
    requires
        covered(t, x, v),
    ensures
        in_trie(t, x),
    decreases t,
{
    match t {
        TrieModel::Leaf { value, rest } => {
            assert(Seq::<SearchSegModel>::empty() + rest =~= rest);
        },
        TrieModel::Branch(kids) => {
            let k = find_key(kids, x[0], 0)->0;
            lemma_find_key(kids, x[0], 0);
            lemma_covered_is_in_trie(kids[k].1, x.drop_first(), v);
        },
    }
}

/// A text of a stack followed by a text of another is a text of the first
/// stack put on top of the other.
pub proof fn lemma_in_stack_concat(
    top: Seq<SearchSegModel>,
    below: Seq<SearchSegModel>,
    y: Seq<char>,
    z: Seq<char>,
)
    requires
        in_stack(top, y),
        in_stack(below, z),
    ensures
        in_stack(below + top, y + z),
    decreases stack_size(top), 1nat,
{
    if top.len() == 0 {
        assert(below + top =~= below);
        assert(y + z =~= z);
    } else {
        let rest = top.drop_last();
        lemma_stack_size_drop_last(top);
        assert((below + top).drop_last() =~= below + rest);
        assert((below + top).last() == top.last());
        match top.last() {
            SearchSegModel::Text(s) => {
                lemma_in_stack_concat(rest, below, y.skip(s.len() as int), z);
                assert((y + z).skip(s.len() as int) =~= y.skip(s.len() as int) + z);
                assert(s.is_prefix_of(y + z));
            },
            SearchSegModel::Use(u) => {
                assert(in_trie_then(u, rest, y));
                lemma_in_trie_then_concat(u, rest, below, y, z);
                assert(in_trie_then(u, below + rest, y + z));
            },
        }
    }
}

/// A text of a trie and the segments above it, followed by a text of the
/// segments below, is a text of the trie and both runs of segments.
pub proof fn lemma_in_trie_then_concat(
    u: TrieModel,
    top: Seq<SearchSegModel>,
    below: Seq<SearchSegModel>,
    y: Seq<char>,
    z: Seq<char>,
)
    requires
        in_trie_then(u, top, y),
        in_stack(below, z),
    ensures
        in_trie_then(u, below + top, y + z),
    decreases stack_size(top) + trie_size(u), 0nat,
{
    match u {
        TrieModel::Leaf { value, rest } => {
            lemma_stack_size_concat(top, rest);
            assert(in_stack(top + rest, y));
            lemma_in_stack_concat(top + rest, below, y, z);
            assert(below + (top + rest) =~= (below + top) + rest);
        },
        TrieModel::Branch(kids) => {
            let k = find_key(kids, y[0], 0)->0;
            lemma_find_key(kids, y[0], 0);
            lemma_kid_is_smaller(kids, k);
            assert(in_trie_then(kids[k].1, top, y.drop_first()));
            lemma_in_trie_then_concat(kids[k].1, top, below, y.drop_first(), z);
            assert((y + z).drop_first() =~= y.drop_first() + z);
            assert((y + z)[0] == y[0]);
        },
    }
}

/// A text of a trie followed by a text of a stack is a text of the stack
/// with the trie on top.
pub proof fn lemma_in_stack_push_use(
    u: TrieModel,
    below: Seq<SearchSegModel>,
    y: Seq<char>,
    z: Seq<char>,
)
    requires
        in_trie(u, y),
        in_stack(below, z),
    ensures
        in_stack(below.push(SearchSegModel::Use(u)), y + z),
{
    lemma_in_trie_then_concat(u, Seq::empty(), below, y, z);
    assert(below + Seq::<SearchSegModel>::empty() =~= below);
    assert(below.push(SearchSegModel::Use(u)).drop_last() =~= below);
}

/// A literal text followed by a text of a stack is a text of the stack
/// with the literal text on top.
pub proof fn lemma_in_stack_push_text(
    s: Seq<char>,
    below: Seq<SearchSegModel>,
    z: Seq<char>,
)
    requires
        in_stack(below, z),
    ensures
        in_stack(below.push(SearchSegModel::Text(s)), s + z),
{
    assert(below.push(SearchSegModel::Text(s)).drop_last() =~= below);
    assert((s + z).skip(s.len() as int) =~= z);
    assert(s.is_prefix_of(s + z));
}

} // verus!

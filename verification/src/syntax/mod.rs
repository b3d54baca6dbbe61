//! A compiled grammar: sections of rules, each with the automaton that tells
//! its rules apart.

use crate::share_str::ShareStr;
use vstd::prelude::*;

pub mod compiler;

pub use compiler::compile;

verus! {

/// A compiled grammar: its sections by index, the section `entry` first.
pub type SerializeMap = Vec<Section>;

/// A section of a compiled grammar.
#[derive(Debug)]
pub struct Section {
    /// The rules, by index.
    pub encoder: Vec<Vec<Seg>>,
    /// The lookahead automaton that tells from the text ahead which rule
    /// it was made by.
    pub decoder: Layer,
}

/// A segment of a rule: literal text, or the index of another section.
#[derive(Debug)]
pub enum Seg {
    Text(ShareStr),
    Use(u32),
}

/// A node of a lookahead automaton: either the rule is known, or the next
/// character decides how to go on.
#[derive(Debug)]
pub enum Layer {
    Branch(Vec<(char, Layer)>),
    Certain(u32),
}

/// Model of a segment of a rule.
pub enum SegModel {
    Text(Seq<char>),
    Use(nat),
}

/// Model of a lookahead automaton.
pub enum LayerModel {
    Branch(Seq<(char, LayerModel)>),
    Certain(nat),
}

/// Model of a section of a compiled grammar.
pub struct SectionModel {
    pub rules: Seq<Seq<SegModel>>,
    pub decoder: LayerModel,
}

impl View for Seg {
    type V = SegModel;

    open spec fn view(&self) -> SegModel {
        match self {
            Seg::Text(t) => SegModel::Text(t@),
            Seg::Use(i) => SegModel::Use(*i as nat),
        }
    }
}

/// The model of an automaton.
pub open spec fn layer_model(l: Layer) -> LayerModel
    decreases l, 0nat,
{
    match l {
        Layer::Branch(kids) => LayerModel::Branch(layer_kids_model(kids@)),
        Layer::Certain(c) => LayerModel::Certain(c as nat),
    }
}

/// The model of the branches of an automaton.
pub open spec fn layer_kids_model(kids: Seq<(char, Layer)>) -> Seq<(char, LayerModel)>
    decreases kids, 1nat,
{
    Seq::new(
        kids.len(),
        |i: int|
            if 0 <= i < kids.len() {
                (kids[i].0, layer_model(kids[i].1))
            } else {
                arbitrary()
            },
    )
}

/// The number of nodes of an automaton.
pub open spec fn layer_size(l: LayerModel) -> nat
    decreases l, 0nat,
{
    match l {
        LayerModel::Certain(_) => 1,
        LayerModel::Branch(kids) => 1 + layers_size(kids, kids.len()),
    }
}

/// The number of nodes below the first `n` children.
pub open spec fn layers_size(kids: Seq<(char, LayerModel)>, n: nat) -> nat
    decreases kids, n,
{
    if 0 < n <= kids.len() {
        layers_size(kids, (n - 1) as nat) + layer_size(kids[n - 1].1)
    } else {
        0
    }
}

proof fn lemma_layers_size_monotone(kids: Seq<(char, LayerModel)>, i: int, n: nat)
    requires
        0 <= i < n <= kids.len(),
    ensures
        layer_size(kids[i].1) <= layers_size(kids, n),
    decreases n,
{
    if i < n - 1 {
        lemma_layers_size_monotone(kids, i, (n - 1) as nat);
    }
}

/// A child is smaller than the branch that holds it.
pub proof fn lemma_layer_kid_is_smaller(kids: Seq<(char, LayerModel)>, i: int)
    requires
        0 <= i < kids.len(),
    ensures
        layer_size(kids[i].1) < layer_size(LayerModel::Branch(kids)),
{
    lemma_layers_size_monotone(kids, i, kids.len());
}

impl View for Layer {
    type V = LayerModel;

    open spec fn view(&self) -> LayerModel {
        layer_model(*self)
    }
}

/// The model of a rule: the model of each of its segments.
pub open spec fn rule_view(rule: Seq<Seg>) -> Seq<SegModel> {
    Seq::new(rule.len(), |j: int| rule[j]@)
}

/// The model of a list of rules.
pub open spec fn rules_view(rules: Seq<Vec<Seg>>) -> Seq<Seq<SegModel>> {
    Seq::new(rules.len(), |i: int| rule_view(rules[i]@))
}

impl View for Section {
    type V = SectionModel;

    open spec fn view(&self) -> SectionModel {
        SectionModel { rules: rules_view(self.encoder@), decoder: self.decoder@ }
    }
}

/// The model of a table of sections.
pub open spec fn table_view(table: Seq<Section>) -> Seq<SectionModel> {
    Seq::new(table.len(), |i: int| table[i]@)
}

/// The first index from `from` on at which `kids` holds the key `c`.
pub open spec fn find_key<T>(kids: Seq<(char, T)>, c: char, from: int) -> Option<int>
    decreases kids.len() - from,
{
    if from < 0 || from >= kids.len() {
        None
    } else if kids[from].0 == c {
        Some(from)
    } else {
        find_key(kids, c, from + 1)
    }
}

/// The branch found is the first from `from` on with the character; none is
/// found only where no branch from there on has it.
pub proof fn lemma_find_key<T>(kids: Seq<(char, T)>, c: char, from: int)
    requires
        0 <= from,
    ensures
        match find_key(kids, c, from) {
            Some(k) => from <= k < kids.len() && kids[k].0 == c && forall|j: int|
                from <= j < k ==> kids[j].0 != c,
            None => forall|j: int| from <= j < kids.len() ==> kids[j].0 != c,
        },
    decreases kids.len() - from,
{
    if from < kids.len() && kids[from].0 != c {
        lemma_find_key(kids, c, from + 1);
    }
}

/// Every reference in `rules` names one of the first `n` sections.
pub open spec fn rules_in_range(rules: Seq<Seq<SegModel>>, n: nat) -> bool {
    forall|i: int, j: int|
        0 <= i < rules.len() && 0 <= j < rules[i].len() ==> (#[trigger] rules[i][j] matches SegModel::Use(
            t,
        ) ==> t < n)
}

/// Every rule that the automaton `l` can tell is one of the first `n`.
pub open spec fn layer_in_range(l: LayerModel, n: nat) -> bool
    decreases l, 0nat,
{
    match l {
        LayerModel::Certain(rule) => rule < n,
        LayerModel::Branch(kids) => layers_in_range(kids, kids.len(), n),
    }
}

/// Every rule that one of the first `m` children can tell is one of the
/// first `n`.
pub open spec fn layers_in_range(kids: Seq<(char, LayerModel)>, m: nat, n: nat) -> bool
    decreases kids, m,
{
    if 0 < m <= kids.len() {
        layers_in_range(kids, (m - 1) as nat, n) && layer_in_range(kids[m - 1].1, n)
    } else {
        true
    }
}

/// Where the first `m` branches name rules below `n`, each of them does.
pub proof fn lemma_layers_in_range_index(kids: Seq<(char, LayerModel)>, m: nat, n: nat, i: int)
    requires
        layers_in_range(kids, m, n),
        0 <= i < m <= kids.len(),
    ensures
        layer_in_range(kids[i].1, n),
    decreases m,
{
    if i < m - 1 {
        lemma_layers_in_range_index(kids, (m - 1) as nat, n, i);
    }
}

/// Where each of the first `m` branches names rules below `n`, they do
/// together.
pub proof fn lemma_layers_in_range_intro(kids: Seq<(char, LayerModel)>, m: nat, n: nat)
    requires
        m <= kids.len(),
        forall|i: int| 0 <= i < m ==> layer_in_range((#[trigger] kids[i]).1, n),
    ensures
        layers_in_range(kids, m, n),
    decreases m,
{
    if m > 0 {
        lemma_layers_in_range_intro(kids, (m - 1) as nat, n);
    }
}

/// Whether no character comes twice among the branches.
pub open spec fn keys_differ<T>(kids: Seq<(char, T)>) -> bool {
    forall|i: int, j: int| 0 <= i < j < kids.len() ==> (#[trigger] kids[i]).0 != (#[trigger] kids[j]).0
}

/// Whether an automaton has, wherever it branches, each character once.
pub open spec fn layer_is_keyed(l: LayerModel) -> bool
    decreases l, 0nat,
{
    match l {
        LayerModel::Certain(_) => true,
        LayerModel::Branch(kids) => keys_differ(kids) && layers_are_keyed(kids, kids.len()),
    }
}

/// Whether what each of the first `m` branches leads to has, wherever it
/// branches, each character once.
pub open spec fn layers_are_keyed(kids: Seq<(char, LayerModel)>, m: nat) -> bool
    decreases kids, m,
{
    if 0 < m <= kids.len() {
        layers_are_keyed(kids, (m - 1) as nat) && layer_is_keyed(kids[m - 1].1)
    } else {
        true
    }
}

/// Whether every automaton of the table has, wherever it branches, each
/// character once.
pub open spec fn table_is_keyed(table: Seq<SectionModel>) -> bool {
    forall|i: int| 0 <= i < table.len() ==> layer_is_keyed((#[trigger] table[i]).decoder)
}

/// What holds of the first `m` branches holds of each of them.
pub proof fn lemma_layers_are_keyed_index(kids: Seq<(char, LayerModel)>, m: nat, i: int)
    requires
        layers_are_keyed(kids, m),
        0 <= i < m <= kids.len(),
    ensures
        layer_is_keyed(kids[i].1),
    decreases m,
{
    if i < m - 1 {
        lemma_layers_are_keyed_index(kids, (m - 1) as nat, i);
    }
}

/// Where each of the first `m` branches leads to an automaton that has each
/// character once wherever it branches, they do together.
pub proof fn lemma_layers_are_keyed_intro(kids: Seq<(char, LayerModel)>, m: nat)
    requires
        m <= kids.len(),
        forall|i: int| 0 <= i < m ==> layer_is_keyed((#[trigger] kids[i]).1),
    ensures
        layers_are_keyed(kids, m),
    decreases m,
{
    if m > 0 {
        lemma_layers_are_keyed_intro(kids, (m - 1) as nat);
    }
}

/// A table that the codec can work with: it has a section, every section
/// has a rule, every reference names a section of the table, and every
/// automaton tells rules of its own section only.
pub open spec fn table_wf(table: Seq<SectionModel>) -> bool {
    &&& table.len() > 0
    &&& forall|i: int| 0 <= i < table.len() ==> (#[trigger] table[i]).rules.len() > 0
    &&& forall|i: int|
        0 <= i < table.len() ==> rules_in_range((#[trigger] table[i]).rules, table.len())
    &&& forall|i: int|
        0 <= i < table.len() ==> layer_in_range(
            (#[trigger] table[i]).decoder,
            table[i].rules.len(),
        )
}

/// Whether every rule that `layer` can tell is one of the first `n`.
pub fn layer_is_in_range(layer: &Layer, n: usize) -> (b: bool)
    ensures
        b == layer_in_range(layer@, n as nat),
    decreases layer_size(layer@),
{
    match layer {
        Layer::Certain(rule) => (*rule as usize) < n,
        Layer::Branch(kids) => {
            let ghost model = layer_kids_model(kids@);
            let mut i: usize = 0;
            while i < kids.len()
                invariant
                    i <= kids.len(),
                    model == layer_kids_model(kids@),
                    layer@ == LayerModel::Branch(model),
                    layers_in_range(model, i as nat, n as nat),
                decreases kids.len() - i,
            {
                proof {
                    lemma_layer_kid_is_smaller(model, i as int);
                    assert(model[i as int].1 == kids@[i as int].1@);
                }
                if !layer_is_in_range(&kids[i].1, n) {
                    proof {
                        if layers_in_range(model, model.len(), n as nat) {
                            lemma_layers_in_range_index(model, model.len(), n as nat, i as int);
                        }
                    }
                    return false;
                }
                i += 1;
            }
            true
        },
    }
}

/// Whether every reference in `rules` names one of the first `n` sections.
fn rules_are_in_range(rules: &Vec<Vec<Seg>>, n: usize) -> (b: bool)
    ensures
        b == rules_in_range(rules_view(rules@), n as nat),
{
    let ghost model = rules_view(rules@);
    let mut i: usize = 0;
    while i < rules.len()
        invariant
            i <= rules.len(),
            model == rules_view(rules@),
            forall|a: int, c: int|
                0 <= a < i && 0 <= c < model[a].len() ==> (#[trigger] model[a][c] matches SegModel::Use(
                    t,
                ) ==> t < n),
        decreases rules.len() - i,
    {
        let rule = &rules[i];
        assert(model[i as int] == rule_view(rule@));
        let mut j: usize = 0;
        while j < rule.len()
            invariant
                j <= rule.len(),
                0 <= i < rules.len(),
                rule == rules@[i as int],
                model == rules_view(rules@),
                model[i as int] == rule_view(rule@),
                forall|c: int|
                    0 <= c < j ==> (#[trigger] model[i as int][c] matches SegModel::Use(t) ==> t
                        < n),
            decreases rule.len() - j,
        {
            assert(model[i as int][j as int] == rule@[j as int]@);
            if let Seg::Use(target) = &rule[j] {
                if *target as usize >= n {
                    return false;
                }
            }
            j += 1;
        }
        i += 1;
    }
    true
}

/// Whether the codec can work with the table `map`.
pub fn is_valid(map: &Vec<Section>) -> (b: bool)
    ensures
        b == table_wf(table_view(map@)),
{
    let ghost table = table_view(map@);
    let n = map.len();
    if n == 0 {
        return false;
    }
    let mut i: usize = 0;
    while i < n
        invariant
            i <= n == map@.len(),
            table == table_view(map@),
            forall|k: int| 0 <= k < i ==> (#[trigger] table[k]).rules.len() > 0,
            forall|k: int| 0 <= k < i ==> rules_in_range((#[trigger] table[k]).rules, table.len()),
            forall|k: int|
                0 <= k < i ==> layer_in_range((#[trigger] table[k]).decoder, table[k].rules.len()),
        decreases n - i,
    {
        let section = &map[i];
        assert(table[i as int] == section@);
        if section.encoder.len() == 0 || !rules_are_in_range(&section.encoder, n)
            || !layer_is_in_range(&section.decoder, section.encoder.len()) {
            return false;
        }
        i += 1;
    }
    true
}

} // verus!

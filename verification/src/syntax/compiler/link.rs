//! Linking: the sections of a grammar gathered into one table, and the names
//! in their rules resolved to places in it.

use super::parse_tokens::{
    expr_rule_view, expr_rules_view, expr_sections_view, ExprSection, ExprSectionModel, ExprSeg,
    ExprSegModel, SecInfo,
};
use super::searcher::{
    compile, compile_model, lemma_compile_error_index, lemma_compile_values, values_below,
    Ambiguity, SearchSegModel, Trie, TrieModel,
};
use crate::share_str::ShareStr;
use std::rc::Rc;
use vstd::prelude::*;

verus! {

/// A segment of a linked rule: literal text, or the index, in the table of
/// linked sections, of the section referred to.
#[derive(Debug)]
pub enum LinkedSeg {
    Text(ShareStr),
    Use(usize),
}

/// Model of a segment of a linked rule.
pub enum LinkedSegModel {
    Text(Seq<char>),
    Use(nat),
}

impl View for LinkedSeg {
    type V = LinkedSegModel;

    open spec fn view(&self) -> LinkedSegModel {
        match self {
            LinkedSeg::Text(t) => LinkedSegModel::Text(t@),
            LinkedSeg::Use(i) => LinkedSegModel::Use(*i as nat),
        }
    }
}

/// A section whose references are resolved and whose lookahead trie is
/// built.
pub struct LinkedSection {
    pub rules: Vec<Vec<LinkedSeg>>,
    pub info: SecInfo,
    pub search: Rc<Trie>,
}

/// Model of a linked section.
pub struct LinkedSectionModel {
    pub rules: Seq<Seq<LinkedSegModel>>,
    pub name: Seq<char>,
    pub file: Seq<char>,
    pub search: TrieModel,
}

/// The model of a rule: the model of each of its segments.
pub open spec fn linked_rule_view(rule: Seq<LinkedSeg>) -> Seq<LinkedSegModel> {
    Seq::new(rule.len(), |j: int| rule[j]@)
}

/// The model of a list of rules.
pub open spec fn linked_rules_view(rules: Seq<Vec<LinkedSeg>>) -> Seq<Seq<LinkedSegModel>> {
    Seq::new(rules.len(), |i: int| linked_rule_view(rules[i]@))
}

impl View for LinkedSection {
    type V = LinkedSectionModel;

    open spec fn view(&self) -> LinkedSectionModel {
        LinkedSectionModel {
            rules: linked_rules_view(self.rules@),
            name: self.info.name@,
            file: self.info.file@,
            search: self.search@,
        }
    }
}

/// The model of a table of linked sections.
pub open spec fn linked_table_view(table: Seq<LinkedSection>) -> Seq<LinkedSectionModel> {
    Seq::new(table.len(), |i: int| table[i]@)
}

/// Why a grammar could not be linked.
#[derive(Debug)]
pub enum LinkError {
    /// A section without rules.
    EmptySection { section: SecInfo },
    /// A section defined again, in another file than the first time.
    DuplicateSection { section: SecInfo, earlier: SecInfo },
    /// A reference to a section that is not defined before its use.
    UnresolvedReference { name: ShareStr, section: SecInfo },
    /// No section named `entry`.
    MissingEntry,
    /// A rule that cannot be told apart from the rules before it.
    AmbiguousRule { section: SecInfo, rule: u32, kind: Ambiguity },
}

/// Model of a link error: the sections are given by name and file.
pub enum LinkErrorModel {
    EmptySection { name: Seq<char>, file: Seq<char> },
    DuplicateSection { name: Seq<char>, file: Seq<char>, earlier_file: Seq<char> },
    UnresolvedReference { name: Seq<char>, section: Seq<char>, file: Seq<char> },
    MissingEntry,
    AmbiguousRule { name: Seq<char>, file: Seq<char>, rule: nat, kind: Ambiguity },
}

impl View for LinkError {
    type V = LinkErrorModel;

    open spec fn view(&self) -> LinkErrorModel {
        match self {
            LinkError::EmptySection { section } => LinkErrorModel::EmptySection {
                name: section.name@,
                file: section.file@,
            },
            LinkError::DuplicateSection { section, earlier } => LinkErrorModel::DuplicateSection {
                name: section.name@,
                file: section.file@,
                earlier_file: earlier.file@,
            },
            LinkError::UnresolvedReference { name, section } => LinkErrorModel::UnresolvedReference {
                name: name@,
                section: section.name@,
                file: section.file@,
            },
            LinkError::MissingEntry => LinkErrorModel::MissingEntry,
            LinkError::AmbiguousRule { section, rule, kind } => LinkErrorModel::AmbiguousRule {
                name: section.name@,
                file: section.file@,
                rule: *rule as nat,
                kind: *kind,
            },
        }
    }
}

/// The tries of the sections of a table, by index.
pub open spec fn table_tries(table: Seq<LinkedSectionModel>) -> Seq<TrieModel> {
    Seq::new(table.len(), |i: int| table[i].search)
}

/// A linked segment as the trie builder sees it: a reference stands for the
/// trie of its target.
pub open spec fn trie_seg(seg: LinkedSegModel, tries: Seq<TrieModel>) -> SearchSegModel {
    match seg {
        LinkedSegModel::Text(t) => SearchSegModel::Text(t),
        LinkedSegModel::Use(i) => SearchSegModel::Use(tries[i as int]),
    }
}

/// A rule with each reference replaced by the trie of the section it names.
pub open spec fn trie_rule(rule: Seq<LinkedSegModel>, tries: Seq<TrieModel>) -> Seq<SearchSegModel> {
    Seq::new(rule.len(), |i: int| trie_seg(rule[i], tries))
}

/// Each rule with its references replaced by the tries they name.
pub open spec fn trie_rules(rules: Seq<Seq<LinkedSegModel>>, tries: Seq<TrieModel>) -> Seq<
    Seq<SearchSegModel>,
> {
    Seq::new(rules.len(), |i: int| trie_rule(rules[i], tries))
}

/// Every reference in `rules` names one of the first `n` sections.
pub open spec fn rules_resolved(rules: Seq<Seq<LinkedSegModel>>, n: nat) -> bool {
    forall|i: int, j: int|
        0 <= i < rules.len() && 0 <= j < rules[i].len() ==> (#[trigger] rules[i][j] matches LinkedSegModel::Use(
            t,
        ) ==> t < n)
}

/// The index of the first section named `name`.
pub open spec fn find_section(table: Seq<LinkedSectionModel>, name: Seq<char>, from: int) -> Option<
    int,
>
    decreases table.len() - from,
{
    if from < 0 || from >= table.len() {
        None
    } else if table[from].name == name {
        Some(from)
    } else {
        find_section(table, name, from + 1)
    }
}

/// The section found is the first from `from` on that bears the name; none
/// is found only where no section from there on bears it.
pub proof fn lemma_find_section(table: Seq<LinkedSectionModel>, name: Seq<char>, from: int)
    requires
        0 <= from,
    ensures
        match find_section(table, name, from) {
            Some(k) => from <= k < table.len() && table[k].name == name && forall|j: int|
                from <= j < k ==> table[j].name != name,
            None => forall|j: int| from <= j < table.len() ==> table[j].name != name,
        },
    decreases table.len() - from,
{
    if from < table.len() && table[from].name != name {
        lemma_find_section(table, name, from + 1);
    }
}

/// The segments `rule[j..]` with each name replaced by the index of the
/// section of that name, or the first name among them that no section of
/// `table` has.
pub open spec fn resolve_rule(table: Seq<LinkedSectionModel>, rule: Seq<ExprSegModel>, j: int) -> Result<
    Seq<LinkedSegModel>,
    Seq<char>,
>
    decreases rule.len() - j,
{
    if j < 0 || j >= rule.len() {
        Ok(Seq::empty())
    } else {
        let head = match rule[j] {
            ExprSegModel::Text(t) => Ok(LinkedSegModel::Text(t)),
            ExprSegModel::Use(name) => match find_section(table, name, 0) {
                Some(k) => Ok(LinkedSegModel::Use(k as nat)),
                None => Err(name),
            },
        };
        match head {
            Err(name) => Err(name),
            Ok(seg) => match resolve_rule(table, rule, j + 1) {
                Err(name) => Err(name),
                Ok(rest) => Ok(seq![seg] + rest),
            },
        }
    }
}

/// The rules `rules[i..]` with their names resolved against `table`, or the
/// first name among them that no section of `table` has.
pub open spec fn resolve_rules(
    table: Seq<LinkedSectionModel>,
    rules: Seq<Seq<ExprSegModel>>,
    i: int,
) -> Result<Seq<Seq<LinkedSegModel>>, Seq<char>>
    decreases rules.len() - i,
{
    if i < 0 || i >= rules.len() {
        Ok(Seq::empty())
    } else {
        match resolve_rule(table, rules[i], 0) {
            Err(name) => Err(name),
            Ok(rule) => match resolve_rules(table, rules, i + 1) {
                Err(name) => Err(name),
                Ok(rest) => Ok(seq![rule] + rest),
            },
        }
    }
}

/// The table after the sections `raw[i..]` were linked into it, one by one.
///
/// A section must have a rule; its references must name sections that are
/// in the table already; a section whose name is taken is skipped if it
/// comes from the same file as the holder of the name, and is an error
/// otherwise; a new section gets its lookahead trie and joins the table.
pub open spec fn link_from(table: Seq<LinkedSectionModel>, raw: Seq<ExprSectionModel>, i: int) -> Result<
    Seq<LinkedSectionModel>,
    LinkErrorModel,
>
    decreases raw.len() - i,
{
    if i < 0 || i >= raw.len() {
        Ok(table)
    } else {
        let sec = raw[i];
        if sec.rules.len() == 0 {
            Err(LinkErrorModel::EmptySection { name: sec.name, file: sec.file })
        } else {
            match resolve_rules(table, sec.rules, 0) {
                Err(name) => Err(
                    LinkErrorModel::UnresolvedReference {
                        name,
                        section: sec.name,
                        file: sec.file,
                    },
                ),
                Ok(rules) => match find_section(table, sec.name, 0) {
                    Some(k) => if table[k].file != sec.file {
                        Err(
                            LinkErrorModel::DuplicateSection {
                                name: sec.name,
                                file: sec.file,
                                earlier_file: table[k].file,
                            },
                        )
                    } else {
                        link_from(table, raw, i + 1)
                    },
                    None => match compile_model(trie_rules(rules, table_tries(table))) {
                        Err((rule, kind)) => Err(
                            LinkErrorModel::AmbiguousRule {
                                name: sec.name,
                                file: sec.file,
                                rule: rule as nat,
                                kind,
                            },
                        ),
                        Ok(search) => link_from(
                            table.push(
                                LinkedSectionModel {
                                    rules,
                                    name: sec.name,
                                    file: sec.file,
                                    search,
                                },
                            ),
                            raw,
                            i + 1,
                        ),
                    },
                },
            }
        }
    }
}

/// The table of the linked sections of a grammar, in the order in which
/// they were first defined.
pub open spec fn link_model(raw: Seq<ExprSectionModel>) -> Result<
    Seq<LinkedSectionModel>,
    LinkErrorModel,
> {
    link_from(Seq::empty(), raw, 0)
}

/// The linked table and the index of its section `entry`.
pub open spec fn link_secs_model(raw: Seq<ExprSectionModel>) -> Result<
    (Seq<LinkedSectionModel>, int),
    LinkErrorModel,
> {
    match link_model(raw) {
        Err(e) => Err(e),
        Ok(table) => match find_section(table, "entry"@, 0) {
            None => Err(LinkErrorModel::MissingEntry),
            Some(k) => Ok((table, k)),
        },
    }
}

/// The trie of each section is the trie compiled from its rules, with the
/// tries of the sections before it standing for the references.
pub open spec fn linked_compiled(table: Seq<LinkedSectionModel>) -> bool {
    forall|s: int|
        0 <= s < table.len() ==> compile_model(
            trie_rules((#[trigger] table[s]).rules, table_tries(table.take(s))),
        ) == Ok::<TrieModel, (int, Ambiguity)>(table[s].search)
}

/// What holds of every linked table: each section has a rule, refers only to
/// sections that stand before it, shares its name with no other, and has
/// the trie compiled from its rules, whose leaves stand for its own rules.
pub open spec fn linked_table_wf(table: Seq<LinkedSectionModel>) -> bool {
    &&& linked_compiled(table)
    &&& forall|i: int| 0 <= i < table.len() ==> (#[trigger] table[i]).rules.len() > 0
    &&& forall|i: int|
        0 <= i < table.len() ==> values_below((#[trigger] table[i]).search, table[i].rules.len())
    &&& forall|i: int| 0 <= i < table.len() ==> rules_resolved((#[trigger] table[i]).rules, i as nat)
    &&& forall|i: int, j: int|
        0 <= i < j < table.len() ==> (#[trigger] table[i]).name != (#[trigger] table[j]).name
}

/// A resolved rule has a segment for each one given, and refers only to
/// sections of the table.
pub proof fn lemma_resolve_rule(table: Seq<LinkedSectionModel>, rule: Seq<ExprSegModel>, j: int)
    requires
        0 <= j <= rule.len(),
    ensures
        resolve_rule(table, rule, j) matches Ok(segs) ==> {
            &&& segs.len() == rule.len() - j
            &&& forall|k: int|
                0 <= k < segs.len() ==> (#[trigger] segs[k] matches LinkedSegModel::Use(t) ==> t
                    < table.len())
        },
    decreases rule.len() - j,
{
    if j < rule.len() {
        lemma_resolve_rule(table, rule, j + 1);
        if let ExprSegModel::Use(name) = rule[j] {
            lemma_find_section(table, name, 0);
        }
    }
}

/// Resolved rules are as many as those given, and refer only to sections of
/// the table.
pub proof fn lemma_resolve_rules(
    table: Seq<LinkedSectionModel>,
    rules: Seq<Seq<ExprSegModel>>,
    i: int,
)
    requires
        0 <= i <= rules.len(),
    ensures
        resolve_rules(table, rules, i) matches Ok(linked) ==> {
            &&& linked.len() == rules.len() - i
            &&& rules_resolved(linked, table.len())
        },
    decreases rules.len() - i,
{
    if i < rules.len() {
        lemma_resolve_rules(table, rules, i + 1);
        lemma_resolve_rule(table, rules[i], 0);
    }
}

/// A table stays compiled when a section joins it whose trie is compiled
/// from its rules with the tries of the table.
pub proof fn lemma_linked_compiled_push(table: Seq<LinkedSectionModel>, section: LinkedSectionModel)
    requires
        linked_compiled(table),
        compile_model(trie_rules(section.rules, table_tries(table))) == Ok::<
            TrieModel,
            (int, Ambiguity),
        >(section.search),
    ensures
        linked_compiled(table.push(section)),
{
    let grown = table.push(section);
    assert forall|s: int| 0 <= s < grown.len() implies compile_model(
        trie_rules((#[trigger] grown[s]).rules, table_tries(grown.take(s))),
    ) == Ok::<TrieModel, (int, Ambiguity)>(grown[s].search) by {
        if s < table.len() {
            assert(grown.take(s) =~= table.take(s));
            assert(grown[s] == table[s]);
        } else {
            assert(grown.take(s) =~= table);
        }
    }
}

/// Linking keeps a table well formed.
pub proof fn lemma_link_from_wf(
    table: Seq<LinkedSectionModel>,
    raw: Seq<ExprSectionModel>,
    i: int,
)
    requires
        0 <= i,
        linked_table_wf(table),
    ensures
        link_from(table, raw, i) matches Ok(t) ==> linked_table_wf(t),
    decreases raw.len() - i,
{
    if i < raw.len() {
        let sec = raw[i];
        if sec.rules.len() > 0 {
            if let Ok(rules) = resolve_rules(table, sec.rules, 0) {
                lemma_resolve_rules(table, sec.rules, 0);
                lemma_find_section(table, sec.name, 0);
                match find_section(table, sec.name, 0) {
                    Some(k) => {
                        if table[k].file == sec.file {
                            lemma_link_from_wf(table, raw, i + 1);
                        }
                    },
                    None => {
                        let model = trie_rules(rules, table_tries(table));
                        if let Ok(search) = compile_model(model) {
                            let section = LinkedSectionModel {
                                rules,
                                name: sec.name,
                                file: sec.file,
                                search,
                            };
                            let grown = table.push(section);
                            lemma_compile_values(model);
                            lemma_linked_compiled_push(table, section);
                            assert(linked_table_wf(grown)) by {
                                assert forall|k: int| 0 <= k < grown.len() implies (
                                #[trigger] grown[k]).rules.len() > 0 by {
                                    if k < table.len() {
                                        assert(grown[k] == table[k]);
                                    }
                                }
                                assert forall|k: int| 0 <= k < grown.len() implies values_below(
                                    (#[trigger] grown[k]).search,
                                    grown[k].rules.len(),
                                ) by {
                                    if k < table.len() {
                                        assert(grown[k] == table[k]);
                                    }
                                }
                                assert forall|k: int| 0 <= k < grown.len() implies rules_resolved(
                                    (#[trigger] grown[k]).rules,
                                    k as nat,
                                ) by {
                                    if k < table.len() {
                                        assert(grown[k] == table[k]);
                                    }
                                }
                                assert forall|a: int, b: int| 0 <= a < b < grown.len() implies (
                                #[trigger] grown[a]).name != (#[trigger] grown[b]).name by {
                                    assert(grown[a] == table[a]);
                                    if b < table.len() {
                                        assert(grown[b] == table[b]);
                                    }
                                }
                            }
                            lemma_link_from_wf(grown, raw, i + 1);
                        }
                    },
                }
            }
        }
    }
}

/// The table of a linked grammar is well formed, and holds its section
/// `entry` where the linking says.
pub proof fn lemma_link_secs_wf(raw: Seq<ExprSectionModel>)
    ensures
        link_secs_model(raw) matches Ok((table, entry)) ==> linked_table_wf(table) && 0 <= entry
            < table.len(),
{
    assert(linked_table_wf(Seq::<LinkedSectionModel>::empty()));
    lemma_link_from_wf(Seq::empty(), raw, 0);
    if let Ok(table) = link_model(raw) {
        lemma_find_section(table, "entry"@, 0);
    }
}

/// The sections linked so far, in the order in which they were defined.
pub struct SectionTable {
    pub table: Vec<LinkedSection>,
}

impl View for SectionTable {
    type V = Seq<LinkedSectionModel>;

    open spec fn view(&self) -> Seq<LinkedSectionModel> {
        linked_table_view(self.table@)
    }
}

impl SectionTable {
    /// The index of the section named `name`.
    pub fn lookup(&self, name: &ShareStr) -> (r: Option<usize>)
        ensures
            match r {
                Some(i) => find_section(self@, name@, 0) == Some(i as int) && i < self.table@.len(),
                None => find_section(self@, name@, 0) is None,
            },
    {
        let mut i: usize = 0;
        while i < self.table.len()
            invariant
                i <= self.table.len(),
                find_section(self@, name@, 0) == find_section(self@, name@, i as int),
            decreases self.table.len() - i,
        {
            assert(find_section(self@, name@, i as int) == if self@[i as int].name == name@ {
                Some(i as int)
            } else {
                find_section(self@, name@, i + 1)
            });
            if self.table[i].info.name == *name {
                return Some(i);
            }
            i += 1;
        }
        None
    }

    /// Resolves the references of one rule against the table.
    fn link_rule(&self, sec_info: &SecInfo, rule: &Vec<ExprSeg>) -> (r: Result<
        Vec<LinkedSeg>,
        LinkError,
    >)
        ensures
            match resolve_rule(self@, expr_rule_view(rule@), 0) {
                Ok(m) => (r matches Ok(v) && linked_rule_view(v@) == m),
                Err(name) => (r matches Err(e) && e@ == LinkErrorModel::UnresolvedReference {
                    name,
                    section: sec_info.name@,
                    file: sec_info.file@,
                }),
            },
    {
        let ghost model = expr_rule_view(rule@);
        let mut new_rule: Vec<LinkedSeg> = Vec::new();
        let mut j: usize = 0;
        while j < rule.len()
            invariant
                j <= rule.len(),
                model == expr_rule_view(rule@),
                resolve_rule(self@, model, 0) == match resolve_rule(self@, model, j as int) {
                    Ok(rest) => Ok(linked_rule_view(new_rule@) + rest),
                    Err(name) => Err(name),
                },
            decreases rule.len() - j,
        {
            let ghost done = linked_rule_view(new_rule@);
            let new_seg = match &rule[j] {
                ExprSeg::Text(txt) => LinkedSeg::Text(txt.clone()),
                ExprSeg::Use(r) => match self.lookup(r) {
                    Some(k) => LinkedSeg::Use(k),
                    None => {
                        assert(model[j as int] == rule@[j as int]@);
                        return Err(
                            LinkError::UnresolvedReference {
                                name: r.clone(),
                                section: sec_info.clone(),
                            },
                        );
                    },
                },
            };
            new_rule.push(new_seg);
            proof {
                assert(model[j as int] == rule@[j as int]@);
                if let ExprSegModel::Use(name) = model[j as int] {
                    lemma_find_section(self@, name, 0);
                }
                assert(linked_rule_view(new_rule@) =~= done.push(new_seg@));
                assert(resolve_rule(self@, model, j as int) == match resolve_rule(
                    self@,
                    model,
                    j + 1,
                ) {
                    Err(name) => Err::<Seq<LinkedSegModel>, Seq<char>>(name),
                    Ok(rest) => Ok(seq![new_seg@] + rest),
                });
                if let Ok(rest) = resolve_rule(self@, model, j + 1) {
                    assert(done + (seq![new_seg@] + rest) =~= done.push(new_seg@) + rest);
                }
            }
            j += 1;
        }
        assert(linked_rule_view(new_rule@) + Seq::<LinkedSegModel>::empty() =~= linked_rule_view(
            new_rule@,
        ));
        Ok(new_rule)
    }

    /// Resolves the references of the rules of one section against the
    /// table: each name becomes the index of the section of that name.
    /// Fails at the first name that no section of the table has.
    pub fn link_segs(&self, sec_info: &SecInfo, rules: &Vec<Vec<ExprSeg>>) -> (r: Result<
        Vec<Vec<LinkedSeg>>,
        LinkError,
    >)
        ensures
            match resolve_rules(self@, expr_rules_view(rules@), 0) {
                Ok(m) => (r matches Ok(v) && linked_rules_view(v@) == m),
                Err(name) => (r matches Err(e) && e@ == LinkErrorModel::UnresolvedReference {
                    name,
                    section: sec_info.name@,
                    file: sec_info.file@,
                }),
            },
    {
        let ghost model = expr_rules_view(rules@);
        let mut new_rules: Vec<Vec<LinkedSeg>> = Vec::new();
        let mut i: usize = 0;
        while i < rules.len()
            invariant
                i <= rules.len(),
                model == expr_rules_view(rules@),
                resolve_rules(self@, model, 0) == match resolve_rules(self@, model, i as int) {
                    Ok(rest) => Ok(linked_rules_view(new_rules@) + rest),
                    Err(name) => Err(name),
                },
            decreases rules.len() - i,
        {
            let ghost done = linked_rules_view(new_rules@);
            assert(model[i as int] == expr_rule_view(rules@[i as int]@));
            let new_rule = match self.link_rule(sec_info, &rules[i]) {
                Ok(rule) => rule,
                Err(e) => {
                    return Err(e);
                },
            };
            let ghost rule_model = linked_rule_view(new_rule@);
            new_rules.push(new_rule);
            proof {
                assert(linked_rules_view(new_rules@) =~= done.push(rule_model));
                if let Ok(rest) = resolve_rules(self@, model, i + 1) {
                    assert(done + (seq![rule_model] + rest) =~= done.push(rule_model) + rest);
                }
            }
            i += 1;
        }
        assert(linked_rules_view(new_rules@) + Seq::<Seq<LinkedSegModel>>::empty()
            =~= linked_rules_view(new_rules@));
        Ok(new_rules)
    }

    /// Links the sections of a grammar, in order.
    ///
    /// A section must have a rule, and each of its references must name a
    /// section defined before it.  A section whose name is taken is skipped
    /// if the holder of the name comes from the same file, and refused
    /// otherwise.  Every new section gets its lookahead trie.
    pub fn parse(raw_sections: Vec<ExprSection>) -> (r: Result<SectionTable, LinkError>)
        requires
            forall|i: int|
                0 <= i < raw_sections@.len() ==> (#[trigger] raw_sections@[i]).rules@.len()
                    <= u32::MAX,
        ensures
            match link_model(expr_sections_view(raw_sections@)) {
                Ok(table) => (r matches Ok(t) && t@ == table && linked_table_wf(table)
                    && table.len() <= raw_sections@.len()),
                Err(e) => (r matches Err(x) && x@ == e),
            },
    {
        let ghost raw = expr_sections_view(raw_sections@);
        let mut this = SectionTable { table: Vec::new() };
        assert(this@ =~= Seq::<LinkedSectionModel>::empty());
        assert(linked_compiled(this@));
        let mut i: usize = 0;
        while i < raw_sections.len()
            invariant
                i <= raw_sections.len(),
                raw == expr_sections_view(raw_sections@),
                forall|k: int|
                    0 <= k < raw_sections@.len() ==> (#[trigger] raw_sections@[k]).rules@.len()
                        <= u32::MAX,
                link_from(this@, raw, i as int) == link_model(raw),
                linked_table_wf(this@),
                this@.len() <= i,
            decreases raw_sections.len() - i,
        {
            let section = &raw_sections[i];
            let ghost sec = raw[i as int];
            assert(sec == section@);
            if section.rules.len() == 0 {
                return Err(LinkError::EmptySection { section: section.info.clone() });
            }
            let new_rules = match this.link_segs(&section.info, &section.rules) {
                Ok(rules) => rules,
                Err(e) => {
                    return Err(e);
                },
            };
            proof {
                lemma_resolve_rules(this@, sec.rules, 0);
                lemma_find_section(this@, sec.name, 0);
            }
            match this.lookup(&section.info.name) {
                Some(k) => {
                    let old_sec = &this.table[k].info;
                    if section.info.file != old_sec.file {
                        return Err(
                            LinkError::DuplicateSection {
                                section: section.info.clone(),
                                earlier: old_sec.clone(),
                            },
                        );
                    }
                },
                None => {
                    proof {
                        lemma_compile_error_index(
                            trie_rules(linked_rules_view(new_rules@), table_tries(this@)),
                        );
                        lemma_compile_values(
                            trie_rules(linked_rules_view(new_rules@), table_tries(this@)),
                        );
                    }
                    let search = match compile(&new_rules, &this.table, &section.info) {
                        Ok(trie) => trie,
                        Err(e) => {
                            return Err(e);
                        },
                    };
                    let ghost before = this@;
                    let linked = LinkedSection {
                        rules: new_rules,
                        info: section.info.clone(),
                        search: Rc::new(search),
                    };
                    this.table.push(linked);
                    assert(this@ =~= before.push(linked@));
                    proof {
                        lemma_linked_compiled_push(before, linked@);
                    }
                },
            }
            i += 1;
        }
        Ok(this)
    }
}

/// Links the sections of a grammar and finds the section `entry` among
/// them: the table of linked sections, and the index of `entry` in it.
pub fn link_secs(sections: Vec<ExprSection>) -> (r: Result<(SectionTable, usize), LinkError>)
    requires
        forall|i: int|
            0 <= i < sections@.len() ==> (#[trigger] sections@[i]).rules@.len() <= u32::MAX,
    ensures
        match link_secs_model(expr_sections_view(sections@)) {
            Ok((table, entry)) => (r matches Ok((t, k)) && t@ == table && k == entry && 0 <= entry
                < table.len() <= sections@.len() && linked_table_wf(table)),
            Err(e) => (r matches Err(x) && x@ == e),
        },
{
    let table = match SectionTable::parse(sections) {
        Ok(t) => t,
        Err(e) => {
            return Err(e);
        },
    };
    let name = ShareStr::new("entry");
    match table.lookup(&name) {
        Some(k) => Ok((table, k)),
        None => Err(LinkError::MissingEntry),
    }
}

} // verus!

use food_generator2::share_str::ShareStr;
use food_generator2::syntax::compiler::link::{link_secs, LinkError, LinkedSeg, SectionTable};
use food_generator2::syntax::compiler::parse_tokens::{parse, ExprSection, SyntaxParser};
use food_generator2::syntax::compiler::searcher::{split_first, Ambiguity, Trie};
use food_generator2::syntax::compiler::serialize::{serialize, serialize_trie};
use food_generator2::syntax::{compile, Layer, Section, Seg};

fn sections_of(files: &[(&str, &str)]) -> Vec<ExprSection> {
    let mut parser = SyntaxParser::parse(ShareStr::new(files[0].0), files[0].1).unwrap();
    while let Some(request) = parser.next_include() {
        let (name, text) = files
            .iter()
            .find(|(name, _)| *name == request.path.as_str())
            .expect("the file that is included is given");
        parser.read_file(ShareStr::new(name), text).unwrap();
    }
    parser.sections
}

fn one_file(src: &str) -> Vec<ExprSection> {
    sections_of(&[("entry.txt", src)])
}

fn show_layer(layer: &Layer) -> String {
    match layer {
        Layer::Certain(rule) => format!("{}", rule),
        Layer::Branch(kids) => {
            let mut parts: Vec<String> =
                kids.iter().map(|(c, kid)| format!("{}:{}", c, show_layer(kid))).collect();
            parts.sort();
            format!("({})", parts.join(" "))
        }
    }
}

fn show_rules(section: &Section) -> Vec<Vec<String>> {
    section
        .encoder
        .iter()
        .map(|rule| {
            rule.iter()
                .map(|seg| match seg {
                    Seg::Text(t) => format!("T:{}", t.as_str()),
                    Seg::Use(i) => format!("U:{}", i),
                })
                .collect()
        })
        .collect()
}

fn automaton(src: &str) -> String {
    match compile(one_file(src)) {
        Ok(table) => show_layer(&table[0].decoder),
        Err(e) => panic!("{:?}", e),
    }
}

fn ambiguity(src: &str) -> (String, u32, Ambiguity) {
    match compile(one_file(src)) {
        Ok(table) => panic!("{:?}", table),
        Err(LinkError::AmbiguousRule { section, rule, kind }) => {
            (section.name.as_str(), rule, kind)
        }
        Err(e) => panic!("{:?}", e),
    }
}

#[test]
fn rules_are_told_apart_at_the_first_difference() {
    assert_eq!(automaton("[entry]\ncat\ndog\n"), "(c:0 d:1)");
    assert_eq!(automaton("[entry]\ncat\ncow\ncod\n"), "(c:(a:0 o:(d:2 w:1)))");
    assert_eq!(automaton("[entry]\nsoup\n"), "(s:0)");
}

#[test]
fn references_are_looked_into() {
    let src = "[pet]\ncat\ndog\n[entry]\n{pet} sleeps\ncow\n";
    assert_eq!(automaton(src), "(c:(a:0 o:1) d:0)");
    let src = "[pet]\ncat\ndog\n[entry]\ncow\n{pet} sleeps\n";
    assert_eq!(automaton(src), "(c:(a:1 o:0) d:1)");
}

#[test]
fn references_within_references_are_looked_into() {
    let src = "[a]\nxy\nxz\n[b]\n{a}1\nw\n[entry]\n{b}\nxq\n";
    assert_eq!(automaton(src), "(w:0 x:(q:1 y:0 z:0))");
}

#[test]
fn text_after_a_reference_tells_rules_apart() {
    let src = "[a]\nx\n[entry]\n{a}1\n{a}2\n";
    assert_eq!(automaton(src), "(x:(1:0 2:1))");
}

#[test]
fn rule_that_begins_another_rule_is_refused() {
    assert_eq!(ambiguity("[entry]\ncat\ncatalog\n"), ("entry".into(), 1, Ambiguity::LeafExhausted));
    assert_eq!(ambiguity("[entry]\ncatalog\ncat\n"), ("entry".into(), 1, Ambiguity::RuleContained));
    assert_eq!(ambiguity("[entry]\ncat\ncat\n"), ("entry".into(), 1, Ambiguity::RuleContained));
}

#[test]
fn rule_that_begins_another_rule_through_a_reference_is_refused() {
    let src = "[a]\nab\n[entry]\nabc\n{a}\n";
    assert_eq!(ambiguity(src), ("entry".into(), 1, Ambiguity::RuleContained));
    let src = "[a]\nab\n[entry]\n{a}\nabc\n";
    assert_eq!(ambiguity(src), ("entry".into(), 1, Ambiguity::LeafExhausted));
    let src = "[a]\nab\ncd\n[b]\nabx\n{a}\n[entry]\n{b}\n";
    assert_eq!(ambiguity(src), ("b".into(), 1, Ambiguity::RuleContained));
    let src = "[a]\nab\ncd\n[b]\n{a}\nabx\n[entry]\n{b}\n";
    assert_eq!(ambiguity(src), ("b".into(), 1, Ambiguity::LeafExhausted));
}

#[test]
fn what_a_reference_owes_is_read_in_order() {
    // the second rule of `entry` makes "ab", then what `u` makes, then "cd":
    // it begins with the whole first rule
    let src = "[u]\nx\n[t]\nab{u}cd\n[entry]\nab\n{t}\n";
    assert_eq!(ambiguity(src), ("entry".into(), 1, Ambiguity::LeafExhausted));
    let src = "[u]\nx\n[t]\nab{u}cd\n[entry]\nac\n{t}\n";
    assert_eq!(automaton(src), "(a:(b:1 c:0))");
}

#[test]
fn rule_without_text_is_refused() {
    let src = "[entry]\n\u{a0}\nsoup\n";
    assert_eq!(ambiguity(src), ("entry".into(), 0, Ambiguity::RuleContained));
}

#[test]
fn section_without_rules_is_refused() {
    match link_secs(one_file("[entry]\n[more]\nx\n")) {
        Err(LinkError::EmptySection { section }) => {
            assert_eq!(section.name.as_str(), "entry");
            assert_eq!(section.file.as_str(), "entry.txt");
        }
        other => panic!("{:?}", other.map(|_| ())),
    }
}

#[test]
fn reference_to_a_section_not_yet_defined_is_refused() {
    match link_secs(one_file("[entry]\n{later}\n[later]\nx\n")) {
        Err(LinkError::UnresolvedReference { name, section }) => {
            assert_eq!(name.as_str(), "later");
            assert_eq!(section.name.as_str(), "entry");
        }
        other => panic!("{:?}", other.map(|_| ())),
    }
    match link_secs(one_file("[entry]\nagain {entry}\n")) {
        Err(LinkError::UnresolvedReference { name, .. }) => assert_eq!(name.as_str(), "entry"),
        other => panic!("{:?}", other.map(|_| ())),
    }
}

#[test]
fn grammar_without_entry_is_refused() {
    match link_secs(one_file("[start]\nx\n")) {
        Err(LinkError::MissingEntry) => {}
        other => panic!("{:?}", other.map(|_| ())),
    }
    match link_secs(Vec::new()) {
        Err(LinkError::MissingEntry) => {}
        other => panic!("{:?}", other.map(|_| ())),
    }
}

#[test]
fn section_defined_again_in_another_file_is_refused() {
    let files = [
        ("entry.txt", "[include \"a.txt\"]\n[include \"b.txt\"]\n[entry]\n{food}\n"),
        ("a.txt", "[food]\nsoup\n"),
        ("b.txt", "[food]\nstew\n"),
    ];
    match link_secs(sections_of(&files)) {
        Err(LinkError::DuplicateSection { section, earlier }) => {
            assert_eq!(section.name.as_str(), "food");
            assert_eq!(section.file.as_str(), "b.txt");
            assert_eq!(earlier.name.as_str(), "food");
            assert_eq!(earlier.file.as_str(), "a.txt");
        }
        other => panic!("{:?}", other.map(|_| ())),
    }
}

#[test]
fn section_defined_again_in_the_same_file_is_kept_once() {
    let files = [
        ("entry.txt", "[include \"a.txt\"]\n[include \"a.txt\"]\n[entry]\n{food}\n"),
        ("a.txt", "[food]\nsoup\nstew\n"),
    ];
    let (table, entry) = match link_secs(sections_of(&files)) {
        Ok(found) => found,
        Err(e) => panic!("{:?}", e),
    };
    assert_eq!(table.table.len(), 2);
    assert_eq!(entry, 1);
    assert_eq!(table.table[0].info.name.as_str(), "food");
    assert_eq!(table.table[1].info.name.as_str(), "entry");
    match &table.table[1].rules[0][0] {
        LinkedSeg::Use(target) => assert_eq!(*target, 0),
        other => panic!("{:?}", other),
    }
    assert_eq!(table.lookup(&ShareStr::new("food")), Some(0));
    assert_eq!(table.lookup(&ShareStr::new("drink")), None);
}

#[test]
fn a_reference_is_checked_before_the_name_of_its_section() {
    let files = [
        ("entry.txt", "[include \"a.txt\"]\n[include \"b.txt\"]\n[entry]\n{food}\n"),
        ("a.txt", "[food]\nsoup\n"),
        ("b.txt", "[food]\n{drink}\n"),
    ];
    match link_secs(sections_of(&files)) {
        Err(LinkError::UnresolvedReference { name, section }) => {
            assert_eq!(name.as_str(), "drink");
            assert_eq!(section.file.as_str(), "b.txt");
        }
        other => panic!("{:?}", other.map(|_| ())),
    }
}

#[test]
fn flat_table_begins_with_entry_and_holds_what_it_reaches() {
    let src = "[unused]\nu\n[leaf]\nl1\nl2\n[mid]\nm {leaf}\n[entry]\n{mid} and {leaf}\nalone\n";
    let table = compile(one_file(src)).unwrap();
    assert_eq!(table.len(), 3);
    assert_eq!(
        show_rules(&table[0]),
        vec![vec!["U:1".to_string(), "T: and ".into(), "U:2".into()], vec!["T:alone".to_string()]]
    );
    assert_eq!(show_rules(&table[1]), vec![vec!["T:m ".to_string(), "U:2".into()]]);
    assert_eq!(show_rules(&table[2]), vec![vec!["T:l1".to_string()], vec!["T:l2".to_string()]]);
    assert_eq!(show_layer(&table[0].decoder), "(a:1 m:0)");
    assert_eq!(show_layer(&table[1].decoder), "(m:0)");
    assert_eq!(show_layer(&table[2].decoder), "(l:(1:0 2:1))");
}

#[test]
fn flattening_by_hand() {
    let (linked, entry) = link_secs(one_file("[a]\nx\n[entry]\n{a}{a}\n")).unwrap();
    let table = serialize(&linked, entry);
    assert_eq!(table.len(), 2);
    assert_eq!(show_rules(&table[0]), vec![vec!["U:1".to_string(), "U:1".into()]]);
    assert_eq!(show_layer(&serialize_trie(&linked.table[0].search)), "(x:0)");
    let parsed = SectionTable::parse(one_file("[a]\nx\n[b]\n{a}\n")).unwrap();
    assert_eq!(parsed.table.len(), 2);
}

#[test]
fn trie_parts() {
    assert_eq!(show_layer(&serialize_trie(&Trie::new())), "()");
    match split_first(&ShareStr::new("héé")) {
        Some((c, rest)) => {
            assert_eq!(c, 'h');
            assert_eq!(rest.as_str(), "éé");
        }
        None => panic!("a text with characters has a first one"),
    }
    assert!(split_first(&ShareStr::new("")).is_none());
    let leaf = Trie::Leaf { value: 3, rest_nodes: Vec::new() };
    assert!(matches!(leaf.expand_to_table(), Err(Ambiguity::LeafExhausted)));
    let (kids, found) = Trie::new().insert('x').unwrap();
    assert!(kids.is_empty());
    assert_eq!(found, None);
    let started = parse(ShareStr::new("e"), "[entry]\nx\n").unwrap();
    assert!(started.sections.is_empty());
}

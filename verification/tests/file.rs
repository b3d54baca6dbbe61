use food_generator2::file::read::{get_layer, get_seg, table_of};
use food_generator2::file::write::{payload_of, put_layer, put_seg};
use food_generator2::file::{read_lib, save_lib};
use food_generator2::share_str::ShareStr;
use food_generator2::syntax::compiler::parse_tokens::SyntaxParser;
use food_generator2::syntax::{compile, Layer, Section, Seg};
use food_generator2::{decode, encode};

fn build(src: &str) -> Vec<Section> {
    let mut parser = SyntaxParser::parse(ShareStr::new("entry.txt"), src).unwrap();
    assert!(parser.next_include().is_none());
    compile(parser.sections).unwrap()
}

fn show_layer(layer: &Layer) -> String {
    match layer {
        Layer::Certain(rule) => format!("{}", rule),
        Layer::Branch(kids) => {
            let parts: Vec<String> =
                kids.iter().map(|(c, kid)| format!("{}:{}", c, show_layer(kid))).collect();
            format!("({})", parts.join(" "))
        }
    }
}

fn show(table: &[Section]) -> Vec<(Vec<Vec<String>>, String)> {
    table
        .iter()
        .map(|section| {
            let rules = section
                .encoder
                .iter()
                .map(|rule| {
                    rule.iter()
                        .map(|seg| match seg {
                            Seg::Text(t) => format!("T:{}", t.as_str()),
                            Seg::Use(i) => format!("U:{}", i),
                        })
                        .collect()
                })
                .collect();
            (rules, show_layer(&section.decoder))
        })
        .collect()
}

fn small() -> Vec<Section> {
    vec![Section {
        encoder: vec![vec![Seg::Text(ShareStr::new("é")), Seg::Use(0)]],
        decoder: Layer::Branch(vec![('é', Layer::Certain(0))]),
    }]
}

const SMALL: [u8; 15] = [1, 1, 2, 0, 2, 0xC3, 0xA9, 1, 0, 1, 1, 0x40, 0xE9, 0, 0];

#[test]
fn payload_has_the_documented_layout() {
    assert_eq!(payload_of(&small()), SMALL.to_vec());
    assert_eq!(payload_of(&Vec::new()), vec![0]);
}

#[test]
fn payload_is_read_back() {
    let table = table_of(&SMALL).unwrap();
    assert_eq!(show(&table), show(&small()));
    assert_eq!(show(&table_of(&[0]).unwrap()), show(&[]));
    // what follows the last section is not looked at
    let mut longer = SMALL.to_vec();
    longer.extend([9, 9, 9]);
    assert_eq!(show(&table_of(&longer).unwrap()), show(&small()));
}

#[test]
fn segments_and_automata_alone() {
    let mut data = vec![0xEE];
    put_seg(&mut data, &Seg::Text(ShareStr::new("ab")));
    put_seg(&mut data, &Seg::Use(70));
    assert_eq!(data, vec![0xEE, 0, 2, b'a', b'b', 1, 0x40, 70]);
    match get_seg(&data, 1) {
        Some((Seg::Text(t), end)) => {
            assert_eq!(t.as_str(), "ab");
            assert_eq!(end, 5);
        }
        other => panic!("{:?}", other),
    }
    match get_seg(&data, 5) {
        Some((Seg::Use(70), 8)) => {}
        other => panic!("{:?}", other),
    }
    let layer = Layer::Branch(vec![
        ('a', Layer::Certain(300)),
        ('\u{1F600}', Layer::Branch(vec![])),
    ]);
    let mut data = Vec::new();
    put_layer(&mut data, &layer);
    assert_eq!(data, vec![1, 2, 0x40, 0x61, 0, 0x41, 0x2C, 0x81, 0xF6, 0x00, 1, 0]);
    let (read, end) = get_layer(&data, 0).unwrap();
    assert_eq!(end, data.len());
    assert_eq!(show_layer(&read), show_layer(&layer));
}

#[test]
fn broken_payload_is_refused() {
    // nothing at all
    assert!(table_of(&[]).is_none());
    // cut short
    for len in 1..SMALL.len() {
        assert!(table_of(&SMALL[..len]).is_none(), "{}", len);
    }
    // a tag that is neither text nor reference
    let mut bad = SMALL.to_vec();
    bad[3] = 2;
    assert!(table_of(&bad).is_none());
    // a tag that is neither rule nor branch
    let mut bad = SMALL.to_vec();
    bad[9] = 7;
    assert!(table_of(&bad).is_none());
    // text that is not UTF-8
    let mut bad = SMALL.to_vec();
    bad[6] = 0xC3;
    assert!(table_of(&bad).is_none());
    // a text longer than the payload
    let mut bad = SMALL.to_vec();
    bad[4] = 60;
    assert!(table_of(&bad).is_none());
}

#[test]
fn key_that_is_no_character_is_refused() {
    // a branch with one child under the surrogate D800
    assert!(get_layer(&[1, 1, 0x80, 0xD8, 0x00, 0, 0], 0).is_none());
    // and under a number beyond the last code point
    assert!(get_layer(&[1, 1, 0x91, 0x00, 0x00, 0, 0], 0).is_none());
    // the last code point is one
    assert!(get_layer(&[1, 1, 0x90, 0xFF, 0xFF, 0, 0], 0).is_some());
}

#[test]
fn key_that_comes_twice_is_refused() {
    assert!(get_layer(&[1, 2, b'!', 0, 0, b'#', 0, 1], 0).is_some());
    assert!(get_layer(&[1, 2, b'!', 0, 0, b'!', 0, 1], 0).is_none());
}

#[test]
fn stored_table_is_compressed_and_read_back() {
    let table = build("[food]\nsoup\nstew\nsalad\n[entry]\n{food} for {food}\nnothing\n");
    let payload = payload_of(&table);
    let file = save_lib(&table);
    assert_ne!(file, payload);
    let read = read_lib(&file).unwrap();
    assert_eq!(show(&read), show(&table));
    let text = encode(&read, b"!");
    assert_eq!(text, encode(&table, b"!"));
    assert_eq!(decode(&read, &text).unwrap(), b"!".to_vec());
}

#[test]
fn file_that_is_not_compressed_is_refused() {
    assert!(read_lib(&[0xFF, 0xFF, 0xFF, 0xFF]).is_err());
    assert!(read_lib(&SMALL).is_err());
}

fn has_each_key_once(layer: &Layer) -> bool {
    match layer {
        Layer::Certain(_) => true,
        Layer::Branch(kids) => kids.iter().enumerate().all(|(i, (key, kid))| {
            kids[..i].iter().all(|(earlier, _)| earlier != key) && has_each_key_once(kid)
        }),
    }
}

#[test]
fn compiled_automata_have_each_character_once() {
    let table = build("[word]\ncat\ncar\ndog\n[entry]\n{word} sat\ncow\n{word}s\n");
    assert_eq!(table.len(), 2);
    assert!(table.iter().all(|section| has_each_key_once(&section.decoder)));
    assert_eq!(show_layer(&table[0].decoder), "(c:(a:(t:( :0 s:2) r:( :0 s:2)) o:1) d:(o:(g:( :0 s:2))))");
    let read = table_of(&payload_of(&table)).unwrap();
    assert_eq!(show(&read), show(&table));
    assert!(read.iter().all(|section| has_each_key_once(&section.decoder)));
}

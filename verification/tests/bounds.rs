use food_generator2::decoder::{decode_within, DecodeErrorKind};
use food_generator2::encoder::encode_within;
use food_generator2::file::write::can_save;
use food_generator2::share_str::ShareStr;
use food_generator2::syntax::compiler::parse_tokens::SyntaxParser;
use food_generator2::syntax::{compile, is_valid, layer_is_in_range, Layer, Section, Seg};
use food_generator2::{decode, encode};

fn build(src: &str) -> Vec<Section> {
    let mut parser = SyntaxParser::parse(ShareStr::new("entry.txt"), src).unwrap();
    assert!(parser.next_include().is_none());
    compile(parser.sections).unwrap()
}

fn text(s: &str) -> Seg {
    Seg::Text(ShareStr::new(s))
}

/// One section that refers to itself: `x`, or itself in brackets.
fn nested() -> Vec<Section> {
    vec![Section {
        encoder: vec![vec![text("x")], vec![text("("), Seg::Use(0), text(")")]],
        decoder: Layer::Branch(vec![('x', Layer::Certain(0)), ('(', Layer::Certain(1))]),
    }]
}

/// One section with one rule: no bit is used by a derivation.
fn idle() -> Vec<Section> {
    vec![Section {
        encoder: vec![vec![text("a")]],
        decoder: Layer::Branch(vec![('a', Layer::Certain(0))]),
    }]
}

#[test]
fn bounded_encoding_agrees_with_encoding() {
    let table = build("[entry]\ncat\ndog\n");
    for input in [&[][..], &[0x00][..], &[0xA7][..], &[1, 2, 3][..]] {
        // one derivation for each bit and one for the end token, none nested
        let needed = if input.is_empty() { 0 } else { 8 * input.len() + 1 };
        assert_eq!(encode_within(&table, input, needed), Some(encode(&table, input)));
        assert_eq!(encode_within(&table, input, usize::MAX), Some(encode(&table, input)));
    }
    assert_eq!(encode_within(&table, &[], 0), Some(String::new()));
    assert_eq!(encode_within(&table, &[0x00], 8), None);
    assert_eq!(encode_within(&table, &[0x00], 0), None);
}

#[test]
fn bounded_decoding_agrees_with_decoding() {
    let table = build("[entry]\ncat\ndog\n");
    let text = encode(&table, &[0x5C]);
    assert_eq!(decode_within(&table, &text, 9).map(|r| r.unwrap()), Some(vec![0x5C]));
    assert_eq!(decode(&table, &text).unwrap(), vec![0x5C]);
    assert!(decode_within(&table, &text, 8).is_none());
    assert_eq!(decode_within(&table, "", 0).map(|r| r.unwrap()), Some(Vec::new()));
    let error = decode_within(&table, "catfish", 10).unwrap().unwrap_err();
    assert_eq!(error.kind, DecodeErrorKind::UnexpectedChar);
    assert_eq!(error.position, 3);
}

#[test]
fn section_that_refers_to_itself() {
    let table = nested();
    assert!(is_valid(&table));
    // eight bits 1 nest eight times; the first bit of the end token is 0
    let text = encode_within(&table, &[0xFF], 64).unwrap();
    assert_eq!(text, "((((((((x))))))))");
    assert_eq!(decode_within(&table, &text, 64).unwrap().unwrap(), vec![0xFF]);
    assert_eq!(encode_within(&table, &[0xFF], 8), None);
    assert_eq!(encode_within(&table, &[0xFF], 9), Some(text.clone()));
    assert!(decode_within(&table, &text, 8).is_none());
    // the end token 0xFF nests eight times, the filler byte 0x9F five times
    let text = encode_within(&table, &[0x00], 64).unwrap();
    assert_eq!(text, "x".repeat(8) + &"(".repeat(13) + "x" + &")".repeat(13));
    assert_eq!(decode_within(&table, &text, 64).unwrap().unwrap(), vec![0x00]);
}

#[test]
fn derivations_that_use_no_bit_do_not_end() {
    let table = idle();
    assert!(is_valid(&table));
    assert_eq!(encode_within(&table, &[], 5), Some(String::new()));
    assert_eq!(encode_within(&table, &[7], 1000), None);
    // the text is read all the same: each derivation takes a character
    assert_eq!(decode_within(&table, "aaa", 4).unwrap().unwrap(), Vec::<u8>::new());
}

#[test]
fn tables_that_cannot_be_worked_with() {
    assert!(!is_valid(&Vec::new()));
    let no_rule = vec![Section { encoder: vec![], decoder: Layer::Branch(vec![]) }];
    assert!(!is_valid(&no_rule));
    let dangling = vec![Section {
        encoder: vec![vec![Seg::Use(1)]],
        decoder: Layer::Branch(vec![]),
    }];
    assert!(!is_valid(&dangling));
    let wrong_rule = vec![Section {
        encoder: vec![vec![text("a")]],
        decoder: Layer::Branch(vec![('a', Layer::Branch(vec![('b', Layer::Certain(1))]))]),
    }];
    assert!(!is_valid(&wrong_rule));
    assert!(is_valid(&build("[a]\nx\n[entry]\n{a}\ny\n")));
    assert!(layer_is_in_range(&Layer::Certain(2), 3));
    assert!(!layer_is_in_range(&Layer::Certain(3), 3));
    assert!(layer_is_in_range(&Layer::Branch(vec![]), 0));
}

#[test]
fn tables_that_can_be_stored() {
    assert!(can_save(&Vec::new()));
    assert!(can_save(&nested()));
    assert!(can_save(&build("[a]\nx\n[entry]\n{a}\ny\n")));
    let far = vec![Section {
        encoder: vec![vec![Seg::Use(0x4000_0000)]],
        decoder: Layer::Certain(0),
    }];
    assert!(!can_save(&far));
    let high = vec![Section {
        encoder: vec![vec![Seg::Use(0x3FFF_FFFF)]],
        decoder: Layer::Branch(vec![('a', Layer::Certain(0x4000_0000))]),
    }];
    assert!(!can_save(&high));
    let edge = vec![Section {
        encoder: vec![vec![Seg::Use(0x3FFF_FFFF)]],
        decoder: Layer::Branch(vec![('a', Layer::Certain(0x3FFF_FFFF))]),
    }];
    assert!(can_save(&edge));
}

use food_generator2::decoder::{truncate_str_after_chars, DecodeErrorKind};
use food_generator2::share_str::ShareStr;
use food_generator2::syntax::compiler::parse_tokens::SyntaxParser;
use food_generator2::syntax::{compile, Layer, Section, Seg};
use food_generator2::{decode, decode_mode, encode, encode_mode, DecodeModeError};

fn build(src: &str) -> Vec<Section> {
    let mut parser = SyntaxParser::parse(ShareStr::new("entry.txt"), src).unwrap();
    assert!(parser.next_include().is_none());
    compile(parser.sections).unwrap()
}

const PETS: &str = "[entry]\ncat\ndog\n";

/// Sixteen bits are used by each derivation from `entry`.
const WIDE: &str = "[n]\na\nb\nc\nd\ne\nf\ng\nh\ni\nj\nk\nl\nm\nn\no\np\n\
[entry]\n{n}{n}{n}{n}\n";

const SENTENCES: &str = "[food]\nsoup\nstew\nsalad\n\
[who]\nthe cook\nmy aunt\na stranger\nnobody\nthe cat\n\
[how]\nslowly\nwith {food}\nat night\n\
[entry]\n{who} eats {food} {how}.\n{who} cooks {food}, then {food}.\nNo {food} today!\n";

#[test]
fn one_bit_picks_between_two_rules() {
    let table = build(PETS);
    assert_eq!(encode(&table, &[0x00]), "catcatcatcatcatcatcatcatdog");
    assert_eq!(encode(&table, &[0xFF]), "dogdogdogdogdogdogdogdogcat");
    assert_eq!(encode(&table, &[0b0000_0110]), "catdogdogcatcatcatcatcatdog");
}

#[test]
fn one_byte_comes_back() {
    let table = build(PETS);
    assert_eq!(decode(&table, "catcatcatcatcatcatcatcatdog").unwrap(), vec![0x00]);
    assert_eq!(decode(&table, "dogdogdogdogdogdogdogdogcat").unwrap(), vec![0xFF]);
    for byte in 0..=255u8 {
        assert_eq!(decode(&table, &encode(&table, &[byte])).unwrap(), vec![byte]);
    }
}

#[test]
fn nothing_encodes_to_nothing() {
    for src in [PETS, WIDE, SENTENCES] {
        let table = build(src);
        assert_eq!(encode(&table, &[]), "");
        assert_eq!(decode(&table, "").unwrap(), Vec::<u8>::new());
    }
}

#[test]
fn encoding_is_the_same_each_time() {
    let table = build(SENTENCES);
    let input = b"the same bytes";
    assert_eq!(encode(&table, input), encode(&table, input));
}

#[test]
fn bytes_come_back_when_the_end_token_is_used_up() {
    let table = build(WIDE);
    let inputs: [&[u8]; 7] = [
        &[0x00],
        &[0x00, 0x00],
        &[0x00, 0xFF, 0x12],
        &[0xFF, 0x00, 0xFF, 0x00],
        b"hello, world",
        &[0x80, 0x7F, 0x80, 0x7F, 0x01],
        &[1, 2, 3, 4, 5, 6, 7, 8, 9, 10, 11, 12, 13],
    ];
    for input in inputs {
        let text = encode(&table, input);
        assert_eq!(decode(&table, &text).unwrap(), input.to_vec(), "{:?}", input);
    }
}

#[test]
fn wide_grammar_uses_sixteen_bits_at_a_time() {
    let table = build(WIDE);
    // four bits pick among sixteen rules by four halvings, the first bit
    // deciding most: 1000 picks the ninth rule, 0100 the fifth, 1100 the
    // thirteenth, 0010 the third; the end token 0xBC and the filler byte 0xD5
    // give the second derivation
    assert_eq!(encode(&table, &[0x21, 0x43]), "iemcdnkl");
}

#[test]
fn longer_bytes_are_cut_when_the_end_token_is_not_used_up() {
    let table = build(PETS);
    let text = encode(&table, &[0x00, 0x00]);
    assert_eq!(text, "cat".repeat(16) + "dog");
    assert_eq!(decode(&table, &text).unwrap(), vec![0x00]);
    let text = encode(&table, &[0x0F, 0xF0, 0x33]);
    assert_eq!(decode(&table, &text).unwrap(), vec![0x0F]);
}

#[test]
fn sentences_decode_to_the_bits_that_picked_them() {
    let table = build(SENTENCES);
    for input in [&b"a"[..], &b"\x00"[..], &b"\xff"[..], &b"z"[..]] {
        let text = encode(&table, input);
        assert!(text.ends_with('.') || text.ends_with('!'));
        assert_eq!(decode(&table, &text).unwrap(), input.to_vec());
    }
}

#[test]
fn text_modes() {
    let table = build(WIDE);
    let text = encode_mode(&table, "grüße");
    assert_eq!(text, encode(&table, "grüße".as_bytes()));
    assert_eq!(decode_mode(&table, &text).unwrap(), "grüße");
    // 0xFF alone is no text in UTF-8
    let text = encode(&table, &[0xFF]);
    assert!(matches!(decode_mode(&table, &text), Err(DecodeModeError::NotUtf8)));
    assert!(matches!(decode_mode(&table, "?"), Err(DecodeModeError::Decode(_))));
}

#[test]
fn unexpected_character_is_reported() {
    let table = build(PETS);
    let error = decode(&table, "catcow and more text to show").unwrap_err();
    assert_eq!(error.kind, DecodeErrorKind::TextMismatch);
    assert_eq!(error.position, 3);
    assert_eq!(error.excerpt, "cow and mor");
    assert!(error.omitted);
    let error = decode(&table, "catxyz").unwrap_err();
    assert_eq!(error.kind, DecodeErrorKind::UnexpectedChar);
    assert_eq!(error.position, 3);
    assert_eq!(error.excerpt, "yz");
    assert!(!error.omitted);
}

#[test]
fn end_of_text_within_a_rule_is_reported() {
    let table = build("[entry]\ncat\ncow\n");
    let error = decode(&table, "catc").unwrap_err();
    assert_eq!(error.kind, DecodeErrorKind::UnexpectedEnd);
    assert_eq!(error.position, 4);
    assert_eq!(error.excerpt, "");
    assert!(!error.omitted);
    let error = decode(&table, "catc\u{e9}").unwrap_err();
    assert_eq!(error.kind, DecodeErrorKind::UnexpectedChar);
    assert_eq!(error.position, 4);
    // the second character tells the rule `cow`, which the text does not hold
    let error = decode(&table, "catco").unwrap_err();
    assert_eq!(error.kind, DecodeErrorKind::TextMismatch);
    assert_eq!(error.position, 3);
    assert_eq!(error.excerpt, "co");
    let error = decode(&table, "ca").unwrap_err();
    assert_eq!(error.kind, DecodeErrorKind::TextMismatch);
    assert_eq!(error.position, 0);
    assert_eq!(error.excerpt, "ca");
}

#[test]
fn the_rule_is_known_at_the_last_character_of_the_text() {
    let table = vec![Section {
        encoder: vec![vec![Seg::Text(ShareStr::new("a"))], vec![Seg::Text(ShareStr::new("b"))]],
        decoder: Layer::Branch(vec![('a', Layer::Certain(0)), ('b', Layer::Certain(1))]),
    }];
    assert_eq!(encode(&table, &[0b0000_0010]), "abaaaaaab");
    assert_eq!(decode(&table, "abaaaaaab").unwrap(), vec![0b0000_0010]);
}

#[test]
fn excerpt_holds_eleven_characters_at_most() {
    let s: Vec<char> = "0123456789abcdef".chars().collect();
    assert_eq!(truncate_str_after_chars(&s, 0, 10), (11, true));
    assert_eq!(truncate_str_after_chars(&s, 4, 10), (15, true));
    assert_eq!(truncate_str_after_chars(&s, 5, 10), (16, false));
    assert_eq!(truncate_str_after_chars(&s, 6, 10), (16, false));
    assert_eq!(truncate_str_after_chars(&s, 16, 10), (16, false));
    assert_eq!(truncate_str_after_chars(&s, 0, 0), (1, true));
    assert_eq!(truncate_str_after_chars(&s, 15, 0), (16, false));
}

#[test]
fn table_made_by_hand() {
    let table = vec![
        Section {
            encoder: vec![
                vec![Seg::Text(ShareStr::new("<")), Seg::Use(1), Seg::Text(ShareStr::new(">"))],
                vec![Seg::Text(ShareStr::new("."))],
            ],
            decoder: Layer::Branch(vec![('<', Layer::Certain(0)), ('.', Layer::Certain(1))]),
        },
        Section {
            encoder: vec![
                vec![Seg::Text(ShareStr::new("x"))],
                vec![Seg::Text(ShareStr::new("y"))],
                vec![Seg::Text(ShareStr::new("z"))],
            ],
            decoder: Layer::Branch(vec![
                ('x', Layer::Certain(0)),
                ('y', Layer::Certain(1)),
                ('z', Layer::Certain(2)),
            ]),
        },
    ];
    // bits of 0x2C from the lowest: 0 0 1 1 0 1 0 0, then those of the end
    // token 0xD3: 1 1 0 0 1 0 1 1
    // 0 picks "<..>", and 0 the first of three rules; 1 picks "."; 1 picks
    // "."; 0 picks "<..>", and 1 0 the second of three; 0 picks "<..>", and
    // 1 1 the third of three
    let text = encode(&table, &[0x2C]);
    assert_eq!(text, "<x>..<y><z>");
    assert_eq!(decode(&table, &text).unwrap(), vec![0x2C]);
}

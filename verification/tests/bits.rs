use food_generator2::decoder::bits::BitWriter;
use food_generator2::encoder::bits::BitReader;
use food_generator2::encoder::lcg::LcgU8;
use food_generator2::file::read::get_varint;
use food_generator2::file::write::put_varint;

#[test]
fn test() {
    let seed: u8 = 123;
    let mut lcg = LcgU8::new(seed);
    for _ in 0..10 {
        println!("{}", lcg.next());
    }
}

#[test]
fn test_varint() {
    let mut vec = Vec::new();
    let value = 0x4567;
    put_varint(&mut vec, value);

    let (read, end) = get_varint(&vec, 0).unwrap();
    assert!(end == vec.len());
    assert_eq!(value, read);
}

fn varint(value: u32) -> Vec<u8> {
    let mut vec = Vec::new();
    put_varint(&mut vec, value);
    vec
}

#[test]
fn varint_has_the_documented_bytes() {
    assert_eq!(varint(0), vec![0x00]);
    assert_eq!(varint(63), vec![0x3F]);
    assert_eq!(varint(64), vec![0x40, 0x40]);
    assert_eq!(varint(0x1234), vec![0x52, 0x34]);
    assert_eq!(varint(0x4567), vec![0x80, 0x45, 0x67]);
    assert_eq!(varint(0x3FFF), vec![0x7F, 0xFF]);
    assert_eq!(varint(0x4000), vec![0x80, 0x40, 0x00]);
    assert_eq!(varint(0x3F_FFFF), vec![0xBF, 0xFF, 0xFF]);
    assert_eq!(varint(0x40_0000), vec![0xC0, 0x40, 0x00, 0x00]);
    assert_eq!(varint(0x3FFF_FFFF), vec![0xFF, 0xFF, 0xFF, 0xFF]);
}

#[test]
fn varint_round_trips_at_the_edges() {
    for value in [0u32, 1, 63, 64, 255, 256, 0x3FFF, 0x4000, 0x3F_FFFF, 0x40_0000, 0x3FFF_FFFF] {
        let mut bytes = varint(value);
        let len = bytes.len();
        bytes.push(0xAB);
        assert_eq!(get_varint(&bytes, 0), Some((value, len)));
    }
}

#[test]
fn varint_appends_to_what_is_there() {
    let mut vec = vec![7u8, 8];
    put_varint(&mut vec, 300);
    assert_eq!(vec, vec![7, 8, 0x41, 0x2C]);
    assert_eq!(get_varint(&vec, 2), Some((300, 4)));
}

#[test]
fn varint_that_is_cut_short_is_refused() {
    assert_eq!(get_varint(&[], 0), None);
    assert_eq!(get_varint(&[0x40], 0), None);
    assert_eq!(get_varint(&[0x80, 1], 0), None);
    assert_eq!(get_varint(&[0xC0, 1, 2], 0), None);
    assert_eq!(get_varint(&[0x01], 1), None);
}

#[test]
fn varint_in_more_bytes_than_needed_is_read() {
    assert_eq!(get_varint(&[0x40, 0x05], 0), Some((5, 2)));
    assert_eq!(get_varint(&[0xC0, 0, 0, 9], 0), Some((9, 4)));
}

#[test]
fn generator_takes_the_plain_step() {
    assert_eq!(LcgU8::new(123).next(), 231);
    assert_eq!(LcgU8::new(0).next(), 13);
    assert_eq!(LcgU8::new(255).next(), 159);
    let mut lcg = LcgU8::new(123);
    assert_eq!(lcg.next(), 231);
    assert_eq!(lcg.next(), 79);
}

#[test]
fn generator_steps_aside_from_the_complement() {
    // the plain step from 46 is 209, the complement of 46
    assert_eq!(LcgU8::new(46).next(), 63);
}

#[test]
fn generator_never_yields_the_complement_of_the_byte_before() {
    for seed in 0..=255u8 {
        let mut lcg = LcgU8::new(seed);
        let mut front = seed;
        for _ in 0..256 {
            let back = lcg.next();
            assert_ne!(back, !front);
            front = back;
        }
    }
}

fn read_bits(reader: &mut BitReader, n: usize) -> Vec<bool> {
    let mut bits = Vec::new();
    for _ in 0..n {
        bits.push(reader.get());
    }
    bits
}

fn bits_of(byte: u8) -> Vec<bool> {
    (0..8).map(|k| byte >> k & 1 == 1).collect()
}

#[test]
fn reader_serves_the_lowest_bit_first() {
    let bytes = [0b0000_0101u8];
    let mut reader = BitReader::new(&bytes);
    assert_eq!(
        read_bits(&mut reader, 8),
        vec![true, false, true, false, false, false, false, false]
    );
}

#[test]
fn reader_goes_on_with_the_end_token_and_the_filler() {
    let bytes = [0x12u8, 0x34];
    let mut reader = BitReader::new(&bytes);
    let mut expected = Vec::new();
    expected.extend(bits_of(0x12));
    expected.extend(bits_of(0x34));
    expected.extend(bits_of(!0x34));
    let mut lcg = LcgU8::new(!0x34);
    expected.extend(bits_of(lcg.next()));
    expected.extend(bits_of(lcg.next()));
    assert_eq!(read_bits(&mut reader, 40), expected);
}

#[test]
fn reader_has_ended_once_the_end_token_is_loaded() {
    let bytes = [0xA5u8];
    let mut reader = BitReader::new(&bytes);
    assert!(!reader.ended());
    for _ in 0..8 {
        reader.get();
        assert!(!reader.ended());
    }
    reader.get();
    assert!(reader.ended());
    reader.get();
    assert!(reader.ended());
}

#[test]
fn reader_of_nothing_has_ended_and_serves_filler() {
    let mut reader = BitReader::new(&[]);
    assert!(reader.ended());
    let mut lcg = LcgU8::new(0);
    let mut expected = bits_of(lcg.next());
    expected.extend(bits_of(lcg.next()));
    assert_eq!(read_bits(&mut reader, 16), expected);
    assert!(reader.ended());
}

fn write_bytes(writer: &mut BitWriter, bytes: &[u8]) {
    for byte in bytes {
        for bit in bits_of(*byte) {
            writer.write(bit);
        }
    }
}

#[test]
fn writer_fills_bytes_from_the_lowest_bit() {
    let mut writer = BitWriter::new();
    for bit in [true, false, true, false, false, false, false, false] {
        writer.write(bit);
    }
    assert_eq!(writer.finish(), vec![0b0000_0101]);
}

#[test]
fn writer_drops_the_bits_of_a_byte_not_filled() {
    let mut writer = BitWriter::new();
    write_bytes(&mut writer, &[0x5A]);
    writer.write(true);
    writer.write(true);
    assert_eq!(writer.finish(), vec![0x5A]);
}

#[test]
fn writer_of_nothing_gives_nothing() {
    assert_eq!(BitWriter::new().finish(), Vec::<u8>::new());
}

#[test]
fn writer_cuts_at_the_end_token() {
    let mut writer = BitWriter::new();
    write_bytes(&mut writer, &[0x10, 0x20, !0x20, 0x07, 0x99]);
    assert_eq!(writer.finish(), vec![0x10, 0x20]);
}

#[test]
fn writer_cuts_at_the_last_complement_pair() {
    let mut writer = BitWriter::new();
    write_bytes(&mut writer, &[0x00, 0xFF, 0x12, 0xED, 0x40]);
    assert_eq!(writer.finish(), vec![0x00, 0xFF, 0x12]);
}

#[test]
fn writer_without_an_end_token_keeps_the_first_byte() {
    let mut writer = BitWriter::new();
    write_bytes(&mut writer, &[0x01, 0x02, 0x03]);
    assert_eq!(writer.finish(), vec![0x01]);
}

#[test]
fn writer_gives_back_what_the_reader_serves() {
    let payload = [0x00u8, 0xFF, 0x80, 0x7F, 0x31];
    let mut reader = BitReader::new(&payload);
    let mut writer = BitWriter::new();
    // the payload, the end token and two bytes of filler
    for _ in 0..8 * (payload.len() + 3) {
        writer.write(reader.get());
    }
    assert_eq!(writer.finish(), payload.to_vec());
}

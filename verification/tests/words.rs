use modbus_registers::pack::PackType;
use modbus_registers::words::{from_words, to_words, AsWords, FromVec};

#[test]
pub fn test_u64() {
    let num = 12u64;

    let as_words = num.as_words();

    assert_eq!(as_words, vec![0x0000, 0x0000, 0x0000, 0x000C]);

    let from_vec: u64 = as_words.from_vec();

    assert_eq!(from_vec, 12u64);
}

#[test]
pub fn test_i64() {
    let num = -14i64;

    let as_words = num.as_words();

    assert_eq!(as_words, vec![0xFFFF, 0xFFFF, 0xFFFF, 0xFFF2]);

    let from_vec: i64 = as_words.from_vec();

    assert_eq!(from_vec, -14i64);
}

#[test]
fn words_are_big_endian() {
    let v: u64 = 0x0123_4567_89AB_CDEF;
    assert_eq!(v.as_words(), vec![0x0123, 0x4567, 0x89AB, 0xCDEF]);
    assert_eq!(to_words(v as i128, PackType::U64), Some(vec![0x0123, 0x4567, 0x89AB, 0xCDEF]));
    assert_eq!(to_words(0x0123_4567, PackType::U32), Some(vec![0x0123, 0x4567]));
    assert_eq!(to_words(0x0123, PackType::U16), Some(vec![0x0123]));
    for i in 0..4 {
        assert_eq!(v.as_words()[i] as u64, (v >> (48 - 16 * i)) & 0xFFFF);
    }
}

#[test]
fn to_words_ranges() {
    assert_eq!(to_words(65535, PackType::U16), Some(vec![0xFFFF]));
    assert_eq!(to_words(65536, PackType::U16), None);
    assert_eq!(to_words(-1, PackType::U16), None);
    assert_eq!(to_words(32767, PackType::I16), Some(vec![0x7FFF]));
    assert_eq!(to_words(32768, PackType::I16), None);
    assert_eq!(to_words(-32768, PackType::I16), Some(vec![0x8000]));
    assert_eq!(to_words(-32769, PackType::I16), None);
    assert_eq!(to_words(-1, PackType::I16), Some(vec![0xFFFF]));
    assert_eq!(to_words(0xFFFF_FFFF, PackType::U32), Some(vec![0xFFFF, 0xFFFF]));
    assert_eq!(to_words(0x1_0000_0000, PackType::U32), None);
    assert_eq!(to_words(-1, PackType::U32), None);
    assert_eq!(to_words(-10, PackType::I32), Some(vec![0xFFFF, 0xFFF6]));
    assert_eq!(to_words(i32::MAX as i128 + 1, PackType::I32), None);
    assert_eq!(to_words(i32::MIN as i128, PackType::I32), Some(vec![0x8000, 0]));
    assert_eq!(to_words(u64::MAX as i128, PackType::U64), Some(vec![0xFFFF; 4]));
    assert_eq!(to_words(u64::MAX as i128 + 1, PackType::U64), None);
    assert_eq!(to_words(-1, PackType::U64), None);
    assert_eq!(to_words(-1, PackType::I64), Some(vec![0xFFFF; 4]));
    assert_eq!(to_words(i64::MIN as i128, PackType::I64), Some(vec![0x8000, 0, 0, 0]));
    assert_eq!(to_words(i64::MAX as i128 + 1, PackType::I64), None);
    assert_eq!(to_words(i64::MIN as i128 - 1, PackType::I64), None);
}

#[test]
fn from_words_reads_signs() {
    assert_eq!(from_words(&vec![0xFFFF], PackType::U16), 65535);
    assert_eq!(from_words(&vec![0xFFFF], PackType::I16), -1);
    assert_eq!(from_words(&vec![0xFFFF, 0xFF9C], PackType::I32), -100);
    assert_eq!(from_words(&vec![0xFFFF, 0xFF9C], PackType::U32), 0xFFFF_FF9C);
    assert_eq!(from_words(&vec![0, 0, 0, 0xFFFF], PackType::U64), 65535);
    assert_eq!(from_words(&vec![0xFFFF, 0xFFFF, 0xFFFF, 0xFFF2], PackType::I64), -14);
    assert_eq!(from_words(&vec![0xFFFF; 4], PackType::U64), u64::MAX as i128);
    assert_eq!(from_words(&vec![0x8000, 0, 0, 0], PackType::I64), i64::MIN as i128);
}

#[test]
fn codec_round_trip() {
    let types = [PackType::U16, PackType::I16, PackType::U32, PackType::I32, PackType::U64, PackType::I64];
    let samples: [i128; 13] = [
        0, 1, -1, 42, 32767, -32768, 65535, 0x7FFF_FFFF, -0x8000_0000, 0xFFFF_FFFF,
        i64::MAX as i128, i64::MIN as i128, u64::MAX as i128,
    ];
    for t in types {
        for n in samples {
            if let Some(words) = to_words(n, t) {
                assert_eq!(words.len(), t.len());
                assert_eq!(from_words(&words, t), n);
            }
        }
    }
}

#[test]
fn traits_agree_with_codec() {
    for v in [0u64, 1, 0xFFFF, 0x1_0000, u64::MAX, 0x8000_0000_0000_0000] {
        assert_eq!(Some(v.as_words()), to_words(v as i128, PackType::U64));
        let back: u64 = v.as_words().from_vec();
        assert_eq!(back, v);
    }
    for v in [0i64, 1, -1, i64::MIN, i64::MAX, -65536] {
        assert_eq!(Some(v.as_words()), to_words(v as i128, PackType::I64));
        let back: i64 = v.as_words().from_vec();
        assert_eq!(back, v);
    }
}

use java_multiversion::mapping::IdMapping;
use java_multiversion::nbt;
use java_multiversion::nbt::{from_java, get_nbt, to_java, write_nbt, NbtCompound};
use java_multiversion::number::{bits_from_int, channel_from_bits, floor_in_range, fraction_bits, whole_from_bits};
use java_multiversion::order::{add_id, add_new_id, add_number, holds_id};
use java_multiversion::text::{hex, parse_id, write_decimal, write_wide};
use java_multiversion::wire;

#[test]
fn ints_become_the_nearest_float() {
    for value in [0, 1, -1, 3, 255, -4096, 16_777_215, 16_777_217, 16_777_219, 33_554_435, i32::MAX, i32::MIN] {
        assert_eq!(bits_from_int(value), (value as f32).to_bits(), "{value}");
    }
}

#[test]
fn small_ints_survive_a_float() {
    for value in [0, 1, -1, 1_234_567, 1 << 24, -(1 << 24)] {
        assert_eq!(whole_from_bits(bits_from_int(value)), Some(value));
    }
    assert_eq!(whole_from_bits(0.5f32.to_bits()), None);
    assert_eq!(whole_from_bits(f32::NAN.to_bits()), None);
    assert_eq!(whole_from_bits(f32::INFINITY.to_bits()), None);
    assert_eq!(whole_from_bits((-0.0f32).to_bits()), Some(0));
    assert_eq!(whole_from_bits((-2_147_483_648.0f32).to_bits()), Some(i32::MIN));
}

#[test]
fn whole_floats_come_back_from_their_int() {
    for float in [0.0f32, 1.0, -7.0, 65_536.0, 33_554_436.0, 2_147_483_520.0, -2_147_483_648.0] {
        assert_eq!(bits_from_int(whole_from_bits(float.to_bits()).unwrap()), float.to_bits(), "{float}");
    }
    assert_eq!(whole_from_bits(2_147_483_648.0f32.to_bits()), None);
}

#[test]
fn colour_channels_are_parts_of_255() {
    for byte in 0..=255u8 {
        let part = f32::from(byte) / 255.0;
        assert_eq!(fraction_bits(byte), part.to_bits(), "{byte}");
        assert_eq!(channel_from_bits(part.to_bits()), Some(byte));
    }
    assert_eq!(channel_from_bits((-3.0f32).to_bits()), Some(0));
    assert_eq!(channel_from_bits(7.0f32.to_bits()), Some(255));
    assert_eq!(channel_from_bits(f32::NAN.to_bits()), None);
}

#[test]
fn doubles_are_floored_within_a_range() {
    assert_eq!(floor_in_range(1.75f64.to_bits(), -10, 10), Some(1));
    assert_eq!(floor_in_range((-1.25f64).to_bits(), -10, 10), Some(-2));
    assert_eq!(floor_in_range((-0.0f64).to_bits(), -10, 10), Some(0));
    assert_eq!(floor_in_range(11.0f64.to_bits(), -10, 10), None);
    assert_eq!(floor_in_range(f64::NAN.to_bits(), -10, 10), None);
    assert_eq!(floor_in_range(1e300f64.to_bits(), -10, 10), None);
}

#[test]
fn numbers_are_spelled_and_read() {
    let mut out = Vec::new();
    write_decimal(&mut out, -120);
    assert_eq!(out, b"-120");
    let mut out = Vec::new();
    write_wide(&mut out, 42, 6);
    assert_eq!(out, b"000042");
    assert_eq!(parse_id(&out), Some(42));
    assert_eq!(parse_id(b"2147483647"), Some(i32::MAX));
    assert_eq!(parse_id(b"2147483648"), None);
    assert_eq!(parse_id(b"-1"), None);
    assert_eq!(parse_id(b"+"), None);
    assert_eq!(parse_id(b"1x"), None);
    assert_eq!(hex(&[0x00, 0xff, 0x1a]), b"00ff1a");
}

#[test]
fn mapped_ids_lead_back_to_the_lowest_source() {
    let table = IdMapping { slots: vec![Some(3), None, Some(5), Some(3), Some(u32::MAX)] };
    assert_eq!(table.len(), 5);
    assert_eq!(table.map_id(0), Some(3));
    assert_eq!(table.map_id(1), None);
    assert_eq!(table.map_id(9), None);
    assert_eq!(table.map_id(-1), None);
    assert_eq!(table.map_id(4), None);
    assert_eq!(table.unmap_id(3), Some(0));
    assert_eq!(table.unmap_id(5), Some(2));
    assert_eq!(table.unmap_id(4), None);
    assert_eq!(table.unmap_id(-1), None);
}

#[test]
fn lists_stay_in_order() {
    let mut numbers = Vec::new();
    for number in [5u64, 1, 3, 3, 9] {
        add_number(&mut numbers, number);
    }
    assert_eq!(numbers, [1, 3, 3, 5, 9]);
    let mut ids = Vec::new();
    for id in [4, -2, 4] {
        add_id(&mut ids, id);
    }
    assert_eq!(ids, [-2, 4, 4]);
    let mut ids = Vec::new();
    for id in [4, -2, 4] {
        add_new_id(&mut ids, id);
    }
    assert_eq!(ids, [-2, 4]);
    assert!(holds_id(&ids, 4));
    assert!(!holds_id(&ids, 3));
}

#[test]
fn compounds_are_written_and_read() {
    let mut c = NbtCompound::new();
    assert!(c.is_empty());
    c.put_int(b"n", 7);
    c.put_string(b"s", b"text");
    c.put_int(b"n", 8);
    assert_eq!(c.get_int(b"n"), Some(8));
    for named in [false, true] {
        let mut out = Vec::new();
        write_nbt(&mut out, &c.to_tag(), named);
        out.push(99);
        let mut r = out.as_slice();
        let back = get_nbt(&mut r, named).unwrap().unwrap().extract_compound().unwrap();
        assert_eq!(r, [99]);
        assert_eq!(back.get_int(b"n"), Some(8));
        assert_eq!(back.get_string(b"s").unwrap(), b"text");
        assert!(back.get(b"x").is_none());
    }
    c.remove(b"s");
    assert!(c.get_string(b"s").is_none());
    let mut out = Vec::new();
    write_nbt(&mut out, &c.to_tag(), false);
    assert_eq!(out, [nbt::TAG_COMPOUND, nbt::TAG_INT, 0, 1, b'n', 0, 0, 0, 8, nbt::TAG_END]);
}

#[test]
fn texts_take_the_form_that_java_writes() {
    assert_eq!(to_java(b"a\0b"), [b'a', 0xc0, 0x80, b'b']);
    assert_eq!(to_java("\u{1f600}".as_bytes()), [0xed, 0xa0, 0xbd, 0xed, 0xb8, 0x80]);
    for text in ["plain", "a\0b", "\u{e9}\u{20ac}", "\u{1f600}!"] {
        assert_eq!(from_java(&to_java(text.as_bytes())), text.as_bytes());
    }
}

#[test]
fn var_ints_and_strings_go_over_the_wire() {
    assert_eq!(wire::var_int_bytes(-1), [0xff, 0xff, 0xff, 0xff, 0x0f]);
    assert_eq!(wire::var_int_bytes(300), [0xac, 0x02]);
    for value in [0, 1, 127, 128, -1, i32::MAX, i32::MIN] {
        let bytes = wire::var_int_bytes(value);
        let mut r = bytes.as_slice();
        assert_eq!(wire::get_var_int(&mut r), Ok(value));
        assert!(r.is_empty());
    }
    let mut r: &[u8] = &[0xff, 0xff, 0xff, 0xff, 0xff, 0x01];
    assert!(wire::get_var_int(&mut r).is_err());
    let mut out = Vec::new();
    wire::write_str(&mut out, b"name");
    let mut r = out.as_slice();
    assert_eq!(wire::get_str(&mut r), Ok(b"name".as_slice()));
    let mut r: &[u8] = &[2, 0xff, 0xff];
    assert!(wire::get_str(&mut r).is_err(), "a string is UTF-8");
}

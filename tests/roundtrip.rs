use flatbuffers::reader::{compare_bytes, read_string_key};
use flatbuffers::{
    field_index_to_offset, get_root, padding_bytes, FlatBufferBuilder, Offset, StringKey, Struct,
    Table, Vector,
};
use std::cmp::Ordering;

fn finished_table<F: Fn(&mut FlatBufferBuilder)>(fill: F, num_fields: u16) -> Vec<u8> {
    let mut b = FlatBufferBuilder::new(8);
    let start = b.start_table();
    fill(&mut b);
    let t = b.end_table(start, num_fields);
    b.finish(Offset::<Table>::new(t));
    b.get_buffer().to_vec()
}

#[test]
fn scalars_read_back() {
    let f = |i: u16| field_index_to_offset(i);
    let buf = finished_table(
        |b| {
            b.add_scalar(f(0), -5i8, 0i8);
            b.add_scalar(f(1), 200u8, 0u8);
            b.add_scalar(f(2), -30000i16, 0i16);
            b.add_scalar(f(3), 60000u16, 0u16);
            b.add_scalar(f(4), -2_000_000_000i32, 0i32);
            b.add_scalar(f(5), 4_000_000_000u32, 0u32);
            b.add_scalar(f(6), i64::MIN, 0i64);
            b.add_scalar(f(7), u64::MAX, 0u64);
        },
        8,
    );
    let t = get_root(&buf);
    assert_eq!(t.get_field(&buf, f(0), 0i8), -5);
    assert_eq!(t.get_field(&buf, f(1), 0u8), 200);
    assert_eq!(t.get_field(&buf, f(2), 0i16), -30000);
    assert_eq!(t.get_field(&buf, f(3), 0u16), 60000);
    assert_eq!(t.get_field(&buf, f(4), 0i32), -2_000_000_000);
    assert_eq!(t.get_field(&buf, f(5), 0u32), 4_000_000_000);
    assert_eq!(t.get_field(&buf, f(6), 0i64), i64::MIN);
    assert_eq!(t.get_field(&buf, f(7), 0u64), u64::MAX);
    // A slot past the vtable reads as absent.
    assert!(!t.check_field(&buf, f(8)));
    assert_eq!(t.get_field(&buf, f(8), 9u32), 9);
}

#[test]
fn every_object_is_aligned() {
    let f = |i: u16| field_index_to_offset(i);
    let buf = finished_table(
        |b| {
            b.add_scalar(f(0), 1u8, 0u8);
            b.add_scalar(f(1), 2u64, 0u64);
            b.add_scalar(f(2), 3u16, 0u16);
        },
        3,
    );
    assert_eq!(buf.len() % 8, 0);
    let t = get_root(&buf);
    assert_eq!(t.pos % 4, 0);
    let slot = |i: u16| t.get_optional_field_offset(&buf, f(i)).unwrap() as usize;
    assert_eq!((t.pos + slot(1)) % 8, 0);
    assert_eq!((t.pos + slot(2)) % 2, 0);
    assert_eq!(t.get_field(&buf, f(1), 0u64), 2);
}

#[test]
fn padding_formula() {
    assert_eq!(padding_bytes(0, 4), 0);
    assert_eq!(padding_bytes(5, 4), 3);
    assert_eq!(padding_bytes(6, 8), 2);
    assert_eq!(padding_bytes(7, 1), 0);
    assert_eq!(field_index_to_offset(0), 4);
    assert_eq!(field_index_to_offset(3), 10);
}

#[test]
fn strings_read_back_with_terminator() {
    for s in ["", "a", "abc", "hello world", "ünïcode"] {
        let mut b = FlatBufferBuilder::new(0);
        let off = b.create_string(s);
        b.finish(off);
        let buf = b.get_buffer().to_vec();
        let v = get_root(&buf);
        let v = Vector { pos: v.pos };
        assert_eq!(v.pos % 4, 0);
        assert_eq!(v.len(&buf), s.len());
        assert_eq!(v.as_bytes(&buf), s.as_bytes().to_vec());
        assert_eq!(buf[v.pos + 4 + s.len()], 0);
    }
}

#[test]
fn vector_of_strings_reads_back() {
    let mut b = FlatBufferBuilder::new(0);
    let words = ["x", "yy", "zzz"];
    let offs: Vec<Offset<Vector>> = words.iter().map(|w| b.create_string(w)).collect();
    let v = b.create_vector_of_offsets(&offs);
    b.finish(v);
    let buf = b.get_buffer().to_vec();
    let vec = Vector { pos: get_root(&buf).pos };
    assert_eq!(vec.len(&buf), 3);
    for (i, w) in words.iter().enumerate() {
        let s = Vector { pos: vec.get_ref(&buf, i).unwrap() };
        assert_eq!(s.as_bytes(&buf), w.as_bytes().to_vec());
    }
    assert_eq!(vec.get_ref(&buf, 3), None);
}

#[test]
fn vector_of_u32_iterates() {
    let mut b = FlatBufferBuilder::new(0);
    let data = [7u32, 8, 9, 10];
    let v = b.create_vector(&data);
    b.finish(v);
    let buf = b.get_buffer().to_vec();
    let vec = Vector { pos: get_root(&buf).pos };
    let mut it = vec.iter();
    let mut got = Vec::new();
    while let Some(x) = it.next::<u32>(&buf) {
        got.push(x);
    }
    assert_eq!(got, data.to_vec());
}

#[test]
fn vector_of_structs_reads_back() {
    // Two structs of { a: u16, b: u16 }, packed.
    let bytes = [1u8, 0, 2, 0, 3, 0, 4, 0];
    let mut b = FlatBufferBuilder::new(0);
    let v = b.create_vector_of_structs(&bytes, 2, 2);
    b.finish(v);
    let buf = b.get_buffer().to_vec();
    let vec = Vector { pos: get_root(&buf).pos };
    assert_eq!(vec.len(&buf), 2);
    let second = Struct { pos: vec.pos + 4 + 4 };
    assert_eq!(second.get_field::<u16>(&buf, 0), 3);
    assert_eq!(second.get_field::<u16>(&buf, 2), 4);
}

#[test]
fn struct_field_reads_back() {
    let f = field_index_to_offset(0);
    let buf = finished_table(|b| b.add_struct(f, &[9, 0, 0, 0, 5, 0, 0, 0], 4), 1);
    let t = get_root(&buf);
    let s = t.get_struct(&buf, f).unwrap();
    assert_eq!(s.pos % 4, 0);
    assert_eq!(s.get_field::<u32>(&buf, 0), 9);
    assert_eq!(s.get_field::<u32>(&buf, 4), 5);
    assert_eq!(s.get_struct(&buf, 4).get_field::<u32>(&buf, 0), 5);
}

#[test]
fn offset_field_reads_back() {
    let f = field_index_to_offset(0);
    let mut b = FlatBufferBuilder::new(0);
    let name = b.create_string("name");
    let start = b.start_table();
    b.add_offset(f, name);
    b.add_offset(field_index_to_offset(1), Offset::<Vector>::new(0));
    let t = b.end_table(start, 2);
    b.finish(Offset::<Table>::new(t));
    let buf = b.get_buffer().to_vec();
    let root = get_root(&buf);
    let s = Vector { pos: root.get_ref(&buf, f).unwrap() };
    assert_eq!(s.as_bytes(&buf), b"name".to_vec());
    assert_eq!(root.get_ref(&buf, field_index_to_offset(1)), None);
}

#[test]
fn set_field_overwrites_in_place() {
    let f = field_index_to_offset(0);
    let mut buf = finished_table(|b| b.add_scalar(f, 11u32, 0u32), 1);
    let t = get_root(&buf);
    t.set_field(&mut buf, f, 42u32);
    assert_eq!(t.get_field(&buf, f, 0u32), 42);
}

#[test]
fn offsets_in_a_buffer_are_non_negative() {
    let mut b = FlatBufferBuilder::new(0);
    let s = b.create_string("key");
    let start = b.start_table();
    b.add_offset(field_index_to_offset(0), s);
    b.add_scalar(field_index_to_offset(1), 3i16, 0i16);
    let t = b.end_table(start, 2);
    b.finish(Offset::<Table>::new(t));
    let buf = b.get_buffer().to_vec();
    let root_off = i32::from_le_bytes([buf[0], buf[1], buf[2], buf[3]]);
    assert!(root_off >= 0);
    let root = get_root(&buf);
    let p = root.pos + root.get_optional_field_offset(&buf, field_index_to_offset(0)).unwrap() as usize;
    let field_off = i32::from_le_bytes([buf[p], buf[p + 1], buf[p + 2], buf[p + 3]]);
    assert!(field_off >= 0);
}

#[test]
fn clear_gives_the_same_bytes_as_a_new_builder() {
    fn build(b: &mut FlatBufferBuilder) -> Vec<u8> {
        let s = b.create_string("abc");
        let start = b.start_table();
        b.add_offset(field_index_to_offset(0), s);
        b.add_scalar(field_index_to_offset(1), 5u64, 0u64);
        let t = b.end_table(start, 2);
        b.finish(Offset::<Table>::new(t));
        b.get_buffer().to_vec()
    }
    let mut fresh = FlatBufferBuilder::new(0);
    let expected = build(&mut fresh);
    let mut reused = FlatBufferBuilder::new(1);
    let _ = build(&mut reused);
    reused.create_string("something else entirely");
    reused.clear();
    assert_eq!(reused.get_size(), 0);
    assert_eq!(build(&mut reused), expected);
}

#[test]
fn pad_push_and_pop_bytes() {
    let mut b = FlatBufferBuilder::new(0);
    b.push_bytes(&[1, 2]);
    b.pad(2);
    assert_eq!(b.get_buffer(), &[0, 0, 1, 2]);
    b.pop_bytes(3);
    assert_eq!(b.get_buffer(), &[2]);
    b.pre_align(2, 4);
    assert_eq!(b.get_size(), 2);
    assert_eq!(b.push_scalar(0x0102u16), 4);
    assert_eq!(b.get_buffer(), &[2, 1, 0, 2]);
    let r = b.refer_to(2);
    assert_eq!(r, 6);
}


const KEY: u16 = 4;

fn key_of(buf: &[u8], table: usize) -> Vec<u8> {
    let t = Table { pos: table };
    Vector { pos: t.get_ref(buf, KEY).unwrap() }.as_bytes(buf)
}

#[test]
fn sorted_string_keyed_tables() {
    let mut b = FlatBufferBuilder::new(0);
    let mut tables: Vec<Offset<StringKey<KEY>>> = Vec::new();
    for k in ["b", "a", "c"] {
        let s = b.create_string(k);
        let start = b.start_table();
        b.add_offset(KEY, s);
        let t = b.end_table(start, 1);
        tables.push(Offset::new(t));
    }
    let v = b.create_vector_of_sorted_tables(&mut tables);
    b.finish(v);
    let buf = b.get_buffer().to_vec();
    let vec = Vector { pos: get_root(&buf).pos };
    let keys: Vec<Vec<u8>> = (0..vec.len(&buf))
        .map(|i| key_of(&buf, vec.get_ref(&buf, i).unwrap()))
        .collect();
    assert_eq!(keys, vec![b"a".to_vec(), b"b".to_vec(), b"c".to_vec()]);
}

#[test]
fn sorting_keeps_equal_and_longer_keys_in_order() {
    let mut b = FlatBufferBuilder::new(0);
    let mut tables: Vec<Offset<StringKey<KEY>>> = Vec::new();
    for k in ["ab", "a", "b", "a", ""] {
        let s = b.create_string(k);
        let start = b.start_table();
        b.add_offset(KEY, s);
        let t = b.end_table(start, 1);
        tables.push(Offset::new(t));
    }
    b.create_vector_of_sorted_tables(&mut tables);
    let buf = b.get_buffer().to_vec();
    let keys: Vec<Vec<u8>> = tables
        .iter()
        .map(|o| key_of(&buf, buf.len() - o.value() as usize))
        .collect();
    let expected: Vec<Vec<u8>> = ["", "a", "a", "ab", "b"].iter().map(|k| k.as_bytes().to_vec()).collect();
    assert_eq!(keys, expected);
}

#[test]
fn string_key_of_a_table_without_the_field_is_empty() {
    let buf = finished_table(|b| b.add_scalar(KEY, 1u32, 0u32), 1);
    let t = get_root(&buf);
    assert_eq!(read_string_key(&buf, t.pos, field_index_to_offset(5)), Vec::<u8>::new());
    assert_eq!(read_string_key(&buf, buf.len() + 10, KEY), Vec::<u8>::new());
    assert_eq!(compare_bytes(&b"ab".to_vec(), &b"b".to_vec()), Ordering::Less);
    assert_eq!(compare_bytes(&b"b".to_vec(), &b"ab".to_vec()), Ordering::Greater);
    assert_eq!(compare_bytes(&b"a".to_vec(), &b"a".to_vec()), Ordering::Equal);
    assert_eq!(compare_bytes(&b"a".to_vec(), &b"ab".to_vec()), Ordering::Less);
}

#[test]
fn float_bits_read_back() {
    let f = field_index_to_offset(0);
    let x: f64 = -1.5e300;
    let buf = finished_table(|b| b.add_scalar(f, x.to_bits(), 0u64), 1);
    let t = get_root(&buf);
    assert_eq!(f64::from_bits(t.get_field(&buf, f, 0u64)), x);
}

#[test]
fn uninitialized_vector_is_filled_in_place() {
    let mut b = FlatBufferBuilder::new(0);
    let (v, elems) = b.create_uninitialized_vector(3, 2);
    assert_eq!(elems + 4, v as usize);
    b.write_at(elems, &[7, 0]);
    b.write_at(elems - 4, &[9, 0]);
    b.finish(Offset::<Vector>::new(v));
    let buf = b.get_buffer().to_vec();
    let vec = Vector { pos: get_root(&buf).pos };
    assert_eq!(vec.len(&buf), 3);
    assert_eq!(vec.get::<u16>(&buf, 0), Some(7));
    assert_eq!(vec.get::<u16>(&buf, 1), Some(0));
    assert_eq!(vec.get::<u16>(&buf, 2), Some(9));
}

#[test]
fn pre_align_raises_the_buffer_alignment() {
    let mut b = FlatBufferBuilder::new(0);
    b.push_bytes(&[1]);
    b.pre_align(1, 8);
    assert_eq!(b.get_size(), 7);
    let s = b.create_string("x");
    b.finish(s);
    assert_eq!(b.get_size() % 8, 0);
}

#[test]
fn eight_aligned_structs_stay_aligned_after_finish() {
    let bytes = [1u8, 0, 0, 0, 0, 0, 0, 0, 2, 0, 0, 0, 0, 0, 0, 0];
    let mut b = FlatBufferBuilder::new(0);
    b.push_bytes(&[5, 5]);
    let v = b.create_vector_of_structs(&bytes, 2, 8);
    b.finish(v);
    let buf = b.get_buffer().to_vec();
    assert_eq!(buf.len() % 8, 0);
    let vec = Vector { pos: get_root(&buf).pos };
    assert_eq!((vec.pos + 4) % 8, 0);
    assert_eq!(Struct { pos: vec.pos + 4 + 8 }.get_field::<u64>(&buf, 0), 2);
}

#[test]
fn nesting_and_offset_equality() {
    let mut b = FlatBufferBuilder::new(0);
    assert!(!b.is_nested());
    b.start_table();
    b.add_scalar(field_index_to_offset(0), 1u8, 0u8);
    assert!(b.is_nested());
    assert!(Offset::<Table>::new(3) == Offset::<Table>::new(3));
    assert!(Offset::<Table>::new(3) != Offset::<Table>::new(4));
}

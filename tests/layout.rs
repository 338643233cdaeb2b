use flatbuffers::{field_index_to_offset, get_root, FlatBufferBuilder, Offset, Table, Vector};

fn u16_at(buf: &[u8], i: usize) -> u16 {
    u16::from_le_bytes([buf[i], buf[i + 1]])
}

fn u32_at(buf: &[u8], i: usize) -> u32 {
    u32::from_le_bytes([buf[i], buf[i + 1], buf[i + 2], buf[i + 3]])
}

fn i32_at(buf: &[u8], i: usize) -> i32 {
    i32::from_le_bytes([buf[i], buf[i + 1], buf[i + 2], buf[i + 3]])
}

fn vtable_index(buf: &[u8], table: usize) -> usize {
    (table as i64 - i32_at(buf, table) as i64) as usize
}

#[test]
fn empty_table() {
    let mut b = FlatBufferBuilder::new(16);
    let start = b.start_table();
    let t = b.end_table(start, 0);
    b.finish(Offset::<Table>::new(t));
    let buf = b.get_buffer().to_vec();
    assert!(buf.len() >= 12);
    assert_eq!(buf.len(), 12);
    let root = get_root(&buf);
    assert!(root.pos >= 4);
    let vt = vtable_index(&buf, root.pos);
    assert_eq!(u16_at(&buf, vt), 4);
    assert_eq!(u16_at(&buf, vt + 2), 4);
    assert_eq!(buf, vec![8, 0, 0, 0, 4, 0, 4, 0, 4, 0, 0, 0]);
}

#[test]
fn scalar_field_equal_to_default_is_absent() {
    let mut b = FlatBufferBuilder::new(0);
    let field = field_index_to_offset(0);
    let start = b.start_table();
    b.add_scalar(field, 0i32, 0i32);
    let t = b.end_table(start, 1);
    b.finish(Offset::<Table>::new(t));
    let buf = b.get_buffer().to_vec();
    let root = get_root(&buf);
    let vt = vtable_index(&buf, root.pos);
    assert_eq!(u16_at(&buf, vt + field as usize), 0);
    assert!(!root.check_field(&buf, field));
    assert_eq!(root.get_field(&buf, field, 0i32), 0);
    assert_eq!(root.get_field(&buf, field, 7i32), 7);
}

#[test]
fn forced_default_is_present() {
    let mut b = FlatBufferBuilder::new(0);
    b.force_defaults(true);
    let field = field_index_to_offset(0);
    let start = b.start_table();
    b.add_scalar(field, 0i32, 0i32);
    let t = b.end_table(start, 1);
    b.finish(Offset::<Table>::new(t));
    let buf = b.get_buffer().to_vec();
    let root = get_root(&buf);
    assert!(root.check_field(&buf, field));
    assert_eq!(root.get_field(&buf, field, 7i32), 0);
}

#[test]
fn string_hello() {
    let mut b = FlatBufferBuilder::new(0);
    let s = b.create_string("hello");
    let buf = b.get_buffer().to_vec();
    let at = buf.len() - s.value() as usize;
    assert_eq!(at % 4, 0);
    assert_eq!(
        &buf[at..at + 10],
        &[0x05, 0x00, 0x00, 0x00, 0x68, 0x65, 0x6C, 0x6C, 0x6F, 0x00]
    );
    let v = Vector { pos: at };
    assert_eq!(v.len(&buf), 5);
    assert_eq!(v.as_bytes(&buf), b"hello".to_vec());
}

#[test]
fn two_tables_share_one_vtable() {
    let mut b = FlatBufferBuilder::new(0);
    let field = field_index_to_offset(0);
    let s1 = b.start_table();
    b.add_scalar(field, 1i32, 0i32);
    let t1 = b.end_table(s1, 1);
    // The table object's size counts the padding before its fields, so the second
    // table starts aligned to get the same object size, hence the same vtable.
    b.align(4);
    let size_after_first = b.get_size();
    let s2 = b.start_table();
    b.add_scalar(field, 2i32, 0i32);
    let t2 = b.end_table(s2, 1);
    // The second table adds its field and its link, and no vtable.
    assert_eq!(b.get_size(), size_after_first + 8);
    b.finish(Offset::<Table>::new(t2));
    let buf = b.get_buffer().to_vec();
    let n = buf.len();
    let i1 = n - t1 as usize;
    let i2 = n - t2 as usize;
    assert_eq!(vtable_index(&buf, i1), vtable_index(&buf, i2));
    assert!(i32_at(&buf, i2) < 0);
    assert_eq!(Table { pos: i1 }.get_field(&buf, field, 0i32), 1);
    assert_eq!(Table { pos: i2 }.get_field(&buf, field, 0i32), 2);
}

#[test]
fn vector_of_int16() {
    let mut b = FlatBufferBuilder::new(0);
    let v = b.create_vector(&[1i16, 2, 3]);
    let buf = b.get_buffer().to_vec();
    let at = buf.len() - v.value() as usize;
    assert_eq!(at % 2, 0);
    assert_eq!(u32_at(&buf, at), 3);
    assert_eq!(&buf[at + 4..at + 10], &[1, 0, 2, 0, 3, 0]);
    let vec = Vector { pos: at };
    assert_eq!(vec.get::<i16>(&buf, 0), Some(1));
    assert_eq!(vec.get::<i16>(&buf, 2), Some(3));
    assert_eq!(vec.get::<i16>(&buf, 3), None);
}
